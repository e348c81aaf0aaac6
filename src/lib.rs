//! A unidirectional-data-flow UI core: declarative view trees, a positional
//! diff between two versions of a tree, a live widget tree that the diff's
//! changes are applied to, and the update cycle that ties them together.
pub mod diff;
pub mod dom;
pub mod laws;
pub mod live;
pub mod program;
pub mod stream;

pub use program::program;

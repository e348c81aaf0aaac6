//! The message stream: an unbounded, ordered queue that carries messages from
//! widget callbacks, on any thread, to the update cycle.
use vstd::prelude::*;

use crossbeam::sync::MsQueue;
use std::sync::Arc;

verus! {

#[verifier::external_type_specification]
#[verifier::external_body]
#[verifier::reject_recursive_types(T)]
pub struct ExMsQueue<T>(MsQueue<T>);

/// Relies on crossbeam's `MsQueue::new`: a new, empty queue. Its sentinel
/// element is left uninitialised, which std allows (without a panic) only for
/// element types that may hold any pattern of 0x01 bytes. An `Option` of a
/// box is such a type whatever the message type is, so every stream holds
/// its messages boxed.
#[verifier::external_body]
fn new_queue<S>() -> (r: MsQueue<Option<Box<S>>>) {
    MsQueue::new()
}

/// Relies on crossbeam's `MsQueue::push`: adds `t` at the back without
/// blocking.
pub assume_specification<T>[ MsQueue::<T>::push ](q: &MsQueue<T>, t: T);

/// Relies on crossbeam's `MsQueue::pop`: takes the front element, waiting
/// until there is one. Other handles may push and pop meanwhile, so nothing is
/// stated of which element comes out.
pub assume_specification<T>[ MsQueue::<T>::pop ](q: &MsQueue<T>) -> T;

/// Relies on crossbeam's `MsQueue::try_pop`: the front element, or `None`
/// where the queue was seen empty.
pub assume_specification<T>[ MsQueue::<T>::try_pop ](q: &MsQueue<T>) -> Option<T>;

/// A handle on a message stream. Clones are handles on the same stream.
#[verifier::reject_recursive_types(S)]
pub struct Stream<S> {
    queue: Arc<MsQueue<Option<Box<S>>>>,
}

impl<S> Clone for Stream<S> {
    /// Another handle on the same stream.
    fn clone(&self) -> Self {
        Stream { queue: self.queue.clone() }
    }
}

impl<S> Stream<S> {
    /// A new, empty stream.
    pub fn new() -> (r: Stream<S>) {
        Stream { queue: Arc::new(new_queue()) }
    }

    /// Adds `message` at the back of the stream. Never blocks.
    pub fn push(&self, message: S) {
        self.queue.push(Some(Box::new(message)))
    }

    /// Takes the entry at the front of the stream, waiting until there is
    /// one, and hands on its message. Every entry that `push` adds holds a
    /// message; the queue is private to the stream's handles, but that is
    /// not tracked here, so an empty entry comes out as `None`.
    pub fn pop(&self) -> (r: Option<S>) {
        match self.queue.pop() {
            Some(b) => Some(*b),
            None => None,
        }
    }

    /// Takes the message at the front of the stream, or `None` where the
    /// stream is empty.
    pub fn try_pop(&self) -> (r: Option<S>) {
        match self.queue.try_pop() {
            Some(Some(b)) => Some(*b),
            _ => None,
        }
    }
}

} // verus!

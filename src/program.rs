//! The update cycle: a message updates the model, the model renders a new
//! view, the diff against the old view is applied to the live tree.
use vstd::prelude::*;

use crate::diff::{apply_all, changes_view, diff, diff_view, Change, ChangeView};
use crate::dom::{clone_is_copy, eq_is_equality, Object};
use crate::laws::{lemma_diff_applies, lemma_diff_same};
use crate::live::{create, edit_handles, edits, handle_chain, patch, HandleView, Vertex, Widget};
use crate::stream::Stream;

verus! {

/// A running application: the current model, the view it rendered, the live
/// tree that mirrors that view, the stream that widgets send messages on, and
/// the application's update and view functions.
#[verifier::reject_recursive_types(S)]
#[verifier::reject_recursive_types(W)]
#[verifier::reject_recursive_types(M)]
pub struct Program<M, S, W, U, V> {
    pub model: M,
    pub node: Object<S>,
    pub tree: Vertex<S, W>,
    pub stream: Stream<S>,
    pub update: U,
    pub view: V,
}

impl<M, S, W, U: Fn(M, S) -> M, V: Fn(&M) -> Object<S>> Program<M, S, W, U, V> {
    /// The live tree mirrors the current view, and the application's
    /// functions accept every input.
    pub open spec fn wf(&self) -> bool {
        &&& self.tree@ == self.node@
        &&& forall|m: M, s: S| #[trigger] call_requires(self.update, (m, s))
        &&& forall|m: &M| #[trigger] call_requires(self.view, (m,))
    }
}

/// Starts an application: renders `model` with `view` and builds the live
/// tree of that view, with widgets that send their messages on a new stream.
pub fn program<M, S: PartialEq + Clone, W: Widget<S>, U: Fn(M, S) -> M, V: Fn(&M) -> Object<S>>(
    model: M,
    update: U,
    view: V,
) -> (r: Program<M, S, W, U, V>)
    requires
        clone_is_copy::<S>(),
        forall|m: M, s: S| #[trigger] call_requires(update, (m, s)),
        forall|m: &M| #[trigger] call_requires(view, (m,)),
    ensures
        r.wf(),
        r.model == model,
        r.update == update,
        r.view == view,
        call_ensures(view, (&model,), r.node),
{
    let stream: Stream<S> = Stream::new();
    let node = view(&model);
    let tree = create(&stream, node.copy());
    Program { model, node, tree, stream, update, view }
}

impl<
    M,
    S: PartialEq + Clone,
    W: Widget<S>,
    U: Fn(M, S) -> M,
    V: Fn(&M) -> Object<S>,
> Program<M, S, W, U, V> {
    /// One cycle: `update` turns the model and `message` into the next
    /// model, `view` renders it, and the diff between the old view and the
    /// new one is applied to the live tree, change by change, in order. Each
    /// change acts in place: every vertex that stays keeps its widget, and only
    /// insertions and replacements build new ones.
    pub fn step(self, message: S) -> (r: Program<M, S, W, U, V>)
        requires
            self.wf(),
            eq_is_equality::<S>(),
            clone_is_copy::<S>(),
        ensures
            r.wf(),
            call_ensures(self.update, (self.model, message), r.model),
            call_ensures(self.view, (&r.model,), r.node),
            r.update == self.update,
            r.view == self.view,
            r.node@ == self.node@ ==> r.tree.handles() == self.tree.handles(),
            edits(self.tree.handles(), diff_view(self.node@, r.node@), r.tree.handles()),
    {
        let Program { model, node, mut tree, stream, update, view } = self;
        let next = update(model, message);
        let rendered = view(&next);
        let mut changes: Vec<Change<S>> = diff(&node, &rendered);
        let ghost all = changes_view(changes@);
        proof {
            lemma_diff_applies(node@, rendered@);
            if rendered@ == node@ {
                lemma_diff_same(node@);
            }
            assert(all.subrange(0, 0) =~= Seq::<ChangeView<S>>::empty());
            assert(all.subrange(0, all.len() as int) =~= all);
        }
        proof {
            assert(handle_chain(all.subrange(0, 0), seq![tree.handles()], Seq::<HandleView<W>>::empty()));
        }
        let ghost h0 = tree.handles();
        let ghost mut hs: Seq<HandleView<W>> = seq![h0];
        let ghost mut subs: Seq<HandleView<W>> = Seq::empty();
        while changes.len() > 0
            invariant
                all == diff_view(node@, rendered@),
                apply_all(tree@, changes_view(changes@)) == Some(rendered@),
                changes.len() <= all.len(),
                changes_view(changes@) == all.subrange(all.len() - changes.len(), all.len() as int),
                handle_chain(all.subrange(0, all.len() - changes.len()), hs, subs),
                hs[0] == h0,
                hs.last() == tree.handles(),
            decreases changes.len(),
        {
            let ghost cs = changes_view(changes@);
            let ghost done = all.len() - changes.len();
            let ghost before = tree.handles();
            let c = changes.remove(0);
            proof {
                assert(cs[0] == c@);
                assert(changes_view(changes@) =~= cs.drop_first());
                assert(changes_view(changes@) =~= all.subrange(
                    all.len() - changes.len(),
                    all.len() as int,
                ));
            }
            patch(&stream, &mut tree, c);
            proof {
                let sub = choose|sub: HandleView<W>|
                    tree.handles() == edit_handles(before, c@.path, c@.op, sub);
                let old_hs = hs;
                let old_subs = subs;
                hs = hs.push(tree.handles());
                subs = subs.push(sub);
                let prefix = all.subrange(0, done + 1);
                assert(all[done] == c@);
                assert forall|k: int| 0 <= k < prefix.len() implies #[trigger] hs[k + 1]
                    == edit_handles(hs[k], prefix[k].path, prefix[k].op, subs[k]) by {
                    if k < done {
                        assert(hs[k + 1] == old_hs[k + 1]);
                        assert(all.subrange(0, done)[k] == prefix[k]);
                    }
                }
            }
        }
        proof {
            assert(changes_view(changes@) =~= Seq::empty());
            assert(handle_chain(all, hs, subs));
            if rendered@ == node@ {
                assert(all.subrange(0, 0) =~= Seq::<ChangeView<S>>::empty());
            }
        }
        Program { model: next, node: rendered, tree, stream, update, view }
    }
}

} // verus!

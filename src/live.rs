//! The live tree: native widgets arranged as a view tree, and the patch engine
//! that applies changes to it.
use vstd::prelude::*;

use atomic_box::AtomicBox;
use std::sync::Arc;

use crate::diff::{apply_change, path_view, Change, ChangeView, Operation, OperationView};
use crate::dom::{Attributes, Kind, NodeView, Object};
use crate::stream::Stream;

verus! {

#[verifier::external_type_specification]
#[verifier::external_body]
#[verifier::reject_recursive_types(T)]
pub struct ExAtomicBox<T>(AtomicBox<T>);

/// Relies on `AtomicBox::new`: a box holding `data`.
pub assume_specification<T>[ AtomicBox::<T>::new ](data: T) -> AtomicBox<T>;

/// Relies on `AtomicBox::load`: a shared pointer to the value held now.
pub assume_specification<T>[ AtomicBox::<T>::load ](b: &AtomicBox<T>) -> Arc<T>;

/// What the core asks of a native widget binding. A widget handle is shared
/// with the toolkit's callbacks, so its methods take `&self` and the binding
/// guards its own state.
pub trait Widget<S>: Sized {
    /// A new widget of the given kind. Interactive kinds (buttons, fields)
    /// keep `stream` and push their messages onto it.
    fn create(kind: Kind, stream: Stream<S>) -> Self;

    /// Shows the given attribute set.
    fn update(&self, attributes: &Attributes<S>);

    /// Attaches `child` to this widget.
    fn add(&self, child: &Self);

    /// Detaches `child` from this widget.
    fn remove(&self, child: &Self);
}

/// One element of the live tree: its native widget, the kind and attributes
/// the widget was given, and its children.
#[verifier::reject_recursive_types(W)]
pub struct Vertex<S, W> {
    pub kind: Kind,
    pub attributes: Attributes<S>,
    pub widget: AtomicBox<W>,
    pub children: Vec<Vertex<S, W>>,
}

impl<S, W> Vertex<S, W> {
    pub open spec fn view_of(self) -> NodeView<S>
        decreases self,
    {
        NodeView {
            kind: self.kind,
            attributes: self.attributes@,
            children: Seq::new(
                self.children.len() as nat,
                |i: int|
                    if 0 <= i < self.children.len() {
                        self.children@[i].view_of()
                    } else {
                        arbitrary()
                    },
            ),
        }
    }
}

impl<S, W> View for Vertex<S, W> {
    type V = NodeView<S>;

    open spec fn view(&self) -> NodeView<S> {
        self.view_of()
    }
}

/// The views of a sequence of vertices.
pub open spec fn vertices_view<S, W>(s: Seq<Vertex<S, W>>) -> Seq<NodeView<S>> {
    Seq::new(s.len(), |i: int| s[i]@)
}

proof fn lemma_vertex_children<S, W>(v: Vertex<S, W>)
    ensures
        v@.children == vertices_view(v.children@),
{
    assert(v@.children =~= vertices_view(v.children@));
}

/// The widget handles of a live tree, arranged as the tree is.
#[verifier::reject_recursive_types(W)]
pub ghost struct HandleView<W> {
    pub widget: AtomicBox<W>,
    pub children: Seq<HandleView<W>>,
}

impl<S, W> Vertex<S, W> {
    pub open spec fn handles(self) -> HandleView<W>
        decreases self,
    {
        HandleView {
            widget: self.widget,
            children: Seq::new(
                self.children.len() as nat,
                |i: int|
                    if 0 <= i < self.children.len() {
                        self.children@[i].handles()
                    } else {
                        arbitrary()
                    },
            ),
        }
    }
}

/// The handles of a sequence of vertices.
pub open spec fn vertices_handles<S, W>(s: Seq<Vertex<S, W>>) -> Seq<HandleView<W>> {
    Seq::new(s.len(), |i: int| s[i].handles())
}

proof fn lemma_vertex_handles<S, W>(v: Vertex<S, W>)
    ensures
        v.handles().children == vertices_handles(v.children@),
{
    assert(v.handles().children =~= vertices_handles(v.children@));
}

/// The handles after `op` at `path`, where `sub` holds the handles of a
/// subtree that the change builds: every vertex that stays keeps its handle;
/// an insertion adds `sub`, a removal drops the child's handles, a
/// replacement puts `sub` in place of the element's.
pub open spec fn edit_handles<S, W>(
    h: HandleView<W>,
    path: Seq<int>,
    op: OperationView<S>,
    sub: HandleView<W>,
) -> HandleView<W>
    decreases path.len(),
{
    if path.len() == 0 {
        match op {
            OperationView::Replace(_) => sub,
            _ => h,
        }
    } else {
        let i = path[0];
        match op {
            OperationView::Insert(_) if path.len() == 1 => HandleView {
                children: h.children.insert(i, sub),
                ..h
            },
            OperationView::Remove if path.len() == 1 => HandleView {
                children: h.children.remove(i),
                ..h
            },
            _ => {
                if 0 <= i < h.children.len() {
                    HandleView {
                        children: h.children.update(
                            i,
                            edit_handles(h.children[i], path.drop_first(), op, sub),
                        ),
                        ..h
                    }
                } else {
                    h
                }
            },
        }
    }
}

/// `hs` runs through the handles before and after each change of `cs`,
/// applied in order, and `subs` holds the handles of the subtrees that they
/// build: each change keeps the handle of every vertex that stays.
pub open spec fn handle_chain<S, W>(
    cs: Seq<ChangeView<S>>,
    hs: Seq<HandleView<W>>,
    subs: Seq<HandleView<W>>,
) -> bool {
    &&& hs.len() == cs.len() + 1
    &&& subs.len() == cs.len()
    &&& forall|k: int|
        0 <= k < cs.len() ==> #[trigger] hs[k + 1] == edit_handles(
            hs[k],
            cs[k].path,
            cs[k].op,
            subs[k],
        )
}

/// The changes `cs`, applied in order, take the handles `h` to `h2`, each in
/// place as `edit_handles` says.
pub open spec fn edits<S, W>(h: HandleView<W>, cs: Seq<ChangeView<S>>, h2: HandleView<W>) -> bool {
    exists|hs: Seq<HandleView<W>>, subs: Seq<HandleView<W>>|
        #[trigger] handle_chain(cs, hs, subs) && hs[0] == h && hs.last() == h2
}

/// Builds the live tree of `node`: one widget per element, parent before
/// child, each child attached to its parent as soon as it is built.
pub fn create<S, W: Widget<S>>(stream: &Stream<S>, node: Object<S>) -> (r: Vertex<S, W>)
    ensures
        r@ == node@,
    decreases node,
{
    let ghost nv = node@;
    let Object { kind, attributes, children } = node;
    proof {
        assert(nv.children =~= crate::dom::nodes_view(children@));
    }
    let widget = W::create(kind, stream.clone());
    widget.update(&attributes);
    let ghost all = children@;
    let mut rest = children;
    let mut built: Vec<Vertex<S, W>> = Vec::new();
    while rest.len() > 0
        invariant
            built.len() + rest.len() == all.len(),
            rest@ == all.subrange(built.len() as int, all.len() as int),
            vertices_view(built@) == crate::dom::nodes_view(all.subrange(0, built.len() as int)),
            forall|j: int| 0 <= j < all.len() ==> decreases_to!(node => #[trigger] all[j]),
        decreases rest.len(),
    {
        let ghost i = built.len() as int;
        let c = rest.remove(0);
        assert(c == all[i]);
        let v: Vertex<S, W> = create(stream, c);
        let child_widget = v.widget.load();
        widget.add(&*child_widget);
        let ghost prev = built@;
        built.push(v);
        proof {
            assert(built@ == prev.push(v));
            assert forall|j: int| 0 <= j <= i implies #[trigger] vertices_view(built@)[j]
                == crate::dom::nodes_view(all.subrange(0, i + 1))[j] by {
                if j < i {
                    assert(vertices_view(prev)[j] == crate::dom::nodes_view(all.subrange(0, i))[j]);
                }
            }
            assert(rest@ =~= all.subrange(built.len() as int, all.len() as int));
            assert(vertices_view(built@) =~= crate::dom::nodes_view(
                all.subrange(0, built.len() as int),
            ));
        }
    }
    let r = Vertex { kind, attributes, widget: AtomicBox::new(widget), children: built };
    proof {
        assert(all.subrange(0, all.len() as int) =~= all);
        lemma_vertex_children(r);
        assert(r@.children == nv.children);
    }
    r
}

proof fn lemma_views_insert<S, W>(s: Seq<Vertex<S, W>>, i: int, v: Vertex<S, W>)
    requires
        0 <= i <= s.len(),
    ensures
        vertices_view(s.insert(i, v)) == vertices_view(s).insert(i, v@),
{
    assert(vertices_view(s.insert(i, v)) =~= vertices_view(s).insert(i, v@));
}

proof fn lemma_views_remove<S, W>(s: Seq<Vertex<S, W>>, i: int)
    requires
        0 <= i < s.len(),
    ensures
        vertices_view(s.remove(i)) == vertices_view(s).remove(i),
{
    assert(vertices_view(s.remove(i)) =~= vertices_view(s).remove(i));
}

proof fn lemma_handles_insert<S, W>(s: Seq<Vertex<S, W>>, i: int, v: Vertex<S, W>)
    requires
        0 <= i <= s.len(),
    ensures
        vertices_handles(s.insert(i, v)) == vertices_handles(s).insert(i, v.handles()),
{
    assert(vertices_handles(s.insert(i, v)) =~= vertices_handles(s).insert(i, v.handles()));
}

proof fn lemma_handles_remove<S, W>(s: Seq<Vertex<S, W>>, i: int)
    requires
        0 <= i < s.len(),
    ensures
        vertices_handles(s.remove(i)) == vertices_handles(s).remove(i),
{
    assert(vertices_handles(s.remove(i)) =~= vertices_handles(s).remove(i));
}

/// Applies `op` at the part of `path` from index `at` on, inside `tree`, and
/// gives back the handles of the subtree it built, if any.
fn patch_at<S, W: Widget<S>>(
    stream: &Stream<S>,
    tree: &mut Vertex<S, W>,
    path: &Vec<usize>,
    at: usize,
    op: Operation<S>,
) -> (sub: Ghost<HandleView<W>>)
    requires
        at <= path.len(),
        apply_change(old(tree)@, path_view(path@).subrange(at as int, path.len() as int), op@)
            is Some,
    ensures
        final(tree)@ == apply_change(
            old(tree)@,
            path_view(path@).subrange(at as int, path.len() as int),
            op@,
        )->0,
        final(tree).handles() == edit_handles(
            old(tree).handles(),
            path_view(path@).subrange(at as int, path.len() as int),
            op@,
            sub@,
        ),
    decreases path.len() - at,
{
    let ghost rel = path_view(path@).subrange(at as int, path.len() as int);
    let ghost t0 = tree@;
    let ghost h0 = tree.handles();
    let ghost opv = op@;
    proof {
        lemma_vertex_children(*tree);
        lemma_vertex_handles(*tree);
    }
    if at == path.len() {
        match op {
            Operation::Update(a) => {
                let w = tree.widget.load();
                w.update(&a);
                tree.attributes = a;
                proof {
                    lemma_vertex_children(*tree);
                    lemma_vertex_handles(*tree);
                    assert(tree@ == NodeView { attributes: a@, ..t0 });
                }
                Ghost(h0)
            },
            Operation::Replace(n) => {
                *tree = create(stream, n);
                Ghost(tree.handles())
            },
            _ => {
                proof {
                    assert(false);
                }
                Ghost(h0)
            },
        }
    } else {
        let i = path[at];
        proof {
            assert(rel[0] == i as int);
            assert(rel.drop_first() =~= path_view(path@).subrange(at + 1, path.len() as int));
        }
        let last = at + 1 == path.len();
        match op {
            Operation::Insert(node) if last => {
                let v = create(stream, node);
                let w = tree.widget.load();
                let cw = v.widget.load();
                w.add(&*cw);
                let ghost vv = v@;
                let ghost vh = v.handles();
                let ghost before = tree.children@;
                tree.children.insert(i, v);
                proof {
                    lemma_views_insert(before, i as int, v);
                    lemma_handles_insert(before, i as int, v);
                    lemma_vertex_children(*tree);
                    lemma_vertex_handles(*tree);
                    assert(tree@ == NodeView { children: t0.children.insert(i as int, vv), ..t0 });
                    assert(tree.handles() == HandleView { children: h0.children.insert(i as int, vh), ..h0 });
                }
                Ghost(vh)
            },
            Operation::Remove if last => {
                let ghost before = tree.children@;
                let v = tree.children.remove(i);
                let w = tree.widget.load();
                let cw = v.widget.load();
                w.remove(&*cw);
                proof {
                    lemma_views_remove(before, i as int);
                    lemma_handles_remove(before, i as int);
                    lemma_vertex_children(*tree);
                    lemma_vertex_handles(*tree);
                    assert(tree@ == NodeView { children: t0.children.remove(i as int), ..t0 });
                    assert(tree.handles() == HandleView { children: h0.children.remove(i as int), ..h0 });
                }
                Ghost(h0)
            },
            Operation::Replace(node) if last => {
                let v = create(stream, node);
                let ghost vv = v@;
                let ghost vh = v.handles();
                let ghost before = tree.children@;
                let old_child = tree.children.remove(i);
                let w = tree.widget.load();
                let ow = old_child.widget.load();
                w.remove(&*ow);
                let cw = v.widget.load();
                w.add(&*cw);
                tree.children.insert(i, v);
                proof {
                    lemma_views_remove(before, i as int);
                    lemma_views_insert(before.remove(i as int), i as int, v);
                    lemma_handles_remove(before, i as int);
                    lemma_handles_insert(before.remove(i as int), i as int, v);
                    lemma_vertex_children(*tree);
                    lemma_vertex_handles(*tree);
                    assert(t0.children.remove(i as int).insert(i as int, vv) =~= t0.children.update(i as int, vv));
                    assert(h0.children.remove(i as int).insert(i as int, vh) =~= h0.children.update(i as int, vh));
                    assert(rel.drop_first().len() == 0);
                    assert(opv == crate::diff::OperationView::Replace(vv));
                    assert(apply_change(t0.children[i as int], rel.drop_first(), opv) == Some(vv));
                    assert(edit_handles(h0.children[i as int], rel.drop_first(), opv, vh) == vh);
                }
                Ghost(vh)
            },
            op => {
                proof {
                    assert(op@ == opv);
                }
                let ghost before = tree.children@;
                let mut child = tree.children.remove(i);
                let ghost c0 = child@;
                let ghost ch0 = child.handles();
                assert(c0 == t0.children[i as int]);
                assert(ch0 == h0.children[i as int]);
                let sub = patch_at(stream, &mut child, path, at + 1, op);
                let ghost c1 = child@;
                let ghost ch1 = child.handles();
                tree.children.insert(i, child);
                proof {
                    lemma_views_remove(before, i as int);
                    lemma_views_insert(before.remove(i as int), i as int, child);
                    lemma_handles_remove(before, i as int);
                    lemma_handles_insert(before.remove(i as int), i as int, child);
                    lemma_vertex_children(*tree);
                    lemma_vertex_handles(*tree);
                    assert(t0.children.remove(i as int).insert(i as int, c1) =~= t0.children.update(i as int, c1));
                    assert(h0.children.remove(i as int).insert(i as int, ch1) =~= h0.children.update(i as int, ch1));
                }
                sub
            },
        }
    }
}

/// Applies one change to the live tree: walks the change's path, one child
/// index per level, and updates, inserts, removes or replaces there, telling
/// the native widgets. The change must fit the tree: one that does not means
/// the live tree has lost step with the view it mirrors, which is a fault of
/// the caller. Every vertex that stays keeps its widget handle; only an
/// insertion or a replacement makes new widgets.
pub fn patch<S, W: Widget<S>>(stream: &Stream<S>, tree: &mut Vertex<S, W>, change: Change<S>)
    requires
        apply_change(old(tree)@, change@.path, change@.op) is Some,
    ensures
        final(tree)@ == apply_change(old(tree)@, change@.path, change@.op)->0,
        exists|sub: HandleView<W>|
            final(tree).handles() == edit_handles(
                old(tree).handles(),
                change@.path,
                change@.op,
                sub,
            ),
{
    let Change { path, op } = change;
    proof {
        assert(path_view(path@).subrange(0, path.len() as int) =~= path_view(path@));
    }
    let _built = patch_at(stream, tree, &path, 0, op);
}

} // verus!

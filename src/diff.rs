//! Positional differences between two view trees.
use vstd::prelude::*;

use crate::dom::{
    clone_is_copy, eq_is_equality, Attributes, AttributesView, NodeView, Object,
};

verus! {

/// What a change does at its position, as a mathematical value.
pub ghost enum OperationView<S> {
    Update(AttributesView<S>),
    Insert(NodeView<S>),
    Remove,
    Replace(NodeView<S>),
}

/// A change as a mathematical value: the child indices that lead from the
/// root to the position, and what happens there.
pub ghost struct ChangeView<S> {
    pub path: Seq<int>,
    pub op: OperationView<S>,
}

/// What a change does at its position.
///
/// `Update` gives the element at the path new attributes; `Replace` puts a
/// new subtree in its place. `Insert` and `Remove` act on the parent, the
/// path without its last index: the child at that index is inserted or
/// removed.
#[derive(Debug)]
pub enum Operation<S> {
    Update(Attributes<S>),
    Insert(Object<S>),
    Remove,
    Replace(Object<S>),
}

/// One change of a change set.
#[derive(Debug)]
pub struct Change<S> {
    pub path: Vec<usize>,
    pub op: Operation<S>,
}

impl<S> View for Operation<S> {
    type V = OperationView<S>;

    open spec fn view(&self) -> OperationView<S> {
        match self {
            Operation::Update(a) => OperationView::Update(a@),
            Operation::Insert(n) => OperationView::Insert(n@),
            Operation::Remove => OperationView::Remove,
            Operation::Replace(n) => OperationView::Replace(n@),
        }
    }
}

impl<S> View for Change<S> {
    type V = ChangeView<S>;

    open spec fn view(&self) -> ChangeView<S> {
        ChangeView { path: path_view(self.path@), op: self.op@ }
    }
}

/// A path as a sequence of integers.
pub open spec fn path_view(p: Seq<usize>) -> Seq<int> {
    Seq::new(p.len(), |i: int| p[i] as int)
}

/// The views of a sequence of changes.
pub open spec fn changes_view<S>(cs: Seq<Change<S>>) -> Seq<ChangeView<S>> {
    Seq::new(cs.len(), |i: int| cs[i]@)
}

/// The same changes, each with `p` put in front of its path.
pub open spec fn prefixed<S>(p: Seq<int>, cs: Seq<ChangeView<S>>) -> Seq<ChangeView<S>> {
    Seq::new(cs.len(), |k: int| ChangeView { path: p + cs[k].path, op: cs[k].op })
}

/// The update of the root's attributes, where they differ.
pub open spec fn update_part<S>(old: NodeView<S>, new: NodeView<S>) -> Seq<ChangeView<S>> {
    if old.attributes == new.attributes {
        Seq::empty()
    } else {
        seq![ChangeView { path: Seq::empty(), op: OperationView::Update(new.attributes) }]
    }
}

/// The insertions of the children of `news` from index `from` on, in order.
pub open spec fn inserts<S>(news: Seq<NodeView<S>>, from: int) -> Seq<ChangeView<S>> {
    Seq::new(
        if news.len() > from { (news.len() - from) as nat } else { 0 },
        |k: int| ChangeView { path: seq![from + k], op: OperationView::Insert(news[from + k]) },
    )
}

/// The removals that shorten `old_len` children to `new_len`, left to right:
/// each removes the child at index `new_len`, where the next extra child has
/// moved up.
pub open spec fn removes<S>(old_len: int, new_len: int) -> Seq<ChangeView<S>> {
    Seq::new(
        if old_len > new_len { (old_len - new_len) as nat } else { 0 },
        |k: int| ChangeView { path: seq![new_len], op: OperationView::Remove },
    )
}

/// The changes that turn `old` into `new`, with paths relative to the root:
/// a replacement where the kinds differ; else the update of the root, the
/// changes of the children that both have, index by index, the insertions of
/// the new trailing children and the removals of the old ones.
pub open spec fn diff_view<S>(old: NodeView<S>, new: NodeView<S>) -> Seq<ChangeView<S>>
    decreases old,
{
    if old.kind != new.kind {
        seq![ChangeView { path: Seq::empty(), op: OperationView::Replace(new) }]
    } else {
        let m = if old.children.len() < new.children.len() {
            old.children.len() as int
        } else {
            new.children.len() as int
        };
        update_part(old, new) + pairs_view(old.children, new.children, m) + inserts(
            new.children,
            old.children.len() as int,
        ) + removes(old.children.len() as int, new.children.len() as int)
    }
}

/// The changes of the first `k` pairs of children, each under its index.
pub open spec fn pairs_view<S>(
    olds: Seq<NodeView<S>>,
    news: Seq<NodeView<S>>,
    k: int,
) -> Seq<ChangeView<S>>
    decreases olds, k,
{
    if k <= 0 || k > olds.len() || k > news.len() {
        Seq::empty()
    } else {
        pairs_view(olds, news, k - 1) + prefixed(
            seq![k - 1],
            diff_view(olds[k - 1], news[k - 1]),
        )
    }
}

/// The tree that `op` at `path` makes of `t`, or `None` where the path
/// does not lead to an element of `t` (or, for `Insert` and `Remove`, to a
/// child position of its parent).
pub open spec fn apply_change<S>(t: NodeView<S>, path: Seq<int>, op: OperationView<S>) -> Option<
    NodeView<S>,
>
    decreases path.len(),
{
    if path.len() == 0 {
        match op {
            OperationView::Update(a) => Some(NodeView { attributes: a, ..t }),
            OperationView::Replace(n) => Some(n),
            _ => None,
        }
    } else {
        let i = path[0];
        match op {
            OperationView::Insert(n) if path.len() == 1 => {
                if i <= t.children.len() {
                    Some(NodeView { children: t.children.insert(i, n), ..t })
                } else {
                    None
                }
            },
            OperationView::Remove if path.len() == 1 => {
                if i < t.children.len() {
                    Some(NodeView { children: t.children.remove(i), ..t })
                } else {
                    None
                }
            },
            _ => {
                if i < t.children.len() {
                    match apply_change(t.children[i], path.drop_first(), op) {
                        Some(c) => Some(NodeView { children: t.children.update(i, c), ..t }),
                        None => None,
                    }
                } else {
                    None
                }
            },
        }
    }
}

/// The tree that the changes `cs`, applied in order, make of `t`, or `None`
/// where one of them does not apply.
pub open spec fn apply_all<S>(t: NodeView<S>, cs: Seq<ChangeView<S>>) -> Option<NodeView<S>>
    decreases cs.len(),
{
    if cs.len() == 0 {
        Some(t)
    } else {
        match apply_change(t, cs[0].path, cs[0].op) {
            Some(u) => apply_all(u, cs.drop_first()),
            None => None,
        }
    }
}

/// A copy of `path`, with `last` after it where there is one.
fn path_to(path: &Vec<usize>, last: Option<usize>) -> (r: Vec<usize>)
    ensures
        r@ == (match last {
            Some(i) => path@.push(i),
            None => path@,
        }),
{
    let mut r: Vec<usize> = Vec::new();
    let mut i: usize = 0;
    while i < path.len()
        invariant
            i <= path.len(),
            r@ == path@.subrange(0, i as int),
        decreases path.len() - i,
    {
        r.push(path[i]);
        i = i + 1;
    }
    assert(r@ =~= path@);
    match last {
        Some(j) => r.push(j),
        None => {},
    }
    r
}

proof fn lemma_prefixed_push<S>(p: Seq<int>, i: int, cs: Seq<ChangeView<S>>)
    ensures
        prefixed(p.push(i), cs) == prefixed(p, prefixed(seq![i], cs)),
{
    assert forall|k: int| 0 <= k < cs.len() implies #[trigger] prefixed(p.push(i), cs)[k]
        == prefixed(p, prefixed(seq![i], cs))[k] by {
        assert(p.push(i) + cs[k].path =~= p + (seq![i] + cs[k].path));
    }
    assert(prefixed(p.push(i), cs) =~= prefixed(p, prefixed(seq![i], cs)));
}

proof fn lemma_prefixed_add<S>(p: Seq<int>, a: Seq<ChangeView<S>>, b: Seq<ChangeView<S>>)
    ensures
        prefixed(p, a + b) == prefixed(p, a) + prefixed(p, b),
{
    assert(prefixed(p, a + b) =~= prefixed(p, a) + prefixed(p, b));
}

/// Appends to `out` the changes that turn `before` into `after`, each path with
/// `path` in front of it.
fn diff_into<S: PartialEq + Clone>(
    before: &Object<S>,
    after: &Object<S>,
    path: &mut Vec<usize>,
    out: &mut Vec<Change<S>>,
)
    requires
        eq_is_equality::<S>(),
        clone_is_copy::<S>(),
    ensures
        final(path)@ == old(path)@,
        changes_view(final(out)@) == changes_view(old(out)@) + prefixed(
            path_view(old(path)@),
            diff_view(before@, after@),
        ),
    decreases before,
{
    let ghost pu = path@;
    let ghost p = path_view(pu);
    let ghost base = changes_view(out@);
    let ghost ov = before@;
    let ghost nv = after@;
    if before.kind != after.kind {
        out.push(Change { path: path_to(path, None), op: Operation::Replace(after.copy()) });
        assert(changes_view(out@) =~= base + prefixed(p, diff_view(ov, nv)));
        return ;
    }
    if !before.attributes.same(&after.attributes) {
        out.push(Change { path: path_to(path, None), op: Operation::Update(after.attributes.copy()) });
    }
    assert(changes_view(out@) =~= base + prefixed(p, update_part(ov, nv)));
    let n_old = before.children.len();
    let n_new = after.children.len();
    let m = if n_old < n_new { n_old } else { n_new };
    let mut i: usize = 0;
    while i < m
        invariant
            eq_is_equality::<S>(),
            clone_is_copy::<S>(),
            ov == before@,
            nv == after@,
            n_old == before.children.len(),
            n_new == after.children.len(),
            m <= n_old,
            m <= n_new,
            i <= m,
            path@ == pu,
            p == path_view(pu),
            changes_view(out@) == base + prefixed(
                p,
                update_part(ov, nv) + pairs_view(ov.children, nv.children, i as int),
            ),
        decreases m - i,
    {
        proof {
            assert(decreases_to!(before => before.children));
            assert(decreases_to!(before.children => before.children[i as int]));
        }
        path.push(i);
        diff_into(&before.children[i], &after.children[i], path, out);
        path.pop();
        proof {
            let d = diff_view(before.children@[i as int]@, after.children@[i as int]@);
            assert(ov.children[i as int] == before.children@[i as int]@);
            assert(nv.children[i as int] == after.children@[i as int]@);
            lemma_prefixed_push(p, i as int, d);
            assert(path_view(pu.push(i)) =~= p.push(i as int));
            lemma_prefixed_add(p, update_part(ov, nv), pairs_view(ov.children, nv.children, i as int));
            lemma_prefixed_add(
                p,
                update_part(ov, nv) + pairs_view(ov.children, nv.children, i as int),
                prefixed(seq![i as int], d),
            );
            assert(pairs_view(ov.children, nv.children, i + 1) == pairs_view(
                ov.children,
                nv.children,
                i as int,
            ) + prefixed(seq![i as int], d));
            assert(path@ =~= pu);
            assert(update_part(ov, nv) + pairs_view(ov.children, nv.children, i + 1) =~= (
            update_part(ov, nv) + pairs_view(ov.children, nv.children, i as int)) + prefixed(
                seq![i as int],
                d,
            ));
        }
        i = i + 1;
    }
    let ghost head = update_part(ov, nv) + pairs_view(ov.children, nv.children, m as int);
    let mut j: usize = n_old;
    while j < n_new
        invariant
            clone_is_copy::<S>(),
            nv == after@,
            n_old == before.children.len(),
            n_new == after.children.len(),
            n_old <= j <= n_new || (n_new < n_old && j == n_old),
            path@ == pu,
            p == path_view(pu),
            changes_view(out@) == base + prefixed(p, head) + prefixed(
                p,
                inserts(nv.children, n_old as int).subrange(0, j - n_old),
            ),
        decreases n_new - j,
    {
        let q = path_to(path, Some(j));
        let ghost prev = changes_view(out@);
        out.push(Change { path: q, op: Operation::Insert(after.children[j].copy()) });
        proof {
            let ins = inserts(nv.children, n_old as int);
            assert(changes_view(out@) =~= prev.push(out@.last()@));
            assert(nv.children[j as int] == after.children@[j as int]@);
            assert(path_view(q@) =~= p + ins[j - n_old].path);
            assert(ins.subrange(0, j + 1 - n_old) =~= ins.subrange(0, j - n_old).push(
                ins[j - n_old],
            ));
            assert(prefixed(p, ins.subrange(0, j + 1 - n_old)) =~= prefixed(
                p,
                ins.subrange(0, j - n_old),
            ).push(out@.last()@));
        }
        j = j + 1;
    }
    proof {
        let ins = inserts(nv.children, n_old as int);
        assert(ins.subrange(0, ins.len() as int) =~= ins);
    }
    let ghost mid = changes_view(out@);
    let mut k: usize = n_old;
    while k > n_new
        invariant
            n_old == before.children.len(),
            n_new == after.children.len(),
            n_new <= k <= n_old || (n_old < n_new && k == n_old),
            path@ == pu,
            p == path_view(pu),
            changes_view(out@) == mid + prefixed(
                p,
                removes::<S>(n_old as int, n_new as int).subrange(0, n_old - k),
            ),
        decreases k,
    {
        k = k - 1;
        let q = path_to(path, Some(n_new));
        let ghost prev = changes_view(out@);
        out.push(Change { path: q, op: Operation::Remove });
        proof {
            let rem = removes::<S>(n_old as int, n_new as int);
            assert(changes_view(out@) =~= prev.push(out@.last()@));
            assert(path_view(q@) =~= p + rem[n_old - k - 1].path);
            assert(rem.subrange(0, n_old - k) =~= rem.subrange(0, n_old - k - 1).push(
                rem[n_old - k - 1],
            ));
            assert(prefixed(p, rem.subrange(0, n_old - k)) =~= prefixed(
                p,
                rem.subrange(0, n_old - k - 1),
            ).push(out@.last()@));
        }
    }
    proof {
        let rem = removes::<S>(n_old as int, n_new as int);
        let ins = inserts(nv.children, n_old as int);
        assert(rem.subrange(0, rem.len() as int) =~= rem);
        lemma_prefixed_add(p, head, ins);
        lemma_prefixed_add(p, head + ins, rem);
        assert(diff_view(ov, nv) == head + ins + rem);
        assert(changes_view(out@) =~= base + prefixed(p, diff_view(ov, nv)));
    }
}

/// The changes that turn `old` into `new`, in pre-order: a parent's changes
/// come before those of its children, and siblings from left to right.
pub fn diff<S: PartialEq + Clone>(old: &Object<S>, new: &Object<S>) -> (r: Vec<Change<S>>)
    requires
        eq_is_equality::<S>(),
        clone_is_copy::<S>(),
    ensures
        changes_view(r@) == diff_view(old@, new@),
{
    let mut path: Vec<usize> = Vec::new();
    let mut out: Vec<Change<S>> = Vec::new();
    diff_into(old, new, &mut path, &mut out);
    proof {
        let d = diff_view(old@, new@);
        assert(path_view(path@) =~= Seq::<int>::empty());
        assert(prefixed(Seq::<int>::empty(), d) =~= d) by {
            assert forall|k: int| 0 <= k < d.len() implies Seq::<int>::empty() + d[k].path
                == d[k].path by {
                assert(Seq::<int>::empty() + d[k].path =~= d[k].path);
            }
        }
        assert(changes_view(Seq::<Change<S>>::empty()) =~= Seq::<ChangeView<S>>::empty());
        assert(Seq::<ChangeView<S>>::empty() + d =~= d);
    }
    out
}

} // verus!

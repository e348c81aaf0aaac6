//! Laws of the diff and of the changes it produces.
use vstd::prelude::*;

use crate::diff::{
    apply_all, apply_change, diff_view, inserts, pairs_view, prefixed, removes, update_part,
    ChangeView, OperationView,
};
use crate::dom::{AttributesView, NodeView};

verus! {

/// A change set in which no insertion or removal is addressed to the root.
pub open spec fn well_placed<S>(cs: Seq<ChangeView<S>>) -> bool {
    forall|k: int|
        0 <= k < cs.len() ==> !(#[trigger] cs[k].path.len() == 0 && (cs[k].op is Insert
            || cs[k].op is Remove))
}

proof fn lemma_apply_all_add<S>(t: NodeView<S>, a: Seq<ChangeView<S>>, b: Seq<ChangeView<S>>)
    ensures
        apply_all(t, a + b) == (match apply_all(t, a) {
            Some(u) => apply_all(u, b),
            None => None,
        }),
    decreases a.len(),
{
    if a.len() == 0 {
        assert(a + b =~= b);
    } else {
        assert((a + b).drop_first() =~= a.drop_first() + b);
        match apply_change(t, a[0].path, a[0].op) {
            Some(u) => lemma_apply_all_add(u, a.drop_first(), b),
            None => {},
        }
    }
}

proof fn lemma_apply_all_prefixed<S>(t: NodeView<S>, i: int, cs: Seq<ChangeView<S>>)
    requires
        0 <= i < t.children.len(),
        well_placed(cs),
    ensures
        apply_all(t, prefixed(seq![i], cs)) == (match apply_all(t.children[i], cs) {
            Some(c) => Some(NodeView { children: t.children.update(i, c), ..t }),
            None => None,
        }),
    decreases cs.len(),
{
    let pc = prefixed(seq![i], cs);
    if cs.len() == 0 {
        assert(t.children.update(i, t.children[i]) =~= t.children);
    } else {
        let path = pc[0].path;
        assert(path.drop_first() =~= cs[0].path);
        assert(path[0] == i);
        assert(!(cs[0].path.len() == 0 && (cs[0].op is Insert || cs[0].op is Remove)));
        assert(pc.drop_first() =~= prefixed(seq![i], cs.drop_first()));
        match apply_change(t.children[i], cs[0].path, cs[0].op) {
            Some(c) => {
                let u = NodeView { children: t.children.update(i, c), ..t };
                assert(apply_change(t, path, cs[0].op) == Some(u));
                assert forall|k: int| 0 <= k < cs.drop_first().len() implies !(
                #[trigger] cs.drop_first()[k].path.len() == 0 && (cs.drop_first()[k].op is Insert
                    || cs.drop_first()[k].op is Remove)) by {
                    assert(cs.drop_first()[k] == cs[k + 1]);
                }
                lemma_apply_all_prefixed(u, i, cs.drop_first());
                assert(u.children[i] == c);
                assert(u.children.update(i, u.children[i]) =~= u.children);
                match apply_all(c, cs.drop_first()) {
                    Some(d) => {
                        assert(u.children.update(i, d) =~= t.children.update(i, d));
                    },
                    None => {},
                }
            },
            None => {
                assert(apply_change(t, path, cs[0].op) is None);
            },
        }
    }
}

proof fn lemma_prefixed_well_placed<S>(i: int, cs: Seq<ChangeView<S>>)
    ensures
        well_placed(prefixed(seq![i], cs)),
{
    assert forall|k: int| 0 <= k < cs.len() implies (#[trigger] prefixed(seq![i], cs)[k]).path.len()
        > 0 by {}
}

proof fn lemma_inserts_apply<S>(t: NodeView<S>, news: Seq<NodeView<S>>, from: int)
    requires
        0 <= from <= news.len(),
        t.children == news.subrange(0, from),
    ensures
        apply_all(t, inserts(news, from)) == Some(NodeView { children: news, ..t }),
    decreases news.len() - from,
{
    let ins = inserts(news, from);
    if from == news.len() {
        assert(ins.len() == 0);
        assert(news.subrange(0, from) =~= news);
    } else {
        let u = NodeView { children: t.children.insert(from, news[from]), ..t };
        assert(ins[0].path == seq![from]);
        assert(apply_change(t, ins[0].path, ins[0].op) == Some(u));
        assert(u.children =~= news.subrange(0, from + 1));
        assert(ins.drop_first() =~= inserts(news, from + 1));
        lemma_inserts_apply(u, news, from + 1);
    }
}

proof fn lemma_removes_apply<S>(t: NodeView<S>, n: int, keep: int)
    requires
        0 <= keep <= n,
        t.children.len() == n,
    ensures
        apply_all(t, removes::<S>(n, keep)) == Some(
            NodeView { children: t.children.subrange(0, keep), ..t },
        ),
    decreases n - keep,
{
    let rem = removes::<S>(n, keep);
    if n == keep {
        assert(rem.len() == 0);
        assert(t.children.subrange(0, keep) =~= t.children);
    } else {
        let u = NodeView { children: t.children.remove(keep), ..t };
        assert(rem[0].path == seq![keep]);
        assert(apply_change(t, rem[0].path, rem[0].op) == Some(u));
        assert(rem.drop_first() =~= removes::<S>(n - 1, keep));
        lemma_removes_apply(u, n - 1, keep);
        assert(u.children.subrange(0, keep) =~= t.children.subrange(0, keep));
    }
}

proof fn lemma_pairs_apply<S>(
    t: NodeView<S>,
    olds: Seq<NodeView<S>>,
    news: Seq<NodeView<S>>,
    k: int,
)
    requires
        t.children == olds,
        0 <= k <= olds.len(),
        k <= news.len(),
    ensures
        apply_all(t, pairs_view(olds, news, k)) == Some(
            NodeView { children: news.subrange(0, k) + olds.subrange(k, olds.len() as int), ..t },
        ),
    decreases olds, k,
{
    if k == 0 {
        assert(news.subrange(0, 0) + olds.subrange(0, olds.len() as int) =~= olds);
    } else {
        let prev = pairs_view(olds, news, k - 1);
        let d = diff_view(olds[k - 1], news[k - 1]);
        lemma_pairs_apply(t, olds, news, k - 1);
        lemma_apply_all_add(t, prev, prefixed(seq![k - 1], d));
        let u = NodeView {
            children: news.subrange(0, k - 1) + olds.subrange(k - 1, olds.len() as int),
            ..t
        };
        lemma_diff_applies(olds[k - 1], news[k - 1]);
        lemma_diff_well_placed(olds[k - 1], news[k - 1]);
        assert(u.children[k - 1] == olds[k - 1]);
        lemma_apply_all_prefixed(u, k - 1, d);
        assert(u.children.update(k - 1, news[k - 1]) =~= news.subrange(0, k) + olds.subrange(
            k,
            olds.len() as int,
        ));
    }
}

proof fn lemma_diff_well_placed<S>(old: NodeView<S>, new: NodeView<S>)
    ensures
        well_placed(diff_view(old, new)),
{
    if old.kind == new.kind {
        let m = if old.children.len() < new.children.len() {
            old.children.len() as int
        } else {
            new.children.len() as int
        };
        lemma_pairs_well_placed(old.children, new.children, m);
        let d = diff_view(old, new);
        let u = update_part(old, new);
        let p = pairs_view(old.children, new.children, m);
        let ins = inserts(new.children, old.children.len() as int);
        let rem = removes::<S>(old.children.len() as int, new.children.len() as int);
        assert(d == u + p + ins + rem);
        assert forall|k: int| 0 <= k < d.len() implies !(#[trigger] d[k].path.len() == 0 && (
        d[k].op is Insert || d[k].op is Remove)) by {
            if k < u.len() {
            } else if k < u.len() + p.len() {
                assert(d[k] == p[k - u.len()]);
            } else if k < u.len() + p.len() + ins.len() {
                assert(d[k] == ins[k - u.len() - p.len()]);
            } else {
                assert(d[k] == rem[k - u.len() - p.len() - ins.len()]);
            }
        }
    }
}

proof fn lemma_pairs_well_placed<S>(olds: Seq<NodeView<S>>, news: Seq<NodeView<S>>, k: int)
    ensures
        well_placed(pairs_view(olds, news, k)),
    decreases k,
{
    if !(k <= 0 || k > olds.len() || k > news.len()) {
        lemma_pairs_well_placed(olds, news, k - 1);
        let a = pairs_view(olds, news, k - 1);
        let b = prefixed(seq![k - 1], diff_view(olds[k - 1], news[k - 1]));
        lemma_prefixed_well_placed(k - 1, diff_view(olds[k - 1], news[k - 1]));
        assert forall|j: int| 0 <= j < (a + b).len() implies !(#[trigger] (a + b)[j].path.len()
            == 0 && ((a + b)[j].op is Insert || (a + b)[j].op is Remove)) by {
            if j < a.len() {
                assert((a + b)[j] == a[j]);
            } else {
                assert((a + b)[j] == b[j - a.len()]);
            }
        }
    }
}

/// Applying the changes of `diff_view(old, new)` to `old`, in order, succeeds
/// at every step and yields `new`.
pub proof fn lemma_diff_applies<S>(old: NodeView<S>, new: NodeView<S>)
    ensures
        apply_all(old, diff_view(old, new)) == Some(new),
    decreases old,
{
    let d = diff_view(old, new);
    if old.kind != new.kind {
        assert(d.drop_first() =~= Seq::<ChangeView<S>>::empty());
        assert(apply_change(old, d[0].path, d[0].op) == Some(new));
        assert(apply_all(new, d.drop_first()) == Some(new));
    } else {
        let on = old.children.len() as int;
        let nn = new.children.len() as int;
        let m = if on < nn { on } else { nn };
        let u = update_part(old, new);
        let p = pairs_view(old.children, new.children, m);
        let ins = inserts(new.children, on);
        let rem = removes::<S>(on, nn);
        let t1 = NodeView { attributes: new.attributes, ..old };
        assert(apply_all(old, u) == Some(t1)) by {
            if old.attributes != new.attributes {
                assert(u.drop_first() =~= Seq::<ChangeView<S>>::empty());
                assert(apply_change(old, u[0].path, u[0].op) == Some(t1));
                assert(apply_all(t1, u.drop_first()) == Some(t1));
            } else {
                assert(u.len() == 0);
                assert(t1 == old);
            }
        }
        lemma_pairs_apply(t1, old.children, new.children, m);
        let t2 = NodeView {
            children: new.children.subrange(0, m) + old.children.subrange(m, on),
            ..t1
        };
        assert(d == u + p + ins + rem);
        lemma_apply_all_add(old, u, p);
        lemma_apply_all_add(old, u + p, ins);
        lemma_apply_all_add(old, u + p + ins, rem);
        assert(apply_all(old, u + p) == Some(t2));
        if on <= nn {
            assert(old.children.subrange(m, on) =~= Seq::<NodeView<S>>::empty());
            assert(t2.children =~= new.children.subrange(0, on));
            lemma_inserts_apply(t2, new.children, on);
            let t3 = NodeView { children: new.children, ..t2 };
            assert(t3 == new);
            assert(apply_all(old, u + p + ins) == Some(new));
            assert(rem =~= Seq::<ChangeView<S>>::empty());
            assert(apply_all(new, rem) == Some(new));
        } else {
            assert(ins =~= Seq::<ChangeView<S>>::empty());
            assert(apply_all(t2, ins) == Some(t2));
            assert(apply_all(old, u + p + ins) == Some(t2));
            lemma_removes_apply(t2, on, nn);
            assert(t2.children.subrange(0, nn) =~= new.children);
            let t3 = NodeView { children: t2.children.subrange(0, nn), ..t2 };
            assert(t3 == new);
        }
    }
}

/// Diffing a tree against itself yields no change.
pub proof fn lemma_diff_same<S>(t: NodeView<S>)
    ensures
        diff_view(t, t) == Seq::<ChangeView<S>>::empty(),
    decreases t,
{
    lemma_pairs_same(t.children, t.children.len() as int);
    assert(inserts(t.children, t.children.len() as int) =~= Seq::<ChangeView<S>>::empty());
    assert(removes::<S>(t.children.len() as int, t.children.len() as int) =~= Seq::<
        ChangeView<S>,
    >::empty());
    assert(diff_view(t, t) =~= Seq::<ChangeView<S>>::empty());
}

proof fn lemma_pairs_same<S>(ts: Seq<NodeView<S>>, k: int)
    ensures
        pairs_view(ts, ts, k) == Seq::<ChangeView<S>>::empty(),
    decreases ts, k,
{
    if !(k <= 0 || k > ts.len()) {
        lemma_pairs_same(ts, k - 1);
        lemma_diff_same(ts[k - 1]);
        assert(prefixed(seq![k - 1], Seq::<ChangeView<S>>::empty()) =~= Seq::<
            ChangeView<S>,
        >::empty());
        assert(pairs_view(ts, ts, k) =~= Seq::<ChangeView<S>>::empty());
    }
}

proof fn lemma_pairs_agree<S>(
    olds: Seq<NodeView<S>>,
    news: Seq<NodeView<S>>,
    olds2: Seq<NodeView<S>>,
    news2: Seq<NodeView<S>>,
    k: int,
)
    requires
        0 <= k <= olds.len(),
        k <= news.len(),
        k <= olds2.len(),
        k <= news2.len(),
        forall|j: int| 0 <= j < k ==> olds[j] == olds2[j] && news[j] == news2[j],
    ensures
        pairs_view(olds, news, k) == pairs_view(olds2, news2, k),
    decreases k,
{
    if k > 0 {
        lemma_pairs_agree(olds, news, olds2, news2, k - 1);
    }
}

/// The element at `path` in `t`, where there is one.
pub open spec fn node_at<S>(t: NodeView<S>, path: Seq<int>) -> Option<NodeView<S>>
    decreases path.len(),
{
    if path.len() == 0 {
        Some(t)
    } else if 0 <= path[0] < t.children.len() {
        node_at(t.children[path[0]], path.drop_first())
    } else {
        None
    }
}

proof fn lemma_pairs_one_differs<S>(
    olds: Seq<NodeView<S>>,
    news: Seq<NodeView<S>>,
    i: int,
    k: int,
)
    requires
        olds.len() == news.len(),
        0 <= i < olds.len(),
        0 <= k <= olds.len(),
        forall|j: int| 0 <= j < olds.len() && j != i ==> olds[j] == news[j],
    ensures
        pairs_view(olds, news, k) == if k > i {
            prefixed(seq![i], diff_view(olds[i], news[i]))
        } else {
            Seq::empty()
        },
    decreases k,
{
    if k > 0 {
        lemma_pairs_one_differs(olds, news, i, k - 1);
        let d = diff_view(olds[k - 1], news[k - 1]);
        if k - 1 != i {
            lemma_diff_same(olds[k - 1]);
            assert(prefixed(seq![k - 1], d) =~= Seq::<ChangeView<S>>::empty());
        }
        assert(pairs_view(olds, news, k) =~= if k > i {
            prefixed(seq![i], diff_view(olds[i], news[i]))
        } else {
            Seq::empty()
        });
    }
}

/// Two trees of the same shape that differ only in the attributes of the
/// element at `path`: their diff is exactly one update, at that path.
pub proof fn lemma_diff_one_update<S>(t: NodeView<S>, path: Seq<int>, a: AttributesView<S>)
    requires
        node_at(t, path) is Some,
        node_at(t, path)->0.attributes != a,
    ensures
        apply_change(t, path, OperationView::Update(a)) is Some,
        diff_view(t, apply_change(t, path, OperationView::Update(a))->0) == seq![
            ChangeView { path, op: OperationView::Update(a) },
        ],
    decreases path.len(),
{
    let op = OperationView::Update(a);
    let n = t.children.len() as int;
    if path.len() == 0 {
        let b = NodeView { attributes: a, ..t };
        assert(path =~= Seq::<int>::empty());
        lemma_pairs_agree(t.children, b.children, t.children, t.children, n);
        lemma_pairs_same(t.children, n);
        assert(inserts(b.children, n) =~= Seq::<ChangeView<S>>::empty());
        assert(removes::<S>(n, n) =~= Seq::<ChangeView<S>>::empty());
        assert(diff_view(t, b) =~= seq![ChangeView { path, op }]);
    } else {
        let i = path[0];
        let q = path.drop_first();
        lemma_diff_one_update(t.children[i], q, a);
        let c = apply_change(t.children[i], q, op)->0;
        let b = NodeView { children: t.children.update(i, c), ..t };
        assert(apply_change(t, path, op) == Some(b));
        lemma_pairs_one_differs(t.children, b.children, i, n);
        assert(prefixed(seq![i], seq![ChangeView { path: q, op }]) =~= seq![
            ChangeView { path, op },
        ]) by {
            assert(seq![i] + q =~= path);
        }
        assert(inserts(b.children, n) =~= Seq::<ChangeView<S>>::empty());
        assert(removes::<S>(n, n) =~= Seq::<ChangeView<S>>::empty());
        assert(b.children[i] == c);
        assert(update_part(t, b) =~= Seq::<ChangeView<S>>::empty());
        assert(pairs_view(t.children, b.children, n) == seq![ChangeView { path, op }]);
        assert(diff_view(t, b) == update_part(t, b) + pairs_view(t.children, b.children, n)
            + inserts(b.children, n) + removes::<S>(n, n));
        assert(diff_view(t, b) =~= seq![ChangeView { path, op }]);
    }
}

/// A tree that gains trailing children: its diff inserts each of them, in
/// order, at its index under the root.
pub proof fn lemma_diff_appended<S>(t: NodeView<S>, extra: Seq<NodeView<S>>)
    ensures
        diff_view(t, NodeView { children: t.children + extra, ..t }) == Seq::new(
            extra.len(),
            |k: int|
                ChangeView {
                    path: seq![t.children.len() + k],
                    op: OperationView::Insert(extra[k]),
                },
        ),
{
    let n = t.children.len() as int;
    let b = NodeView { children: t.children + extra, ..t };
    lemma_pairs_agree(t.children, b.children, t.children, t.children, n);
    lemma_pairs_same(t.children, n);
    assert(removes::<S>(n, n + extra.len()) =~= Seq::<ChangeView<S>>::empty());
    assert(diff_view(t, b) =~= Seq::new(
        extra.len(),
        |k: int|
            ChangeView { path: seq![n + k], op: OperationView::Insert(extra[k]) },
    ));
}

/// A tree that loses its last children: its diff removes each of them, left
/// to right, each at the index of the first one.
pub proof fn lemma_diff_truncated<S>(t: NodeView<S>, keep: int)
    requires
        0 <= keep <= t.children.len(),
    ensures
        diff_view(t, NodeView { children: t.children.subrange(0, keep), ..t }) == Seq::new(
            (t.children.len() - keep) as nat,
            |k: int| ChangeView { path: seq![keep], op: OperationView::<S>::Remove },
        ),
{
    let n = t.children.len() as int;
    let b = NodeView { children: t.children.subrange(0, keep), ..t };
    lemma_pairs_agree(t.children, b.children, t.children, t.children, keep);
    lemma_pairs_same(t.children, keep);
    assert(inserts(b.children, n) =~= Seq::<ChangeView<S>>::empty());
    assert(diff_view(t, b) =~= Seq::new(
        (n - keep) as nat,
        |k: int| ChangeView { path: seq![keep], op: OperationView::<S>::Remove },
    ));
}

proof fn lemma_prefixed_prefixed<S>(p: Seq<int>, q: Seq<int>, cs: Seq<ChangeView<S>>)
    ensures
        prefixed(p, prefixed(q, cs)) == prefixed(p + q, cs),
{
    assert forall|k: int| 0 <= k < cs.len() implies #[trigger] prefixed(p, prefixed(q, cs))[k]
        == prefixed(p + q, cs)[k] by {
        assert(p + (q + cs[k].path) =~= (p + q) + cs[k].path);
    }
    assert(prefixed(p, prefixed(q, cs)) =~= prefixed(p + q, cs));
}

/// Where two trees differ only inside the subtree at `path` (the new tree has
/// `s` there), their diff is the diff of the two subtrees, each path with
/// `path` in front of it.
pub proof fn lemma_diff_local<S>(t: NodeView<S>, path: Seq<int>, s: NodeView<S>)
    requires
        node_at(t, path) is Some,
    ensures
        apply_change(t, path, OperationView::Replace(s)) is Some,
        diff_view(t, apply_change(t, path, OperationView::Replace(s))->0) == prefixed(
            path,
            diff_view(node_at(t, path)->0, s),
        ),
    decreases path.len(),
{
    let op = OperationView::Replace(s);
    let n = t.children.len() as int;
    if path.len() == 0 {
        let d = diff_view(t, s);
        assert(path =~= Seq::<int>::empty());
        assert forall|k: int| 0 <= k < d.len() implies #[trigger] prefixed(path, d)[k] == d[k] by {
            assert(path + d[k].path =~= d[k].path);
        }
        assert(prefixed(path, d) =~= d);
    } else {
        let i = path[0];
        let q = path.drop_first();
        lemma_diff_local(t.children[i], q, s);
        let c = apply_change(t.children[i], q, op)->0;
        let b = NodeView { children: t.children.update(i, c), ..t };
        assert(apply_change(t, path, op) == Some(b));
        lemma_pairs_one_differs(t.children, b.children, i, n);
        lemma_prefixed_prefixed(seq![i], q, diff_view(node_at(t, path)->0, s));
        assert(seq![i] + q =~= path);
        assert(inserts(b.children, n) =~= Seq::<ChangeView<S>>::empty());
        assert(removes::<S>(n, n) =~= Seq::<ChangeView<S>>::empty());
        assert(b.children[i] == c);
        assert(update_part(t, b) =~= Seq::<ChangeView<S>>::empty());
        assert(diff_view(t, b) == update_part(t, b) + pairs_view(t.children, b.children, n)
            + inserts(b.children, n) + removes::<S>(n, n));
        assert(diff_view(t, b) =~= prefixed(path, diff_view(node_at(t, path)->0, s)));
    }
}

/// The element at `path` gains trailing children: the diff inserts each of
/// them, in order, at the parent's path extended by its index.
pub proof fn lemma_diff_appended_at<S>(t: NodeView<S>, path: Seq<int>, extra: Seq<NodeView<S>>)
    requires
        node_at(t, path) is Some,
    ensures
        ({
            let e = node_at(t, path)->0;
            let b = apply_change(
                t,
                path,
                OperationView::Replace(NodeView { children: e.children + extra, ..e }),
            )->0;
            diff_view(t, b) == Seq::new(
                extra.len(),
                |k: int|
                    ChangeView {
                        path: path.push(e.children.len() + k),
                        op: OperationView::Insert(extra[k]),
                    },
            )
        }),
{
    let e = node_at(t, path)->0;
    let s = NodeView { children: e.children + extra, ..e };
    lemma_diff_local(t, path, s);
    lemma_diff_appended(e, extra);
    let d = diff_view(e, s);
    let want = Seq::new(
        extra.len(),
        |k: int|
            ChangeView {
                path: path.push(e.children.len() + k),
                op: OperationView::Insert(extra[k]),
            },
    );
    assert forall|k: int| 0 <= k < extra.len() implies #[trigger] prefixed(path, d)[k]
        == want[k] by {
        assert(path + seq![e.children.len() + k] =~= path.push(e.children.len() + k));
    }
    assert(prefixed(path, d) =~= want);
}

/// The element at `path` loses its last children, down to `keep`: the diff
/// removes each of them, left to right, each at the parent's path extended by
/// `keep`.
pub proof fn lemma_diff_truncated_at<S>(t: NodeView<S>, path: Seq<int>, keep: int)
    requires
        node_at(t, path) is Some,
        0 <= keep <= node_at(t, path)->0.children.len(),
    ensures
        ({
            let e = node_at(t, path)->0;
            let b = apply_change(
                t,
                path,
                OperationView::Replace(NodeView { children: e.children.subrange(0, keep), ..e }),
            )->0;
            diff_view(t, b) == Seq::new(
                (e.children.len() - keep) as nat,
                |k: int| ChangeView { path: path.push(keep), op: OperationView::<S>::Remove },
            )
        }),
{
    let e = node_at(t, path)->0;
    let s = NodeView { children: e.children.subrange(0, keep), ..e };
    lemma_diff_local(t, path, s);
    lemma_diff_truncated(e, keep);
    let d = diff_view(e, s);
    let want = Seq::new(
        (e.children.len() - keep) as nat,
        |k: int| ChangeView { path: path.push(keep), op: OperationView::<S>::Remove },
    );
    assert forall|k: int| 0 <= k < want.len() implies #[trigger] prefixed(path, d)[k]
        == want[k] by {
        assert(path + seq![keep] =~= path.push(keep));
    }
    assert(prefixed(path, d) =~= want);
}

} // verus!

//! Looking nodes up by their path of names below a tree's root.
use vstd::prelude::*;
use crate::tree::{NodeView, sorted, lemma_sorted_unique, insert_sorted, inserted, lemma_insert_sorted_wf};
use crate::names::{precedes, lemma_precedes_irreflexive, lemma_precedes_asymmetric};

verus! {

/// The child of `cs` named `x`, if there is one.
pub open spec fn child_at(cs: Seq<NodeView>, x: Seq<char>) -> Option<NodeView> {
    if exists|k: int| 0 <= k < cs.len() && (#[trigger] cs[k]).name() == x {
        Some(cs[choose|k: int| 0 <= k < cs.len() && (#[trigger] cs[k]).name() == x])
    } else {
        None
    }
}

/// The node reached from `v` through the names `q`, if there is one.
pub open spec fn node_at(v: NodeView, q: Seq<Seq<char>>) -> Option<NodeView>
    decreases q.len(),
{
    if q.len() == 0 {
        Some(v)
    } else {
        match v {
            NodeView::Branch { children, .. } => match child_at(children, q[0]) {
                Some(c) => node_at(c, q.drop_first()),
                None => None,
            },
            _ => None,
        }
    }
}

/// Among sorted children, the child found by a name is the one of that name.
pub proof fn lemma_child_at_index(cs: Seq<NodeView>, k: int)
    requires
        sorted(cs),
        0 <= k < cs.len(),
    ensures
        child_at(cs, cs[k].name()) == Some(cs[k]),
{
    let x = cs[k].name();
    assert(cs[k].name() == x);
    let m = choose|m: int| 0 <= m < cs.len() && (#[trigger] cs[m]).name() == x;
    lemma_sorted_unique(cs, k, m);
}

/// A child found by name is one of the children, with that name.
pub proof fn lemma_child_at_some(cs: Seq<NodeView>, x: Seq<char>)
    requires
        child_at(cs, x) is Some,
    ensures
        exists|k: int| 0 <= k < cs.len() && cs[k] == child_at(cs, x)->0 && cs[k].name() == x,
{
    let k = choose|k: int| 0 <= k < cs.len() && (#[trigger] cs[k]).name() == x;
    assert(cs[k] == child_at(cs, x)->0);
}

/// `a` is `b` or a path above it.
pub open spec fn prefix_of(a: Seq<Seq<char>>, b: Seq<Seq<char>>) -> bool {
    a.len() <= b.len() && b.take(a.len() as int) == a
}

pub open spec fn all_wf(cs: Seq<NodeView>) -> bool {
    forall|k: int| 0 <= k < cs.len() ==> (#[trigger] cs[k]).wf()
}

/// Placing a node by name keeps the other children.
proof fn lemma_insert_sorted_keeps(cs: Seq<NodeView>, n: NodeView, k: int)
    requires
        0 <= k < cs.len(),
        cs[k].name() != n.name(),
    ensures
        insert_sorted(cs, n).contains(cs[k]),
    decreases cs.len(),
{
    let r = insert_sorted(cs, n);
    if cs[0].name() == n.name() {
        assert(r[k] == cs[k]);
    } else if precedes(n.name(), cs[0].name()) {
        assert(r[k + 1] == cs[k]);
    } else if k == 0 {
        assert(r[0] == cs[0]);
    } else {
        let t = cs.drop_first();
        assert(t[k - 1] == cs[k]);
        lemma_insert_sorted_keeps(t, n, k - 1);
        let m = choose|m: int| 0 <= m < insert_sorted(t, n).len() && insert_sorted(t, n)[m] == cs[k];
        assert(r[m + 1] == cs[k]);
    }
}

/// Looking a name up after placing `n`: `n` under its own name, the earlier
/// children under the others.
proof fn lemma_child_at_insert_sorted(cs: Seq<NodeView>, n: NodeView, x: Seq<char>)
    requires
        sorted(cs),
    ensures
        child_at(insert_sorted(cs, n), x) == if x == n.name() {
            Some(n)
        } else {
            child_at(cs, x)
        },
{
    let r = insert_sorted(cs, n);
    lemma_insert_sorted_wf(cs, n);
    if x == n.name() {
        let m = choose|m: int| 0 <= m < r.len() && r[m] == n;
        lemma_child_at_index(r, m);
    } else if child_at(cs, x) is Some {
        lemma_child_at_some(cs, x);
        let k = choose|k: int| 0 <= k < cs.len() && cs[k] == child_at(cs, x)->0 && cs[k].name() == x;
        lemma_insert_sorted_keeps(cs, n, k);
        let m = choose|m: int| 0 <= m < r.len() && r[m] == cs[k];
        lemma_child_at_index(r, m);
    } else {
        if child_at(r, x) is Some {
            lemma_child_at_some(r, x);
            let m = choose|m: int| 0 <= m < r.len() && r[m] == child_at(r, x)->0 && r[m].name() == x;
            assert(r[m] == n || cs.contains(r[m]));
            let k = choose|k: int| 0 <= k < cs.len() && cs[k] == r[m];
            assert(cs[k].name() == x);
        }
    }
}

/// Looking a name up after a child was replaced by one of the same name.
proof fn lemma_child_at_update(cs: Seq<NodeView>, i: int, c: NodeView, x: Seq<char>)
    requires
        sorted(cs),
        0 <= i < cs.len(),
        c.name() == cs[i].name(),
    ensures
        sorted(cs.update(i, c)),
        child_at(cs.update(i, c), x) == if x == c.name() {
            Some(c)
        } else {
            child_at(cs, x)
        },
{
    let r = cs.update(i, c);
    assert(sorted(r)) by {
        assert forall|a: int, b: int| 0 <= a < b < r.len() implies precedes(
            #[trigger] r[a].name(),
            #[trigger] r[b].name(),
        ) by {
            assert(r[a].name() == cs[a].name() && r[b].name() == cs[b].name());
        }
    }
    if x == c.name() {
        lemma_child_at_index(r, i);
    } else if child_at(cs, x) is Some {
        lemma_child_at_some(cs, x);
        let k = choose|k: int| 0 <= k < cs.len() && cs[k] == child_at(cs, x)->0 && cs[k].name() == x;
        assert(r[k] == cs[k]);
        lemma_child_at_index(r, k);
    } else if child_at(r, x) is Some {
        lemma_child_at_some(r, x);
        let m = choose|m: int| 0 <= m < r.len() && r[m] == child_at(r, x)->0 && r[m].name() == x;
        assert(cs[m] == r[m]);
    }
}

/// Adding below directories keeps children sorted and well-formed.
pub proof fn lemma_inserted_wf(cs: Seq<NodeView>, dirs: Seq<Seq<char>>, n: NodeView)
    requires
        sorted(cs),
        all_wf(cs),
        n.wf(),
    ensures
        sorted(inserted(cs, dirs, n)),
        all_wf(inserted(cs, dirs, n)),
    decreases dirs.len(),
{
    let r = inserted(cs, dirs, n);
    if dirs.len() == 0 {
        lemma_insert_sorted_wf(cs, n);
        assert forall|k: int| 0 <= k < r.len() implies (#[trigger] r[k]).wf() by {
            if r[k] != n {
                let m = choose|m: int| 0 <= m < cs.len() && cs[m] == r[k];
            }
        }
    } else if exists|i: int| 0 <= i < cs.len() && (#[trigger] cs[i]).name() == dirs[0] {
        let i = choose|i: int| 0 <= i < cs.len() && (#[trigger] cs[i]).name() == dirs[0];
        match cs[i] {
            NodeView::Branch { name, children } => {
                assert(cs[i].wf());
                lemma_inserted_wf(children, dirs.drop_first(), n);
                let c = NodeView::Branch { name, children: inserted(children, dirs.drop_first(), n) };
                lemma_child_at_update(cs, i, c, name);
                assert forall|k: int| 0 <= k < r.len() implies (#[trigger] r[k]).wf() by {
                    if k != i {
                        assert(r[k] == cs[k]);
                    }
                }
            },
            _ => {},
        }
    } else {
        lemma_inserted_wf(Seq::empty(), dirs.drop_first(), n);
        let b = NodeView::Branch { name: dirs[0], children: inserted(Seq::empty(), dirs.drop_first(), n) };
        lemma_insert_sorted_wf(cs, b);
        assert forall|k: int| 0 <= k < r.len() implies (#[trigger] r[k]).wf() by {
            if r[k] != b {
                let m = choose|m: int| 0 <= m < cs.len() && cs[m] == r[k];
            }
        }
    }
}

proof fn lemma_prefix_cons(q: Seq<Seq<char>>, full: Seq<Seq<char>>)
    requires
        q.len() >= 1,
        full.len() >= 1,
    ensures
        q[0] == full[0] ==> prefix_of(q, full) == prefix_of(q.drop_first(), full.drop_first()),
        q[0] == full[0] ==> (q == full) == (q.drop_first() == full.drop_first()),
        q[0] != full[0] ==> !prefix_of(q, full) && q != full,
{
    if q[0] == full[0] {
        assert(q =~= seq![q[0]] + q.drop_first());
        assert(full =~= seq![full[0]] + full.drop_first());
        if q.len() <= full.len() {
            assert(full.take(q.len() as int) =~= seq![full[0]] + full.drop_first().take(q.len() - 1));
            if full.take(q.len() as int) == q {
                assert(full.drop_first().take(q.len() - 1) =~= q.drop_first());
            }
        }
        if q.drop_first() == full.drop_first() {
            assert(q =~= full);
        }
    } else {
        if q.len() <= full.len() {
            assert(full.take(q.len() as int)[0] == full[0]);
        }
    }
}

pub open spec fn is_leaf_at(v: NodeView, q: Seq<Seq<char>>) -> bool {
    node_at(v, q) matches Some(NodeView::Leaf { .. })
}

pub open spec fn is_summary_at(v: NodeView, q: Seq<Seq<char>>) -> bool {
    node_at(v, q) matches Some(NodeView::Summary { .. })
}

/// Nothing but directories lies on the way to `dirs`, and nothing yet at
/// `dirs` followed by `f`.
pub open spec fn open_path(v: NodeView, dirs: Seq<Seq<char>>, f: Seq<char>) -> bool {
    &&& forall|m: int| 1 <= m <= dirs.len() ==> (#[trigger] node_at(v, dirs.take(m)) matches None
        || node_at(v, dirs.take(m)) matches Some(NodeView::Branch { .. }))
    &&& node_at(v, dirs.push(f)) is None
}

/// What adding a file below open directories changes: the paths on its way
/// appear, the file appears at its own path, and nothing else changes.
pub proof fn lemma_inserted_lookup(
    name: Seq<char>,
    cs: Seq<NodeView>,
    dirs: Seq<Seq<char>>,
    n: NodeView,
    q: Seq<Seq<char>>,
)
    requires
        sorted(cs),
        all_wf(cs),
        n is Leaf,
        open_path(NodeView::Branch { name, children: cs }, dirs, n.name()),
    ensures
        ({
            let old = NodeView::Branch { name, children: cs };
            let new = NodeView::Branch { name, children: inserted(cs, dirs, n) };
            let full = dirs.push(n.name());
            &&& (node_at(new, q) is Some) == (node_at(old, q) is Some || prefix_of(q, full))
            &&& is_leaf_at(new, q) == (is_leaf_at(old, q) || q == full)
            &&& is_summary_at(new, q) == is_summary_at(old, q)
            &&& q == full ==> node_at(new, q) == Some(n)
            &&& is_leaf_at(old, q) && q != full ==> node_at(new, q) == node_at(old, q)
        }),
    decreases dirs.len(),
{
    let old = NodeView::Branch { name, children: cs };
    let cs2 = inserted(cs, dirs, n);
    let new = NodeView::Branch { name, children: cs2 };
    let f = n.name();
    let full = dirs.push(f);
    if q.len() == 0 {
        assert(prefix_of(q, full)) by {
            assert(full.take(0) =~= q);
        }
        return;
    }
    let x = q[0];
    let r = q.drop_first();
    if dirs.len() == 0 {
        lemma_child_at_insert_sorted(cs, n, x);
        assert(full =~= seq![f]);
        assert(full.drop_first() =~= Seq::<Seq<char>>::empty());
        lemma_prefix_cons(q, full);
        if x == f {
            assert(node_at(old, full) == node_at(old, seq![f]));
            if child_at(cs, f) is Some {
                let c = child_at(cs, f)->0;
                assert(seq![f].drop_first() =~= Seq::<Seq<char>>::empty());
                assert(node_at(c, Seq::<Seq<char>>::empty()) == Some(c));
                assert(node_at(old, seq![f]) == node_at(c, seq![f].drop_first()));
            }
            assert(child_at(cs, f) is None);
            assert(node_at(old, q) is None);
            assert(node_at(new, q) == node_at(n, r));
            if r.len() == 0 {
                assert(prefix_of(r, full.drop_first())) by {
                    assert(full.drop_first().take(0) =~= r);
                }
                assert(r == full.drop_first());
                assert(node_at(n, r) == Some(n));
            } else {
                assert(node_at(n, r) is None);
                assert(!prefix_of(r, full.drop_first()));
            }
        } else {
            assert(node_at(new, q) == node_at(old, q));
        }
        return;
    }
    let d = dirs[0];
    let rest = dirs.drop_first();
    assert(full[0] == d);
    assert(full.drop_first() =~= rest.push(f));
    lemma_prefix_cons(q, full);
    assert(dirs.take(1) =~= seq![d]);
    assert(seq![d].drop_first() =~= Seq::<Seq<char>>::empty());
    if exists|i: int| 0 <= i < cs.len() && (#[trigger] cs[i]).name() == d {
        let i = choose|i: int| 0 <= i < cs.len() && (#[trigger] cs[i]).name() == d;
        lemma_child_at_index(cs, i);
        assert(node_at(cs[i], Seq::<Seq<char>>::empty()) == Some(cs[i]));
        assert(node_at(old, seq![d]) == node_at(cs[i], seq![d].drop_first()));
        assert(node_at(old, dirs.take(1)) == Some(cs[i]));
        match cs[i] {
            NodeView::Branch { name: bn, children: gc } => {
                let inner = NodeView::Branch { name: bn, children: gc };
                let nb = NodeView::Branch { name: bn, children: inserted(gc, rest, n) };
                assert(cs2 == cs.update(i, nb));
                lemma_child_at_update(cs, i, nb, x);
                assert(inner.wf());
                assert(open_path(inner, rest, f)) by {
                    assert forall|m: int| 1 <= m <= rest.len() implies (#[trigger] node_at(inner, rest.take(m)) matches None
                        || node_at(inner, rest.take(m)) matches Some(NodeView::Branch { .. })) by {
                        let t = dirs.take(m + 1);
                        assert(t[0] == d);
                        assert(t.drop_first() =~= rest.take(m));
                        assert(node_at(old, t) == node_at(inner, rest.take(m)));
                    }
                    assert(node_at(old, full) == node_at(inner, rest.push(f)));
                }
                if x == d {
                    lemma_inserted_lookup(bn, gc, rest, n, r);
                    assert(node_at(old, q) == node_at(inner, r));
                    assert(node_at(new, q) == node_at(nb, r));
                }
            },
            _ => {},
        }
    } else {
        let nb = NodeView::Branch { name: d, children: inserted(Seq::empty(), rest, n) };
        let empty = NodeView::Branch { name: d, children: Seq::<NodeView>::empty() };
        assert(cs2 == insert_sorted(cs, nb));
        lemma_child_at_insert_sorted(cs, nb, x);
        assert(child_at(cs, d) is None);
        if x == d {
            assert(open_path(empty, rest, f)) by {
                assert forall|m: int| 1 <= m <= rest.len() implies (#[trigger] node_at(empty, rest.take(m)) matches None
                    || node_at(empty, rest.take(m)) matches Some(NodeView::Branch { .. })) by {
                    assert(child_at(Seq::<NodeView>::empty(), rest.take(m)[0]) is None);
                }
                assert(child_at(Seq::<NodeView>::empty(), rest.push(f)[0]) is None);
            }
            lemma_inserted_lookup(d, Seq::empty(), rest, n, r);
            if r.len() > 0 {
                assert(child_at(Seq::<NodeView>::empty(), r[0]) is None);
            } else {
                assert(prefix_of(r, rest.push(f))) by {
                    assert(rest.push(f).take(0) =~= r);
                }
            }
            assert(node_at(new, q) == node_at(nb, r));
        }
    }
}

proof fn lemma_sorted_tail(c: Seq<NodeView>)
    requires
        sorted(c),
        c.len() > 0,
    ensures
        sorted(c.drop_first()),
        forall|x: Seq<char>| x != c[0].name() ==> #[trigger] child_at(c.drop_first(), x) == child_at(c, x),
        child_at(c.drop_first(), c[0].name()) is None,
{
    let t = c.drop_first();
    assert forall|a: int, b: int| 0 <= a < b < t.len() implies precedes(#[trigger] t[a].name(), #[trigger] t[b].name()) by {
        assert(t[a] == c[a + 1] && t[b] == c[b + 1]);
    }
    assert forall|x: Seq<char>| x != c[0].name() implies #[trigger] child_at(t, x) == child_at(c, x) by {
        if child_at(c, x) is Some {
            lemma_child_at_some(c, x);
            let k = choose|k: int| 0 <= k < c.len() && c[k] == child_at(c, x)->0 && c[k].name() == x;
            assert(t[k - 1] == c[k]);
            lemma_child_at_index(t, k - 1);
        } else if child_at(t, x) is Some {
            lemma_child_at_some(t, x);
            let k = choose|k: int| 0 <= k < t.len() && t[k] == child_at(t, x)->0 && t[k].name() == x;
            assert(c[k + 1] == t[k]);
        }
    }
    if child_at(t, c[0].name()) is Some {
        lemma_child_at_some(t, c[0].name());
        let k = choose|k: int| 0 <= k < t.len() && t[k] == child_at(t, c[0].name())->0 && t[k].name() == c[0].name();
        assert(c[k + 1] == t[k]);
        lemma_sorted_unique(c, 0, k + 1);
    }
}

/// Sorted children are determined by which child each name finds.
pub proof fn lemma_sorted_ext(c1: Seq<NodeView>, c2: Seq<NodeView>)
    requires
        sorted(c1),
        sorted(c2),
        forall|x: Seq<char>| #[trigger] child_at(c1, x) == child_at(c2, x),
    ensures
        c1 == c2,
    decreases c1.len(),
{
    if c1.len() == 0 {
        if c2.len() > 0 {
            lemma_child_at_index(c2, 0);
            assert(child_at(c1, c2[0].name()) is None);
        }
        assert(c1 =~= c2);
        return;
    }
    let x0 = c1[0].name();
    lemma_child_at_index(c1, 0);
    assert(child_at(c2, x0) == Some(c1[0]));
    lemma_child_at_some(c2, x0);
    let m = choose|m: int| 0 <= m < c2.len() && c2[m] == child_at(c2, x0)->0 && c2[m].name() == x0;
    if m > 0 {
        let y = c2[0].name();
        lemma_child_at_index(c2, 0);
        assert(child_at(c1, y) == Some(c2[0]));
        lemma_child_at_some(c1, y);
        let k = choose|k: int| 0 <= k < c1.len() && c1[k] == child_at(c1, y)->0 && c1[k].name() == y;
        assert(precedes(c2[0].name(), c2[m].name()));
        if k == 0 {
            lemma_precedes_irreflexive(x0);
        } else {
            assert(precedes(c1[0].name(), c1[k].name()));
            lemma_precedes_asymmetric(x0, y);
        }
    }
    assert(c2[0] == c1[0]);
    lemma_sorted_tail(c1);
    lemma_sorted_tail(c2);
    let t1 = c1.drop_first();
    let t2 = c2.drop_first();
    assert forall|x: Seq<char>| #[trigger] child_at(t1, x) == child_at(t2, x) by {
        if x != x0 {
            assert(child_at(t1, x) == child_at(c1, x));
            assert(child_at(t2, x) == child_at(c2, x));
        }
    }
    lemma_sorted_ext(t1, t2);
    assert(c1 =~= seq![c1[0]] + t1);
    assert(c2 =~= seq![c2[0]] + t2);
}

/// Looking a path up below a named child.
pub proof fn lemma_node_at_cons(v: NodeView, x: Seq<char>, r: Seq<Seq<char>>)
    ensures
        node_at(v, seq![x] + r) == match v {
            NodeView::Branch { children, .. } => match child_at(children, x) {
                Some(c) => node_at(c, r),
                None => None,
            },
            _ => None,
        },
{
    let q = seq![x] + r;
    assert(q[0] == x);
    assert(q.drop_first() =~= r);
}

/// Two well-formed directories of the same name with nodes at the same
/// paths, the same file wherever either has a file, and no repository
/// summaries, are the same directory.
pub proof fn lemma_tree_ext(v1: NodeView, v2: NodeView)
    requires
        v1.wf(),
        v2.wf(),
        v1 is Branch,
        v2 is Branch,
        v1.name() == v2.name(),
        forall|q: Seq<Seq<char>>| (#[trigger] node_at(v1, q) is Some) == (node_at(v2, q) is Some),
        forall|q: Seq<Seq<char>>| #[trigger] is_leaf_at(v1, q) ==> node_at(v2, q) == node_at(v1, q),
        forall|q: Seq<Seq<char>>| #[trigger] is_leaf_at(v2, q) ==> node_at(v1, q) == node_at(v2, q),
        forall|q: Seq<Seq<char>>| !(#[trigger] is_summary_at(v1, q)),
        forall|q: Seq<Seq<char>>| !(#[trigger] is_summary_at(v2, q)),
    ensures
        v1 == v2,
    decreases v1,
{
    let c1 = v1->Branch_children;
    let c2 = v2->Branch_children;
    assert forall|x: Seq<char>| #[trigger] child_at(c1, x) == child_at(c2, x) by {
        let q = seq![x];
        lemma_node_at_cons(v1, x, Seq::empty());
        lemma_node_at_cons(v2, x, Seq::empty());
        assert(seq![x] + Seq::<Seq<char>>::empty() =~= q);
        assert(node_at(v1, q) is Some == node_at(v2, q) is Some);
        assert(!is_summary_at(v1, q) && !is_summary_at(v2, q));
        if child_at(c1, x) is Some {
            let a = child_at(c1, x)->0;
            let b = child_at(c2, x)->0;
            assert(node_at(a, Seq::empty()) == Some(a));
            assert(node_at(b, Seq::empty()) == Some(b));
            if is_leaf_at(v1, q) {
            } else if is_leaf_at(v2, q) {
            } else {
                lemma_child_at_some(c1, x);
                lemma_child_at_some(c2, x);
                let i = choose|k: int| 0 <= k < c1.len() && c1[k] == a && c1[k].name() == x;
                let j = choose|k: int| 0 <= k < c2.len() && c2[k] == b && c2[k].name() == x;
                assert(c1[i].wf() && c2[j].wf());
                assert forall|r: Seq<Seq<char>>| (#[trigger] node_at(a, r) is Some) == (node_at(b, r) is Some) by {
                    lemma_node_at_cons(v1, x, r);
                    lemma_node_at_cons(v2, x, r);
                    assert(node_at(v1, seq![x] + r) is Some == node_at(v2, seq![x] + r) is Some);
                }
                assert forall|r: Seq<Seq<char>>| #[trigger] is_leaf_at(a, r) implies node_at(b, r) == node_at(a, r) by {
                    lemma_node_at_cons(v1, x, r);
                    lemma_node_at_cons(v2, x, r);
                    assert(is_leaf_at(v1, seq![x] + r));
                }
                assert forall|r: Seq<Seq<char>>| #[trigger] is_leaf_at(b, r) implies node_at(a, r) == node_at(b, r) by {
                    lemma_node_at_cons(v1, x, r);
                    lemma_node_at_cons(v2, x, r);
                    assert(is_leaf_at(v2, seq![x] + r));
                }
                assert forall|r: Seq<Seq<char>>| !(#[trigger] is_summary_at(a, r)) by {
                    lemma_node_at_cons(v1, x, r);
                    assert(!is_summary_at(v1, seq![x] + r));
                }
                assert forall|r: Seq<Seq<char>>| !(#[trigger] is_summary_at(b, r)) by {
                    lemma_node_at_cons(v2, x, r);
                    assert(!is_summary_at(v2, seq![x] + r));
                }
                lemma_tree_ext(a, b);
            }
        }
    }
    lemma_sorted_ext(c1, c2);
}

} // verus!

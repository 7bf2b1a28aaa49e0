//! The outline of a tree: each rendered line's path below the root, and how
//! the lines' margins and names give those paths back.
use vstd::prelude::*;
use crate::render::{lines, stacked, framed, tee, bar, corner, blank, leaf_label, summary_label};
use crate::tree::{NodeView, sorted};
use crate::names::{precedes, lemma_precedes_irreflexive};
use crate::lookup::{prefix_of, node_at, child_at, lemma_child_at_index, lemma_child_at_some};

verus! {

/// One outline row: a node's path of names below the root, and the node.
pub type Row = (Seq<Seq<char>>, NodeView);

/// The nodes of a tree in the order of its lines, each with its path below
/// the tree's root.
pub open spec fn preorder(v: NodeView) -> Seq<Row>
    decreases v,
{
    match v {
        NodeView::Branch { children, .. } => seq![(Seq::empty(), v)] + blocks(children),
        _ => seq![(Seq::<Seq<char>>::empty(), v)],
    }
}

/// The outline rows of a sequence of sibling subtrees.
pub open spec fn blocks(cs: Seq<NodeView>) -> Seq<Row>
    decreases cs,
{
    if cs.len() == 0 {
        Seq::empty()
    } else {
        blocks(cs.drop_last()) + under(cs.last().name(), preorder(cs.last()))
    }
}

/// Rows moved one level down, below the name `x`.
pub open spec fn under(x: Seq<char>, s: Seq<Row>) -> Seq<Row> {
    s.map_values(|e: Row| (seq![x] + e.0, e.1))
}

/// The text that follows a line's margin: a directory's name, or the label of
/// a file or a repository.
pub open spec fn own_label(v: NodeView) -> Seq<char> {
    match v {
        NodeView::Branch { name, .. } => name,
        NodeView::Leaf { name, class } => leaf_label(name, class),
        NodeView::Summary { name, branch, files_changed, insertions, deletions } => summary_label(
            name,
            branch,
            files_changed,
            insertions,
            deletions,
        ),
    }
}

/// One of the four box-drawing units a margin is made of.
pub open spec fn is_unit(u: Seq<char>) -> bool {
    u == tee() || u == bar() || u == corner() || u == blank()
}

/// `m` is `depth` units laid end to end.
pub open spec fn is_margin(m: Seq<char>, depth: nat) -> bool {
    &&& m.len() == 4 * depth
    &&& forall|j: int| 0 <= j < depth ==> is_unit(#[trigger] m.subrange(4 * j, 4 * j + 4))
}

/// A line made of a margin of `depth` units followed by `label`.
pub open spec fn line_shape(line: Seq<char>, depth: nat, label: Seq<char>) -> bool {
    &&& line.len() >= 4 * depth
    &&& is_margin(line.take(4 * depth as int), depth)
    &&& line.skip(4 * depth as int) == label
}

/// Every line holds as many margin units as its node is deep, then its label.
pub open spec fn shaped(ls: Seq<Seq<char>>, rows: Seq<Row>) -> bool {
    &&& ls.len() == rows.len()
    &&& forall|i: int| 0 <= i < ls.len() ==> line_shape(#[trigger] ls[i], rows[i].0.len(), own_label(rows[i].1))
}

proof fn lemma_margin_extend(u: Seq<char>, m: Seq<char>, d: nat)
    requires
        is_unit(u),
        is_margin(m, d),
    ensures
        is_margin(u + m, d + 1),
{
    let um = u + m;
    assert forall|j: int| 0 <= j < d + 1 implies is_unit(#[trigger] um.subrange(4 * j, 4 * j + 4)) by {
        if j == 0 {
            assert(um.subrange(0, 4) =~= u);
        } else {
            assert(um.subrange(4 * j, 4 * j + 4) =~= m.subrange(4 * (j - 1), 4 * (j - 1) + 4));
        }
    }
}

proof fn lemma_shaped_framed(ls: Seq<Seq<char>>, rows: Seq<Row>, x: Seq<char>, first: Seq<char>, rest: Seq<char>)
    requires
        shaped(ls, rows),
        is_unit(first),
        is_unit(rest),
    ensures
        shaped(framed(ls, first, rest), under(x, rows)),
{
    let f = framed(ls, first, rest);
    let r = under(x, rows);
    assert forall|i: int| 0 <= i < f.len() implies line_shape(#[trigger] f[i], r[i].0.len(), own_label(r[i].1)) by {
        let u = if i == 0 { first } else { rest };
        let d = rows[i].0.len();
        let line = ls[i];
        assert(line_shape(line, d, own_label(rows[i].1)));
        assert(f[i] == u + line);
        assert(r[i].0 == seq![x] + rows[i].0);
        lemma_margin_extend(u, line.take(4 * d as int), d);
        assert((u + line).take(4 * (d + 1) as int) =~= u + line.take(4 * d as int));
        assert((u + line).skip(4 * (d + 1) as int) =~= line.skip(4 * d as int));
    }
}

proof fn lemma_shaped_concat(a: Seq<Seq<char>>, ra: Seq<Row>, b: Seq<Seq<char>>, rb: Seq<Row>)
    requires
        shaped(a, ra),
        shaped(b, rb),
    ensures
        shaped(a + b, ra + rb),
{
    assert forall|i: int| 0 <= i < (a + b).len() implies line_shape(
        #[trigger] (a + b)[i],
        (ra + rb)[i].0.len(),
        own_label((ra + rb)[i].1),
    ) by {
        if i < a.len() {
            assert((a + b)[i] == a[i] && (ra + rb)[i] == ra[i]);
        } else {
            assert((a + b)[i] == b[i - a.len()] && (ra + rb)[i] == rb[i - a.len()]);
        }
    }
}

/// Each rendered line is its node's margin and label.
pub proof fn lemma_lines_shaped(v: NodeView)
    ensures
        shaped(lines(v), preorder(v)),
    decreases v,
{
    let head = seq![own_label(v)];
    let hr = seq![(Seq::<Seq<char>>::empty(), v)];
    assert(shaped(head, hr)) by {
        assert(head[0].take(0) =~= Seq::<char>::empty());
        assert(head[0].skip(0) =~= head[0]);
    }
    match v {
        NodeView::Branch { name, children } => {
            if children.len() == 0 {
                assert(blocks(children) =~= Seq::<Row>::empty());
                assert(preorder(v) =~= hr);
            } else {
                let last = children.last();
                lemma_stacked_shaped(children.drop_last());
                lemma_lines_shaped(last);
                lemma_shaped_framed(lines(last), preorder(last), last.name(), corner(), blank());
                lemma_shaped_concat(head, hr, stacked(children.drop_last()), blocks(children.drop_last()));
                lemma_shaped_concat(
                    head + stacked(children.drop_last()),
                    hr + blocks(children.drop_last()),
                    framed(lines(last), corner(), blank()),
                    under(last.name(), preorder(last)),
                );
                assert(preorder(v) =~= hr + blocks(children.drop_last()) + under(last.name(), preorder(last)));
            }
        },
        _ => {},
    }
}

proof fn lemma_stacked_shaped(cs: Seq<NodeView>)
    ensures
        shaped(stacked(cs), blocks(cs)),
    decreases cs,
{
    if cs.len() > 0 {
        let last = cs.last();
        lemma_stacked_shaped(cs.drop_last());
        lemma_lines_shaped(last);
        lemma_shaped_framed(lines(last), preorder(last), last.name(), tee(), bar());
        lemma_shaped_concat(
            stacked(cs.drop_last()),
            blocks(cs.drop_last()),
            framed(lines(last), tee(), bar()),
            under(last.name(), preorder(last)),
        );
    } else {
        assert(shaped(stacked(cs), blocks(cs))) by {
            assert(stacked(cs) =~= Seq::<Seq<char>>::empty());
            assert(blocks(cs) =~= Seq::<Row>::empty());
        }
    }
}

/// Row `i` lies one level below the path of row `i - 1` or of one of its
/// ancestors, and its node carries the last name of its path.
pub open spec fn steps_down(s: Seq<Row>, i: int) -> bool {
    &&& s[i].0.len() >= 1
    &&& prefix_of(s[i].0.drop_last(), s[i - 1].0)
    &&& s[i].1.name() == s[i].0.last()
}

/// The rows of a whole tree in line order: the root first.
pub open spec fn nested(s: Seq<Row>) -> bool {
    &&& s.len() >= 1
    &&& s[0].0.len() == 0
    &&& forall|i: int| 1 <= i < s.len() ==> #[trigger] steps_down(s, i)
}

/// The rows of subtrees laid one after another below a common parent.
pub open spec fn chained(s: Seq<Row>) -> bool {
    &&& s.len() > 0 ==> s[0].0.len() == 1 && s[0].1.name() == s[0].0.last()
    &&& forall|i: int| 1 <= i < s.len() ==> #[trigger] steps_down(s, i)
}

proof fn lemma_under_chained(x: Seq<char>, s: Seq<Row>)
    requires
        nested(s),
        s[0].1.name() == x,
    ensures
        chained(under(x, s)),
{
    let u = under(x, s);
    assert(u[0].0 =~= seq![x]);
    assert forall|i: int| 1 <= i < u.len() implies #[trigger] steps_down(u, i) by {
        assert(steps_down(s, i));
        let p = s[i].0;
        let q = s[i - 1].0;
        assert(u[i].0 == seq![x] + p);
        assert(u[i - 1].0 == seq![x] + q);
        assert((seq![x] + p).drop_last() =~= seq![x] + p.drop_last());
        assert((seq![x] + q).take(p.len() as int) =~= seq![x] + q.take(p.len() - 1));
        assert((seq![x] + p).last() == p.last());
    }
}

proof fn lemma_chained_concat(a: Seq<Row>, b: Seq<Row>)
    requires
        chained(a),
        chained(b),
    ensures
        chained(a + b),
{
    let c = a + b;
    assert forall|i: int| 1 <= i < c.len() implies #[trigger] steps_down(c, i) by {
        if i < a.len() {
            assert(steps_down(a, i));
            assert(c[i] == a[i] && c[i - 1] == a[i - 1]);
        } else if i == a.len() {
            assert(c[i] == b[0]);
            assert(b[0].0.drop_last() =~= Seq::<Seq<char>>::empty());
            assert(c[i - 1].0.take(0) =~= Seq::<Seq<char>>::empty());
        } else {
            assert(steps_down(b, i - a.len()));
            assert(c[i] == b[i - a.len()] && c[i - 1] == b[i - 1 - a.len()]);
        }
    }
}

/// The rows of a tree are nested, starting at the tree itself.
pub proof fn lemma_preorder_nested(v: NodeView)
    ensures
        nested(preorder(v)),
        preorder(v)[0] == (Seq::<Seq<char>>::empty(), v),
    decreases v,
{
    let hr = seq![(Seq::<Seq<char>>::empty(), v)];
    match v {
        NodeView::Branch { name, children } => {
            lemma_blocks_chained(children);
            let b = blocks(children);
            let s = hr + b;
            assert(s == preorder(v));
            assert forall|i: int| 1 <= i < s.len() implies #[trigger] steps_down(s, i) by {
                if i == 1 {
                    assert(s[1] == b[0]);
                    assert(b[0].0.drop_last() =~= Seq::<Seq<char>>::empty());
                    assert(s[0].0.take(0) =~= Seq::<Seq<char>>::empty());
                } else {
                    assert(steps_down(b, i - 1));
                    assert(s[i] == b[i - 1] && s[i - 1] == b[i - 2]);
                }
            }
        },
        _ => {},
    }
}

proof fn lemma_blocks_chained(cs: Seq<NodeView>)
    ensures
        chained(blocks(cs)),
    decreases cs,
{
    if cs.len() > 0 {
        let last = cs.last();
        lemma_blocks_chained(cs.drop_last());
        lemma_preorder_nested(last);
        lemma_under_chained(last.name(), preorder(last));
        lemma_chained_concat(blocks(cs.drop_last()), under(last.name(), preorder(last)));
    } else {
        assert(blocks(cs) =~= Seq::<Row>::empty());
    }
}

/// What a reader of the lines sees of each: its depth (the number of margin
/// units) and its name.
pub open spec fn depths_and_names(s: Seq<Row>) -> Seq<(nat, Seq<char>)> {
    s.map_values(|e: Row| (e.0.len(), e.1.name()))
}

/// Reading lines top to bottom with a stack of names: a line of depth `d`
/// keeps the first `d` names of the stack and pushes its own; the stack after
/// each line is that line's path from the root.
pub open spec fn reparse(rows: Seq<(nat, Seq<char>)>) -> Seq<Seq<Seq<char>>>
    decreases rows.len(),
{
    if rows.len() == 0 {
        Seq::empty()
    } else {
        let prev = reparse(rows.drop_last());
        let stack = if prev.len() == 0 {
            Seq::empty()
        } else {
            prev.last()
        };
        prev.push(stack.take(rows.last().0 as int) + seq![rows.last().1])
    }
}

/// Reading nested rows back gives each row's path, below the root's name.
pub proof fn lemma_reparse_nested(s: Seq<Row>)
    requires
        nested(s),
    ensures
        reparse(depths_and_names(s)).len() == s.len(),
        forall|i: int| 0 <= i < s.len() ==> #[trigger] reparse(depths_and_names(s))[i] == seq![s[0].1.name()] + s[i].0,
    decreases s.len(),
{
    let rows = depths_and_names(s);
    let n = s.len() as int;
    if n == 1 {
        assert(rows.drop_last() =~= Seq::<(nat, Seq<char>)>::empty());
        assert(reparse(rows.drop_last()).len() == 0);
        assert(rows.last() == (0nat, s[0].1.name()));
        assert(Seq::<Seq<char>>::empty().take(0) + seq![s[0].1.name()] =~= seq![s[0].1.name()] + s[0].0);
    } else {
        let t = s.drop_last();
        assert forall|i: int| 1 <= i < t.len() implies #[trigger] steps_down(t, i) by {
            assert(steps_down(s, i));
        }
        lemma_reparse_nested(t);
        assert(rows.drop_last() =~= depths_and_names(t));
        let prev = reparse(rows.drop_last());
        assert(steps_down(s, n - 1));
        let p = s[n - 1].0;
        let stack = prev.last();
        assert(stack == seq![s[0].1.name()] + s[n - 2].0);
        assert(stack.take(p.len() as int) =~= seq![s[0].1.name()] + s[n - 2].0.take(p.len() - 1));
        assert(seq![s[0].1.name()] + p =~= stack.take(p.len() as int) + seq![p.last()]) by {
            assert(p =~= p.drop_last().push(p.last()));
        }
        let r = reparse(rows);
        assert forall|i: int| 0 <= i < s.len() implies #[trigger] r[i] == seq![s[0].1.name()] + s[i].0 by {
            if i < n - 1 {
                assert(r[i] == prev[i]);
                assert(t[i] == s[i]);
            }
        }
    }
}

/// `blocks(cs.take(m))` begins `blocks(cs)`.
proof fn lemma_blocks_prefix(cs: Seq<NodeView>, m: int)
    requires
        0 <= m <= cs.len(),
    ensures
        blocks(cs.take(m)).len() <= blocks(cs).len(),
        blocks(cs).take(blocks(cs.take(m)).len() as int) == blocks(cs.take(m)),
    decreases cs.len(),
{
    if m == cs.len() {
        assert(cs.take(m) =~= cs);
        assert(blocks(cs).take(blocks(cs).len() as int) =~= blocks(cs));
    } else {
        let init = cs.drop_last();
        assert(init.take(m) =~= cs.take(m));
        lemma_blocks_prefix(init, m);
        let b = blocks(cs.take(m));
        assert(blocks(cs).take(b.len() as int) =~= blocks(init).take(b.len() as int));
    }
}

/// Every row of a well-formed tree names the node found at its path.
pub proof fn lemma_rows_found(v: NodeView)
    requires
        v.wf(),
    ensures
        forall|i: int| 0 <= i < preorder(v).len() ==> node_at(v, #[trigger] preorder(v)[i].0) == Some(preorder(v)[i].1),
    decreases v,
{
    match v {
        NodeView::Branch { name, children } => {
            lemma_blocks_found(children);
            let s = preorder(v);
            assert forall|i: int| 0 <= i < s.len() implies node_at(v, #[trigger] s[i].0) == Some(s[i].1) by {
                if i > 0 {
                    let b = blocks(children);
                    assert(s[i] == b[i - 1]);
                    let q = b[i - 1].0;
                    assert(child_at(children, q[0]) is Some);
                }
            }
        },
        _ => {},
    }
}

proof fn lemma_blocks_found(cs: Seq<NodeView>)
    requires
        sorted(cs),
        forall|k: int| 0 <= k < cs.len() ==> (#[trigger] cs[k]).wf(),
    ensures
        forall|i: int| 0 <= i < blocks(cs).len() ==> {
            let q = #[trigger] blocks(cs)[i].0;
            &&& q.len() >= 1
            &&& child_at(cs, q[0]) is Some
            &&& node_at(child_at(cs, q[0])->0, q.drop_first()) == Some(blocks(cs)[i].1)
        },
    decreases cs,
{
    if cs.len() > 0 {
        let init = cs.drop_last();
        let last = cs.last();
        assert(sorted(init)) by {
            assert forall|a: int, b: int| 0 <= a < b < init.len() implies precedes(
                #[trigger] init[a].name(),
                #[trigger] init[b].name(),
            ) by {
                assert(init[a] == cs[a] && init[b] == cs[b]);
            }
        }
        assert forall|k: int| 0 <= k < init.len() implies (#[trigger] init[k]).wf() by {
            assert(init[k] == cs[k]);
        }
        lemma_blocks_found(init);
        lemma_rows_found(last);
        lemma_child_at_index(cs, cs.len() - 1);
        let bi = blocks(init);
        let u = under(last.name(), preorder(last));
        let b = blocks(cs);
        assert(b == bi + u);
        assert forall|i: int| 0 <= i < b.len() implies {
            let q = #[trigger] b[i].0;
            &&& q.len() >= 1
            &&& child_at(cs, q[0]) is Some
            &&& node_at(child_at(cs, q[0])->0, q.drop_first()) == Some(b[i].1)
        } by {
            if i < bi.len() {
                assert(b[i] == bi[i]);
                let q = bi[i].0;
                lemma_child_at_some(init, q[0]);
                let k = choose|k: int| 0 <= k < init.len() && init[k] == child_at(init, q[0])->0 && init[k].name() == q[0];
                assert(cs[k] == init[k]);
                lemma_child_at_index(cs, k);
            } else {
                let j = i - bi.len();
                assert(b[i] == u[j]);
                let p = preorder(last)[j].0;
                assert(u[j].0 == seq![last.name()] + p);
                assert((seq![last.name()] + p).drop_first() =~= p);
            }
        }
    }
}

/// Every node of a well-formed tree has a row, at its path.
pub proof fn lemma_found_rows(v: NodeView, q: Seq<Seq<char>>)
    requires
        v.wf(),
        node_at(v, q) is Some,
    ensures
        exists|i: int| 0 <= i < preorder(v).len() && #[trigger] preorder(v)[i] == (q, node_at(v, q)->0),
    decreases q.len(),
{
    let s = preorder(v);
    if q.len() == 0 {
        assert(s[0] == (q, v)) by {
            lemma_preorder_nested(v);
            assert(q =~= Seq::<Seq<char>>::empty());
        }
    } else {
        match v {
            NodeView::Branch { name, children } => {
                let c = child_at(children, q[0])->0;
                lemma_child_at_some(children, q[0]);
                let k = choose|k: int| 0 <= k < children.len() && children[k] == c && children[k].name() == q[0];
                lemma_found_rows(c, q.drop_first());
                let pc = preorder(c);
                let j = choose|j: int| 0 <= j < pc.len() && #[trigger] pc[j] == (q.drop_first(), node_at(c, q.drop_first())->0);
                lemma_blocks_prefix(children, k + 1);
                let front = blocks(children.take(k));
                let upto = blocks(children.take(k + 1));
                assert(children.take(k + 1).drop_last() =~= children.take(k));
                assert(children.take(k + 1).last() == c);
                assert(upto == front + under(c.name(), pc));
                let i = front.len() + j;
                assert(upto[i] == under(c.name(), pc)[j]);
                assert(blocks(children)[i] == upto[i]);
                assert(seq![q[0]] + q.drop_first() =~= q);
                assert(s[i + 1] == blocks(children)[i]);
                assert(s[i + 1] == (q, node_at(v, q)->0));
            },
            _ => {},
        }
    }
}

/// In a well-formed tree no two lines are at the same path.
pub proof fn lemma_preorder_distinct(v: NodeView)
    requires
        v.wf(),
    ensures
        forall|i: int, j: int|
            0 <= i < j < preorder(v).len() ==> (#[trigger] preorder(v)[i]).0 != (#[trigger] preorder(v)[j]).0,
    decreases v,
{
    match v {
        NodeView::Branch { name, children } => {
            lemma_blocks_distinct(children);
            lemma_blocks_found(children);
            let b = blocks(children);
            let s = preorder(v);
            assert(s == seq![(Seq::<Seq<char>>::empty(), v)] + b);
            assert forall|i: int, j: int| 0 <= i < j < s.len() implies (#[trigger] s[i]).0 != (#[trigger] s[j]).0 by {
                assert(s[j] == b[j - 1]);
                assert(b[j - 1].0.len() >= 1);
                if i > 0 {
                    assert(s[i] == b[i - 1]);
                }
            }
        },
        _ => {},
    }
}

proof fn lemma_blocks_distinct(cs: Seq<NodeView>)
    requires
        sorted(cs),
        forall|k: int| 0 <= k < cs.len() ==> (#[trigger] cs[k]).wf(),
    ensures
        forall|i: int, j: int|
            0 <= i < j < blocks(cs).len() ==> (#[trigger] blocks(cs)[i]).0 != (#[trigger] blocks(cs)[j]).0,
    decreases cs,
{
    if cs.len() == 0 {
        assert(blocks(cs) =~= Seq::<Row>::empty());
        return;
    }
    let init = cs.drop_last();
    let last = cs.last();
    assert(sorted(init)) by {
        assert forall|a: int, b: int| 0 <= a < b < init.len() implies precedes(
            #[trigger] init[a].name(),
            #[trigger] init[b].name(),
        ) by {
            assert(init[a] == cs[a] && init[b] == cs[b]);
        }
    }
    assert forall|k: int| 0 <= k < init.len() implies (#[trigger] init[k]).wf() by {
        assert(init[k] == cs[k]);
    }
    lemma_blocks_distinct(init);
    lemma_blocks_found(init);
    lemma_preorder_distinct(last);
    let bi = blocks(init);
    let pl = preorder(last);
    let u = under(last.name(), pl);
    let b = blocks(cs);
    assert(b == bi + u);
    assert forall|i: int, j: int| 0 <= i < j < b.len() implies (#[trigger] b[i]).0 != (#[trigger] b[j]).0 by {
        if j < bi.len() {
            assert(b[i] == bi[i] && b[j] == bi[j]);
        } else if i >= bi.len() {
            let ii = i - bi.len();
            let jj = j - bi.len();
            assert(b[i] == u[ii] && b[j] == u[jj]);
            assert(u[ii].0 == seq![last.name()] + pl[ii].0);
            assert(u[jj].0 == seq![last.name()] + pl[jj].0);
            assert(pl[ii].0 != pl[jj].0);
            if u[ii].0 == u[jj].0 {
                assert(u[ii].0.drop_first() =~= pl[ii].0);
                assert(u[jj].0.drop_first() =~= pl[jj].0);
            }
        } else {
            assert(b[i] == bi[i]);
            let q = bi[i].0;
            lemma_child_at_some(init, q[0]);
            let k = choose|k: int| 0 <= k < init.len() && init[k] == child_at(init, q[0])->0 && init[k].name() == q[0];
            assert(precedes(cs[k].name(), cs[cs.len() - 1].name()));
            lemma_precedes_irreflexive(last.name());
            let jj = j - bi.len();
            assert(b[j] == u[jj]);
            assert(u[jj].0[0] == last.name());
        }
    }
}

} // verus!

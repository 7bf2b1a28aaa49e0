//! Properties of building and rendering status trees that hold for every
//! input.
use vstd::prelude::*;
use crate::render::{lines, stacked, framed, corner, tee};
use crate::tree::{NodeView, sorted, inserted};
use crate::names::precedes;
use crate::path::{PathError, components, path_error};
use crate::status::classification_of;
use crate::walk::{StatusRecord, entries_of};
use crate::lookup::{prefix_of, all_wf, node_at, child_at, is_leaf_at, is_summary_at, open_path,
    lemma_inserted_wf, lemma_inserted_lookup, lemma_tree_ext};
use crate::outline::{Row, preorder, blocks, under, steps_down, shaped, reparse, depths_and_names, lemma_lines_shaped,
    lemma_preorder_nested, lemma_reparse_nested, lemma_rows_found, lemma_found_rows,
    lemma_preorder_distinct};

verus! {

/// Every node renders to at least one line, its own first.
pub proof fn lemma_lines_nonempty(v: NodeView)
    ensures
        lines(v).len() >= 1,
{
    match v {
        NodeView::Branch { name, children } => {
            assert(lines(v)[0] == name);
        },
        _ => {},
    }
}

/// Rendering depends on the tree alone: two trees of the same value, or the
/// same tree rendered twice, give the same lines.
pub proof fn law_rendering_is_repeatable(a: NodeView, b: NodeView)
    requires
        a == b,
    ensures
        lines(a) == lines(b),
{
}

/// A directory with exactly one child: the child's first line comes right
/// after the directory's name, behind the last-child connector and never
/// behind the one for a child with later siblings.
pub proof fn law_only_child_is_last(name: Seq<char>, child: NodeView)
    ensures
        lines(NodeView::Branch { name, children: seq![child] })[1] == corner() + lines(child)[0],
        lines(NodeView::Branch { name, children: seq![child] })[1].take(4) != tee(),
{
    let v = NodeView::Branch { name, children: seq![child] };
    lemma_lines_nonempty(child);
    let cs = seq![child];
    assert(cs.drop_last() =~= Seq::<NodeView>::empty());
    assert(stacked(cs.drop_last()) =~= Seq::<Seq<char>>::empty());
    let f = framed(lines(cs.last()), corner(), crate::render::blank());
    assert(lines(v) =~= seq![name] + f);
    assert(lines(v)[1] == f[0]);
    assert((corner() + lines(child)[0]).take(4)[0] == '└');
}

/// The components of a status record's path.
pub open spec fn record_path(r: StatusRecord) -> Seq<Seq<char>> {
    components(r.path->0@)
}

/// The file node of a status record.
pub open spec fn record_leaf(r: StatusRecord) -> NodeView {
    NodeView::Leaf { name: record_path(r).last(), class: classification_of(r.flags) }
}

/// A status list whose paths are all readable plain relative paths, none of
/// them equal to another or above another (a file is never also a directory).
pub open spec fn valid_records(recs: Seq<StatusRecord>) -> bool {
    &&& forall|k: int| 0 <= k < recs.len() ==> (#[trigger] recs[k]).path is Some && path_error(
        recs[k].path->0@,
    ) is None
    &&& forall|j: int, k: int|
        0 <= j < recs.len() && 0 <= k < recs.len() && j != k ==> !prefix_of(
            #[trigger] record_path(recs[j]),
            #[trigger] record_path(recs[k]),
        )
}

/// Some line of the outline is at path `q`.
pub open spec fn has_row(rows: Seq<Row>, q: Seq<Seq<char>>) -> bool {
    exists|i: int| 0 <= i < rows.len() && (#[trigger] rows[i]).0 == q
}

/// Some file line of the outline is at path `q`.
pub open spec fn has_file_row(rows: Seq<Row>, q: Seq<Seq<char>>) -> bool {
    exists|i: int| 0 <= i < rows.len() && (#[trigger] rows[i]).0 == q && rows[i].1 is Leaf
}

/// `q` is the root, or the path of a record or of a directory above one.
pub open spec fn on_some_path(recs: Seq<StatusRecord>, q: Seq<Seq<char>>) -> bool {
    q.len() == 0 || exists|k: int| 0 <= k < recs.len() && prefix_of(q, #[trigger] record_path(recs[k]))
}

/// `q` is the path of a record.
pub open spec fn is_some_path(recs: Seq<StatusRecord>, q: Seq<Seq<char>>) -> bool {
    exists|k: int| 0 <= k < recs.len() && q == #[trigger] record_path(recs[k])
}

/// The tree built from the first `k` records holds exactly the paths of those
/// records and the directories above them, with a file at each record's path.
proof fn lemma_entries_paths(name: Seq<char>, recs: Seq<StatusRecord>, k: int)
    requires
        valid_records(recs),
        0 <= k <= recs.len(),
    ensures
        entries_of(recs.take(k), true) is Ok,
        ({
            let cs = entries_of(recs.take(k), true)->Ok_0;
            let v = NodeView::Branch { name, children: cs };
            &&& sorted(cs)
            &&& all_wf(cs)
            &&& forall|q: Seq<Seq<char>>| (#[trigger] node_at(v, q) is Some) == (q.len() == 0 || exists|j: int|
                0 <= j < k && prefix_of(q, #[trigger] record_path(recs[j])))
            &&& forall|q: Seq<Seq<char>>| #[trigger] is_leaf_at(v, q) == (exists|j: int|
                0 <= j < k && q == #[trigger] record_path(recs[j]))
            &&& forall|q: Seq<Seq<char>>| !(#[trigger] is_summary_at(v, q))
            &&& forall|j: int| 0 <= j < k ==> node_at(v, #[trigger] record_path(recs[j])) == Some(record_leaf(recs[j]))
        }),
    decreases k,
{
    if k == 0 {
        assert(recs.take(0) =~= Seq::<StatusRecord>::empty());
        let v = NodeView::Branch { name, children: Seq::<NodeView>::empty() };
        assert forall|q: Seq<Seq<char>>| (#[trigger] node_at(v, q) is Some) == (q.len() == 0 || exists|j: int|
            0 <= j < k && prefix_of(q, #[trigger] record_path(recs[j]))) by {
            if q.len() > 0 {
                assert(child_at(Seq::<NodeView>::empty(), q[0]) is None);
            }
        }
        assert forall|q: Seq<Seq<char>>| #[trigger] is_leaf_at(v, q) == (exists|j: int|
            0 <= j < k && q == #[trigger] record_path(recs[j])) by {
            if q.len() > 0 {
                assert(child_at(Seq::<NodeView>::empty(), q[0]) is None);
            }
        }
        assert forall|q: Seq<Seq<char>>| !(#[trigger] is_summary_at(v, q)) by {
            if q.len() > 0 {
                assert(child_at(Seq::<NodeView>::empty(), q[0]) is None);
            }
        }
        return;
    }
    lemma_entries_paths(name, recs, k - 1);
    let prev = recs.take(k - 1);
    assert(recs.take(k).drop_last() =~= prev);
    assert(recs.take(k).last() == recs[k - 1]);
    let cs = entries_of(prev, true)->Ok_0;
    let old = NodeView::Branch { name, children: cs };
    let rec = recs[k - 1];
    assert(rec.path is Some && path_error(rec.path->0@) is None);
    let comps = record_path(rec);
    let dirs = comps.drop_last();
    let leaf = NodeView::Leaf { name: comps.last(), class: classification_of(rec.flags) };
    assert(comps.len() > 0);
    assert(dirs.push(comps.last()) =~= comps);
    let cs2 = inserted(cs, dirs, leaf);
    assert(entries_of(recs.take(k), true) == Ok::<Seq<NodeView>, PathError>(cs2));
    let new = NodeView::Branch { name, children: cs2 };
    lemma_inserted_wf(cs, dirs, leaf);
    assert(open_path(old, dirs, leaf.name())) by {
        assert forall|m: int| 1 <= m <= dirs.len() implies (#[trigger] node_at(old, dirs.take(m)) matches None
            || node_at(old, dirs.take(m)) matches Some(NodeView::Branch { .. })) by {
            let t = dirs.take(m);
            assert(comps.take(m) =~= t);
            if node_at(old, t) is Some {
                if is_leaf_at(old, t) {
                    let j = choose|j: int| 0 <= j < k - 1 && t == #[trigger] record_path(recs[j]);
                    assert(prefix_of(record_path(recs[j]), record_path(recs[k - 1])));
                }
                assert(!is_summary_at(old, t));
            }
        }
        if node_at(old, comps) is Some {
            let j = choose|j: int| 0 <= j < k - 1 && prefix_of(comps, #[trigger] record_path(recs[j]));
            assert(prefix_of(record_path(recs[k - 1]), record_path(recs[j])));
        }
    }
    assert forall|q: Seq<Seq<char>>| (#[trigger] node_at(new, q) is Some) == (q.len() == 0 || exists|j: int|
        0 <= j < k && prefix_of(q, #[trigger] record_path(recs[j]))) by {
        lemma_inserted_lookup(name, cs, dirs, leaf, q);
        if prefix_of(q, comps) {
            assert(prefix_of(q, record_path(recs[k - 1])));
        }
        if exists|j: int| 0 <= j < k && prefix_of(q, #[trigger] record_path(recs[j])) {
            let j = choose|j: int| 0 <= j < k && prefix_of(q, #[trigger] record_path(recs[j]));
            if j < k - 1 {
                assert(node_at(old, q) is Some);
            }
        }
    }
    assert forall|q: Seq<Seq<char>>| #[trigger] is_leaf_at(new, q) == (exists|j: int|
        0 <= j < k && q == #[trigger] record_path(recs[j])) by {
        lemma_inserted_lookup(name, cs, dirs, leaf, q);
        if q == comps {
            assert(q == record_path(recs[k - 1]));
        }
        if exists|j: int| 0 <= j < k && q == #[trigger] record_path(recs[j]) {
            let j = choose|j: int| 0 <= j < k && q == #[trigger] record_path(recs[j]);
            if j < k - 1 {
                assert(is_leaf_at(old, q));
            }
        }
    }
    assert forall|q: Seq<Seq<char>>| !(#[trigger] is_summary_at(new, q)) by {
        lemma_inserted_lookup(name, cs, dirs, leaf, q);
    }
    assert forall|j: int| 0 <= j < k implies node_at(new, #[trigger] record_path(recs[j])) == Some(record_leaf(recs[j])) by {
        let q = record_path(recs[j]);
        lemma_inserted_lookup(name, cs, dirs, leaf, q);
        if j < k - 1 {
            assert(is_leaf_at(old, q));
            assert(q != comps) by {
                if q == comps {
                    assert(prefix_of(record_path(recs[j]), record_path(recs[k - 1]))) by {
                        assert(comps.take(comps.len() as int) =~= comps);
                    }
                }
            }
        }
    }
}

/// Building the tree of a valid status list and rendering it gives lines that
/// each hold a margin of box-drawing units, one per level of depth, before the
/// label of their node; reading the depths and names back with a stack gives
/// each line's path below the root; those paths are exactly the list's
/// paths and the directories above them, each on exactly one line; the line
/// at a path of the list is that record's file, with its glyphs and style,
/// and every other line is a directory, labelled by its bare name.
pub proof fn law_rendered_tree_gives_back_paths(name: Seq<char>, recs: Seq<StatusRecord>)
    requires
        valid_records(recs),
    ensures
        entries_of(recs, true) is Ok,
        ({
            let v = NodeView::Branch { name, children: entries_of(recs, true)->Ok_0 };
            let rows = preorder(v);
            let read = reparse(depths_and_names(rows));
            &&& shaped(lines(v), rows)
            &&& read.len() == rows.len()
            &&& forall|i: int| 0 <= i < rows.len() ==> #[trigger] read[i] == seq![name] + rows[i].0
            &&& forall|q: Seq<Seq<char>>| #[trigger] has_row(rows, q) == on_some_path(recs, q)
            &&& forall|q: Seq<Seq<char>>| #[trigger] has_file_row(rows, q) == is_some_path(recs, q)
            &&& forall|i: int, j: int| 0 <= i < j < rows.len() ==> (#[trigger] rows[i]).0 != (#[trigger] rows[j]).0
            &&& forall|i: int, k: int|
                0 <= i < rows.len() && 0 <= k < recs.len() && (#[trigger] rows[i]).0 == #[trigger] record_path(recs[k])
                    ==> rows[i].1 == record_leaf(recs[k])
            &&& forall|i: int| 0 <= i < rows.len() && !is_some_path(recs, (#[trigger] rows[i]).0) ==> rows[i].1 is Branch
        }),
{
    lemma_entries_paths(name, recs, recs.len() as int);
    assert(recs.take(recs.len() as int) =~= recs);
    let v = NodeView::Branch { name, children: entries_of(recs, true)->Ok_0 };
    let rows = preorder(v);
    assert(v.wf());
    lemma_lines_shaped(v);
    lemma_preorder_nested(v);
    lemma_reparse_nested(rows);
    lemma_rows_found(v);
    lemma_preorder_distinct(v);
    assert forall|i: int, k: int|
        0 <= i < rows.len() && 0 <= k < recs.len() && (#[trigger] rows[i]).0 == #[trigger] record_path(recs[k])
            implies rows[i].1 == record_leaf(recs[k]) by {
        assert(node_at(v, rows[i].0) == Some(rows[i].1));
    }
    assert forall|i: int| 0 <= i < rows.len() && !is_some_path(recs, (#[trigger] rows[i]).0) implies rows[i].1 is Branch by {
        let q = rows[i].0;
        assert(node_at(v, q) == Some(rows[i].1));
        assert(!is_leaf_at(v, q));
        assert(!is_summary_at(v, q));
    }
    assert forall|q: Seq<Seq<char>>| #[trigger] has_row(rows, q) == on_some_path(recs, q) by {
        if exists|i: int| 0 <= i < rows.len() && (#[trigger] rows[i]).0 == q {
            let i = choose|i: int| 0 <= i < rows.len() && (#[trigger] rows[i]).0 == q;
            assert(node_at(v, rows[i].0) == Some(rows[i].1));
        }
        if node_at(v, q) is Some {
            lemma_found_rows(v, q);
            let i = choose|i: int| 0 <= i < rows.len() && #[trigger] rows[i] == (q, node_at(v, q)->0);
            assert(rows[i].0 == q);
        }
    }
    assert forall|q: Seq<Seq<char>>| #[trigger] has_file_row(rows, q) == is_some_path(recs, q) by {
        if exists|i: int| 0 <= i < rows.len() && (#[trigger] rows[i]).0 == q && rows[i].1 is Leaf {
            let i = choose|i: int| 0 <= i < rows.len() && (#[trigger] rows[i]).0 == q && rows[i].1 is Leaf;
            assert(node_at(v, rows[i].0) == Some(rows[i].1));
            assert(is_leaf_at(v, q));
        }
        if is_leaf_at(v, q) {
            lemma_found_rows(v, q);
            let i = choose|i: int| 0 <= i < rows.len() && #[trigger] rows[i] == (q, node_at(v, q)->0);
            assert(rows[i].0 == q && rows[i].1 is Leaf);
        }
    }
}

proof fn lemma_blocks_in_name_order(cs: Seq<NodeView>)
    requires
        sorted(cs),
    ensures
        forall|i: int| 0 <= i < blocks(cs).len() ==> exists|k: int| 0 <= k < cs.len() && (#[trigger] blocks(cs)[i]).0[0] == cs[k].name(),
        forall|i: int, j: int|
            0 <= i < j < blocks(cs).len() && (#[trigger] blocks(cs)[i]).0.len() == 1 && (#[trigger] blocks(cs)[j]).0.len() == 1
                ==> precedes(blocks(cs)[i].0[0], blocks(cs)[j].0[0]),
    decreases cs.len(),
{
    if cs.len() == 0 {
        assert(blocks(cs) =~= Seq::<Row>::empty());
        return;
    }
    let init = cs.drop_last();
    let last = cs.last();
    assert(sorted(init)) by {
        assert forall|a: int, b: int| 0 <= a < b < init.len() implies precedes(
            #[trigger] init[a].name(),
            #[trigger] init[b].name(),
        ) by {
            assert(init[a] == cs[a] && init[b] == cs[b]);
        }
    }
    lemma_blocks_in_name_order(init);
    lemma_preorder_nested(last);
    let bi = blocks(init);
    let pl = preorder(last);
    let u = under(last.name(), pl);
    let b = blocks(cs);
    assert(b == bi + u);
    assert forall|i: int| 0 <= i < b.len() implies exists|k: int| 0 <= k < cs.len() && (#[trigger] b[i]).0[0] == cs[k].name() by {
        if i < bi.len() {
            assert(b[i] == bi[i]);
            let k = choose|k: int| 0 <= k < init.len() && bi[i].0[0] == init[k].name();
            assert(cs[k] == init[k]);
        } else {
            assert(b[i] == u[i - bi.len()]);
            assert(b[i].0[0] == cs[cs.len() - 1].name());
        }
    }
    assert forall|i: int, j: int|
        0 <= i < j < b.len() && (#[trigger] b[i]).0.len() == 1 && (#[trigger] b[j]).0.len() == 1
            implies precedes(b[i].0[0], b[j].0[0]) by {
        if j < bi.len() {
            assert(b[i] == bi[i] && b[j] == bi[j]);
        } else {
            let jj = j - bi.len();
            assert(b[j] == u[jj]);
            if jj > 0 {
                assert(steps_down(pl, jj));
            }
            assert(jj == 0);
            assert(i < bi.len());
            assert(b[i] == bi[i]);
            let k = choose|k: int| 0 <= k < init.len() && bi[i].0[0] == init[k].name();
            assert(cs[k] == init[k]);
            assert(b[j].0[0] == last.name());
        }
    }
}

/// The children of a well-formed directory are rendered in strictly
/// increasing order of name: of any two lines one level below the directory,
/// the earlier one carries the name that comes first.
pub proof fn law_children_in_name_order(name: Seq<char>, children: Seq<NodeView>)
    requires
        (NodeView::Branch { name, children }).wf(),
    ensures
        ({
            let rows = preorder(NodeView::Branch { name, children });
            forall|i: int, j: int|
                0 <= i < j < rows.len() && (#[trigger] rows[i]).0.len() == 1 && (#[trigger] rows[j]).0.len() == 1
                    ==> precedes(rows[i].0[0], rows[j].0[0])
        }),
{
    let v = NodeView::Branch { name, children };
    let rows = preorder(v);
    let b = blocks(children);
    lemma_blocks_in_name_order(children);
    assert(rows == seq![(Seq::<Seq<char>>::empty(), v)] + b);
    assert forall|i: int, j: int|
        0 <= i < j < rows.len() && (#[trigger] rows[i]).0.len() == 1 && (#[trigger] rows[j]).0.len() == 1
            implies precedes(rows[i].0[0], rows[j].0[0]) by {
        assert(i > 0);
        assert(rows[i] == b[i - 1] && rows[j] == b[j - 1]);
    }
}

proof fn lemma_each_record_in_other(recs1: Seq<StatusRecord>, recs2: Seq<StatusRecord>)
    requires
        forall|r: StatusRecord| #[trigger] recs1.contains(r) == recs2.contains(r),
    ensures
        forall|j: int| 0 <= j < recs1.len() ==> recs2.contains(#[trigger] recs1[j]),
{
    assert forall|j: int| 0 <= j < recs1.len() implies recs2.contains(#[trigger] recs1[j]) by {
        assert(recs1.contains(recs1[j]));
    }
}

/// Building a tree does not depend on the order of the status records: two
/// valid lists that hold the same records give the same tree, and so render
/// to the same lines.
pub proof fn law_record_order_is_irrelevant(name: Seq<char>, recs1: Seq<StatusRecord>, recs2: Seq<StatusRecord>)
    requires
        valid_records(recs1),
        valid_records(recs2),
        forall|r: StatusRecord| #[trigger] recs1.contains(r) == recs2.contains(r),
    ensures
        entries_of(recs1, true) is Ok,
        entries_of(recs1, true) == entries_of(recs2, true),
{
    lemma_entries_paths(name, recs1, recs1.len() as int);
    lemma_entries_paths(name, recs2, recs2.len() as int);
    assert(recs1.take(recs1.len() as int) =~= recs1);
    assert(recs2.take(recs2.len() as int) =~= recs2);
    let v1 = NodeView::Branch { name, children: entries_of(recs1, true)->Ok_0 };
    let v2 = NodeView::Branch { name, children: entries_of(recs2, true)->Ok_0 };
    lemma_each_record_in_other(recs1, recs2);
    lemma_each_record_in_other(recs2, recs1);
    assert forall|q: Seq<Seq<char>>| (#[trigger] node_at(v1, q) is Some) == (node_at(v2, q) is Some) by {
        if q.len() > 0 {
            if exists|j: int| 0 <= j < recs1.len() && prefix_of(q, #[trigger] record_path(recs1[j])) {
                let j = choose|j: int| 0 <= j < recs1.len() && prefix_of(q, #[trigger] record_path(recs1[j]));
                assert(recs2.contains(recs1[j]));
                let k = choose|k: int| 0 <= k < recs2.len() && recs2[k] == recs1[j];
                assert(prefix_of(q, record_path(recs2[k])));
            }
            if exists|j: int| 0 <= j < recs2.len() && prefix_of(q, #[trigger] record_path(recs2[j])) {
                let j = choose|j: int| 0 <= j < recs2.len() && prefix_of(q, #[trigger] record_path(recs2[j]));
                assert(recs1.contains(recs2[j]));
                let k = choose|k: int| 0 <= k < recs1.len() && recs1[k] == recs2[j];
                assert(prefix_of(q, record_path(recs1[k])));
            }
        }
    }
    assert forall|q: Seq<Seq<char>>| #[trigger] is_leaf_at(v1, q) implies node_at(v2, q) == node_at(v1, q) by {
        let j = choose|j: int| 0 <= j < recs1.len() && q == #[trigger] record_path(recs1[j]);
        assert(recs2.contains(recs1[j]));
                let k = choose|k: int| 0 <= k < recs2.len() && recs2[k] == recs1[j];
        assert(node_at(v2, record_path(recs2[k])) == Some(record_leaf(recs2[k])));
    }
    assert forall|q: Seq<Seq<char>>| #[trigger] is_leaf_at(v2, q) implies node_at(v1, q) == node_at(v2, q) by {
        let j = choose|j: int| 0 <= j < recs2.len() && q == #[trigger] record_path(recs2[j]);
        assert(recs1.contains(recs2[j]));
                let k = choose|k: int| 0 <= k < recs1.len() && recs1[k] == recs2[j];
        assert(node_at(v1, record_path(recs1[k])) == Some(record_leaf(recs1[k])));
    }
    assert(v1.wf() && v2.wf());
    lemma_tree_ext(v1, v2);
}

} // verus!

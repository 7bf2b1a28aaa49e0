//! The status tree: directories, changed files and collapsed repositories,
//! keyed by path component.
use vstd::prelude::*;
use crate::names::{precedes, compare_names, lemma_precedes_irreflexive,
    lemma_precedes_asymmetric, lemma_precedes_total, lemma_precedes_transitive};
use crate::status::Classification;
use crate::path::{strings_view, split_path, components, path_error, PathError, is_name,
    lemma_components_are_names};

verus! {

/// Aggregate change counts of a repository against its current commit.
pub struct DiffStat {
    /// The name of the current branch.
    pub branch: String,
    pub files_changed: usize,
    pub insertions: usize,
    pub deletions: usize,
}

/// A changed file.
pub struct Leaf {
    pub name: String,
    pub class: Classification,
}

/// A whole repository collapsed to its change counts.
pub struct Summary {
    pub name: String,
    pub stats: DiffStat,
}

/// A directory: its children are kept in strictly increasing order of name.
pub struct Branch {
    pub name: String,
    pub children: Vec<Node>,
}

pub enum Node {
    Branch(Branch),
    Summary(Summary),
    Leaf(Leaf),
}

/// The mathematical value of a node.
pub enum NodeView {
    Branch { name: Seq<char>, children: Seq<NodeView> },
    Summary {
        name: Seq<char>,
        branch: Seq<char>,
        files_changed: nat,
        insertions: nat,
        deletions: nat,
    },
    Leaf { name: Seq<char>, class: Classification },
}

pub open spec fn node_view(n: Node) -> NodeView
    decreases n,
{
    match n {
        Node::Branch(b) => NodeView::Branch { name: b.name@, children: nodes_view(b.children@) },
        Node::Summary(s) => NodeView::Summary {
            name: s.name@,
            branch: s.stats.branch@,
            files_changed: s.stats.files_changed as nat,
            insertions: s.stats.insertions as nat,
            deletions: s.stats.deletions as nat,
        },
        Node::Leaf(l) => NodeView::Leaf { name: l.name@, class: l.class },
    }
}

pub open spec fn nodes_view(cs: Seq<Node>) -> Seq<NodeView>
    decreases cs,
{
    if cs.len() == 0 {
        Seq::empty()
    } else {
        nodes_view(cs.drop_last()).push(node_view(cs.last()))
    }
}

impl View for Node {
    type V = NodeView;

    open spec fn view(&self) -> NodeView {
        node_view(*self)
    }
}

impl View for Branch {
    type V = NodeView;

    open spec fn view(&self) -> NodeView {
        NodeView::Branch { name: self.name@, children: nodes_view(self.children@) }
    }
}

pub proof fn lemma_nodes_view(cs: Seq<Node>)
    ensures
        nodes_view(cs).len() == cs.len(),
        forall|i: int| 0 <= i < cs.len() ==> #[trigger] nodes_view(cs)[i] == node_view(cs[i]),
    decreases cs.len(),
{
    if cs.len() > 0 {
        lemma_nodes_view(cs.drop_last());
    }
}

pub proof fn lemma_nodes_view_ext(a: Seq<Node>, b: Seq<NodeView>)
    requires
        a.len() == b.len(),
        forall|i: int| 0 <= i < a.len() ==> node_view(#[trigger] a[i]) == b[i],
    ensures
        nodes_view(a) == b,
{
    lemma_nodes_view(a);
    assert(nodes_view(a) =~= b);
}

impl NodeView {
    pub open spec fn name(self) -> Seq<char> {
        match self {
            NodeView::Branch { name, .. } => name,
            NodeView::Summary { name, .. } => name,
            NodeView::Leaf { name, .. } => name,
        }
    }

    /// Every directory's children are in strictly increasing order of name.
    pub open spec fn wf(self) -> bool
        decreases self,
    {
        match self {
            NodeView::Branch { children, .. } => {
                &&& sorted(children)
                &&& forall|i: int| 0 <= i < children.len() ==> (#[trigger] children[i]).wf()
            },
            _ => true,
        }
    }
}

/// Names strictly increase along `cs`.
pub open spec fn sorted(cs: Seq<NodeView>) -> bool {
    forall|i: int, j: int|
        0 <= i < j < cs.len() ==> precedes(#[trigger] cs[i].name(), #[trigger] cs[j].name())
}

/// `cs` with `n` placed by name: in place of the child of the same name if
/// there is one, else before the first child whose name comes after it.
pub open spec fn insert_sorted(cs: Seq<NodeView>, n: NodeView) -> Seq<NodeView>
    decreases cs.len(),
{
    if cs.len() == 0 {
        seq![n]
    } else if cs[0].name() == n.name() {
        seq![n] + cs.drop_first()
    } else if precedes(n.name(), cs[0].name()) {
        seq![n] + cs
    } else {
        seq![cs[0]] + insert_sorted(cs.drop_first(), n)
    }
}

proof fn lemma_insert_sorted_at(cs: Seq<NodeView>, n: NodeView, i: int)
    requires
        0 <= i <= cs.len(),
        forall|k: int| 0 <= k < i ==> precedes(#[trigger] cs[k].name(), n.name()),
    ensures
        insert_sorted(cs, n) == cs.subrange(0, i) + insert_sorted(cs.subrange(i, cs.len() as int), n),
    decreases i,
{
    if i > 0 {
        lemma_precedes_irreflexive(n.name());
        lemma_precedes_asymmetric(cs[0].name(), n.name());
        let t = cs.drop_first();
        assert forall|k: int| 0 <= k < i - 1 implies precedes(#[trigger] t[k].name(), n.name()) by {
            assert(t[k] == cs[k + 1]);
        }
        lemma_insert_sorted_at(t, n, i - 1);
        assert(t.subrange(0, i - 1) =~= cs.subrange(1, i));
        assert(t.subrange(i - 1, t.len() as int) =~= cs.subrange(i, cs.len() as int));
        assert(cs.subrange(0, i) =~= seq![cs[0]] + cs.subrange(1, i));
    } else {
        assert(cs.subrange(0, 0) + insert_sorted(cs.subrange(0, cs.len() as int), n) =~= insert_sorted(cs, n)) by {
            assert(cs.subrange(0, cs.len() as int) =~= cs);
        }
    }
}

/// Placing a well-formed node keeps the children sorted and well-formed.
pub proof fn lemma_insert_sorted_wf(cs: Seq<NodeView>, n: NodeView)
    requires
        sorted(cs),
    ensures
        sorted(insert_sorted(cs, n)),
        forall|k: int| 0 <= k < insert_sorted(cs, n).len() ==>
            (#[trigger] insert_sorted(cs, n)[k] == n || cs.contains(insert_sorted(cs, n)[k])),
        insert_sorted(cs, n).contains(n),
    decreases cs.len(),
{
    let r = insert_sorted(cs, n);
    if cs.len() == 0 {
        assert(r[0] == n);
    } else if cs[0].name() == n.name() {
        assert(r[0] == n);
        assert forall|k: int| 0 <= k < r.len() implies (#[trigger] r[k] == n || cs.contains(r[k])) by {
            if k > 0 {
                assert(r[k] == cs[k]);
            }
        }
    } else if precedes(n.name(), cs[0].name()) {
        assert(r[0] == n);
        assert forall|i: int, j: int| 0 <= i < j < r.len() implies precedes(
            #[trigger] r[i].name(),
            #[trigger] r[j].name(),
        ) by {
            if i == 0 && j > 1 {
                lemma_precedes_transitive(n.name(), cs[0].name(), cs[j - 1].name());
            }
        }
        assert forall|k: int| 0 <= k < r.len() implies (#[trigger] r[k] == n || cs.contains(r[k])) by {
            if k > 0 {
                assert(r[k] == cs[k - 1]);
            }
        }
    } else {
        let t = cs.drop_first();
        assert(sorted(t)) by {
            assert forall|i: int, j: int| 0 <= i < j < t.len() implies precedes(
                #[trigger] t[i].name(),
                #[trigger] t[j].name(),
            ) by {
                assert(t[i] == cs[i + 1] && t[j] == cs[j + 1]);
            }
        }
        lemma_insert_sorted_wf(t, n);
        lemma_precedes_total(cs[0].name(), n.name());
        let rt = insert_sorted(t, n);
        assert(r == seq![cs[0]] + rt);
        assert forall|k: int| 0 <= k < r.len() implies (#[trigger] r[k] == n || cs.contains(r[k])) by {
            if k > 0 {
                assert(r[k] == rt[k - 1]);
                if rt[k - 1] != n {
                    let m = choose|m: int| 0 <= m < t.len() && t[m] == rt[k - 1];
                    assert(cs[m + 1] == r[k]);
                }
            } else {
                assert(cs[0] == r[0]);
            }
        }
        assert forall|i: int, j: int| 0 <= i < j < r.len() implies precedes(
            #[trigger] r[i].name(),
            #[trigger] r[j].name(),
        ) by {
            if i == 0 {
                assert(r[j] == rt[j - 1]);
                if rt[j - 1] != n {
                    let m = choose|m: int| 0 <= m < t.len() && t[m] == rt[j - 1];
                    assert(cs[m + 1] == r[j]);
                }
            } else {
                assert(r[i] == rt[i - 1] && r[j] == rt[j - 1]);
            }
        }
        assert(r.contains(n)) by {
            let m = choose|m: int| 0 <= m < rt.len() && rt[m] == n;
            assert(r[m + 1] == n);
        }
    }
}


/// `cs` with `n` added under the directories `dirs`: each directory is looked
/// up by name and created empty where it is missing; where a name on the way
/// belongs to something other than a directory, nothing changes.
pub open spec fn inserted(cs: Seq<NodeView>, dirs: Seq<Seq<char>>, n: NodeView) -> Seq<NodeView>
    decreases dirs.len(),
{
    if dirs.len() == 0 {
        insert_sorted(cs, n)
    } else if exists|i: int| 0 <= i < cs.len() && (#[trigger] cs[i]).name() == dirs[0] {
        let i = choose|i: int| 0 <= i < cs.len() && (#[trigger] cs[i]).name() == dirs[0];
        match cs[i] {
            NodeView::Branch { name, children } => cs.update(
                i,
                NodeView::Branch { name, children: inserted(children, dirs.drop_first(), n) },
            ),
            _ => cs,
        }
    } else {
        insert_sorted(
            cs,
            NodeView::Branch { name: dirs[0], children: inserted(Seq::empty(), dirs.drop_first(), n) },
        )
    }
}

pub proof fn lemma_sorted_unique(cs: Seq<NodeView>, i: int, j: int)
    requires
        sorted(cs),
        0 <= i < cs.len(),
        0 <= j < cs.len(),
        cs[i].name() == cs[j].name(),
    ensures
        i == j,
{
    if i < j {
        lemma_precedes_irreflexive(cs[i].name());
    } else if j < i {
        lemma_precedes_irreflexive(cs[i].name());
    }
}

impl Node {
    /// The name of this node.
    pub fn name(&self) -> (r: &String)
        ensures
            r@ == self@.name(),
    {
        match self {
            Node::Branch(b) => &b.name,
            Node::Summary(s) => &s.name,
            Node::Leaf(l) => &l.name,
        }
    }
}

impl Branch {
    /// An empty directory.
    pub fn new(name: String) -> (r: Branch)
        ensures
            r@ == (NodeView::Branch { name: name@, children: Seq::empty() }),
            r@.wf(),
    {
        let r = Branch { name, children: Vec::new() };
        proof {
            assert(nodes_view(r.children@) =~= Seq::<NodeView>::empty());
        }
        r
    }

    pub open spec fn kids(&self) -> Seq<NodeView> {
        nodes_view(self.children@)
    }

    /// Adds `node` as a child under its own name, replacing the child of that
    /// name if there is one.
    pub fn add_node(&mut self, node: Node)
        requires
            old(self)@.wf(),
            node@.wf(),
        ensures
            final(self)@.wf(),
            final(self).name == old(self).name,
            final(self).kids() == insert_sorted(old(self).kids(), node@),
    {
        let ghost old_kids = self.kids();
        proof {
            lemma_nodes_view(self.children@);
        }
        let key = node.name().as_str();
        let n = self.children.len();
        let mut i: usize = 0;
        let mut placed_before = false;
        while i < n
            invariant_except_break
                0 <= i <= n,
                n == self.children.len(),
                self.kids() == old_kids,
                key@ == node@.name(),
                forall|k: int| 0 <= k < i ==> precedes(#[trigger] old_kids[k].name(), node@.name()),
            ensures
                0 <= i <= n,
                n == self.children.len(),
                self.kids() == old_kids,
                key@ == node@.name(),
                forall|k: int| 0 <= k < i ==> precedes(#[trigger] old_kids[k].name(), node@.name()),
                i < n ==> !precedes(old_kids[i as int].name(), node@.name()),
            decreases n - i,
        {
            proof {
                lemma_nodes_view(self.children@);
            }
            match compare_names(self.children[i].name().as_str(), key) {
                std::cmp::Ordering::Less => {},
                _ => break,
            }
            i = i + 1;
        }
        proof {
            lemma_insert_sorted_at(old_kids, node@, i as int);
            lemma_insert_sorted_wf(old_kids, node@);
        }
        let ghost nv = node@;
        let same = i < n && match compare_names(self.children[i].name().as_str(), key) {
            std::cmp::Ordering::Equal => true,
            _ => false,
        };
        if same {
            self.children.remove(i);
            self.children.insert(i, node);
            proof {
                let t = old_kids.subrange(i as int, old_kids.len() as int);
                assert(insert_sorted(t, nv) == seq![nv] + t.drop_first());
                lemma_nodes_view_ext(self.children@, insert_sorted(old_kids, nv));
            }
        } else {
            self.children.insert(i, node);
            proof {
                let t = old_kids.subrange(i as int, old_kids.len() as int);
                if i < n {
                    lemma_precedes_total(old_kids[i as int].name(), nv.name());
                    assert(insert_sorted(t, nv) == seq![nv] + t);
                } else {
                    assert(insert_sorted(t, nv) == seq![nv]);
                }
                lemma_nodes_view_ext(self.children@, insert_sorted(old_kids, nv));
            }
        }
        proof {
            let r = insert_sorted(old_kids, nv);
            assert forall|k: int| 0 <= k < r.len() implies (#[trigger] r[k]).wf() by {
                if r[k] != nv {
                    let m = choose|m: int| 0 <= m < old_kids.len() && old_kids[m] == r[k];
                }
            }
        }
    }
    /// Adds `node` as a child of the directory reached from this one through
    /// the names `dirs[k..]`, creating the directories that are missing. The
    /// names must be plain: a path that holds `.`, `..` or an absolute root is
    /// refused before this point, by `split_path`.
    pub fn add_node_at_path(&mut self, node: Node, dirs: &Vec<String>, k: usize)
        requires
            old(self)@.wf(),
            node@.wf(),
            k <= dirs.len(),
            forall|j: int| k <= j < dirs.len() ==> is_name(#[trigger] dirs@[j]@),
        ensures
            final(self)@.wf(),
            final(self).name == old(self).name,
            final(self).kids() == inserted(old(self).kids(), strings_view(dirs@).skip(k as int), node@),
        decreases dirs.len() - k,
    {
        let ghost old_kids = self.kids();
        let ghost path = strings_view(dirs@).skip(k as int);
        if k == dirs.len() {
            proof {
                assert(path.len() == 0);
            }
            self.add_node(node);
            return;
        }
        proof {
            assert(path[0] == dirs@[k as int]@);
            assert(strings_view(dirs@).skip(k + 1) =~= path.drop_first());
        }
        let n = self.children.len();
        let mut i: usize = 0;
        while i < n
            invariant_except_break
                0 <= i <= n,
                n == self.children.len(),
                self.kids() == old_kids,
                k < dirs.len(),
                forall|j: int| 0 <= j < i ==> (#[trigger] old_kids[j]).name() != dirs@[k as int]@,
            ensures
                0 <= i <= n,
                n == self.children.len(),
                self.kids() == old_kids,
                forall|j: int| 0 <= j < i ==> (#[trigger] old_kids[j]).name() != dirs@[k as int]@,
                i < n ==> old_kids[i as int].name() == dirs@[k as int]@,
            decreases n - i,
        {
            proof {
                lemma_nodes_view(self.children@);
            }
            if self.children[i].name().eq(&dirs[k]) {
                break;
            }
            i = i + 1;
        }
        proof {
            lemma_nodes_view(self.children@);
        }
        if i < n {
            proof {
                assert forall|j: int| 0 <= j < old_kids.len() && (#[trigger] old_kids[j]).name() == path[0]
                    implies j == i by {
                    lemma_sorted_unique(old_kids, i as int, j);
                }
            }
            let child = self.children.remove(i);
            match child {
                Node::Branch(mut b) => {
                    proof {
                        assert(old_kids[i as int] == b@);
                    }
                    b.add_node_at_path(node, dirs, k + 1);
                    self.children.insert(i, Node::Branch(b));
                    proof {
                        let r = inserted(old_kids, path, node@);
                        lemma_nodes_view_ext(self.children@, r);
                        assert forall|x: int, y: int| 0 <= x < y < r.len() implies precedes(
                            #[trigger] r[x].name(),
                            #[trigger] r[y].name(),
                        ) by {
                            assert(old_kids[x].name() == r[x].name());
                            assert(old_kids[y].name() == r[y].name());
                        }
                        assert forall|x: int| 0 <= x < r.len() implies (#[trigger] r[x]).wf() by {
                            if x != i {
                                assert(r[x] == old_kids[x]);
                            }
                        }
                    }
                },
                other => {
                    self.children.insert(i, other);
                    proof {
                        assert(self.children@ =~= old(self).children@);
                    }
                },
            }
        } else {
            let mut b = Branch::new(dirs[k].clone());
            b.add_node_at_path(node, dirs, k + 1);
            proof {
                assert(b.kids() == inserted(Seq::empty(), path.drop_first(), node@));
            }
            self.add_node(Node::Branch(b));
        }
    }
    /// Adds a changed file at the relative `path`, under its last component
    /// as name, creating the directories on the way that are missing.
    pub fn add_leaf_at_path(&mut self, path: &str, class: Classification) -> (r: Result<(), PathError>)
        requires
            old(self)@.wf(),
        ensures
            final(self)@.wf(),
            final(self).name == old(self).name,
            match r {
                Ok(()) => {
                    &&& path_error(path@) is None
                    &&& final(self).kids() == inserted(
                        old(self).kids(),
                        components(path@).drop_last(),
                        NodeView::Leaf { name: components(path@).last(), class },
                    )
                },
                Err(e) => path_error(path@) == Some(e) && *final(self) == *old(self),
            },
    {
        match split_path(path) {
            Ok((dirs, file)) => {
                let leaf = Node::Leaf(Leaf { name: file, class });
                proof {
                    lemma_components_are_names(path@);
                    assert forall|j: int| 0 <= j < dirs.len() implies is_name(#[trigger] dirs@[j]@) by {
                        assert(dirs@[j]@ == strings_view(dirs@)[j]);
                        let c = components(path@);
                        assert(strings_view(dirs@) == c.drop_last());
                        assert(strings_view(dirs@).len() == dirs@.len());
                        assert(c.drop_last().len() == c.len() - 1);
                        assert(c.drop_last()[j] == c[j]);
                        assert(is_name(c[j]));
                    }
                }
                self.add_node_at_path(leaf, &dirs, 0);
                proof {
                    assert(strings_view(dirs@).skip(0) =~= strings_view(dirs@));
                }
                Ok(())
            },
            Err(e) => Err(e),
        }
    }
}

} // verus!

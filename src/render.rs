//! Rendering of a tree as box-drawn lines.
use vstd::prelude::*;
use vstd::string::StringExecFns;
use crate::names::string_of;
use crate::paint::{Tint, painted, decimal_of, push_painted, decimal};
use crate::path::strings_view;
use crate::status::{Style, style_of, Classification};
use crate::tree::{Node, NodeView, Branch, Leaf, Summary, lemma_nodes_view};

verus! {

/// Connector in front of the first line of a child that has later siblings.
pub open spec fn tee() -> Seq<char> {
    seq!['├', '─', '─', ' ']
}

/// Margin of the following lines of a child that has later siblings.
pub open spec fn bar() -> Seq<char> {
    seq!['│', ' ', ' ', ' ']
}

/// Connector in front of the first line of the last child.
pub open spec fn corner() -> Seq<char> {
    seq!['└', '─', '─', ' ']
}

/// Margin of the following lines of the last child.
pub open spec fn blank() -> Seq<char> {
    seq![' ', ' ', ' ', ' ']
}

/// `ls` with `first` put in front of its first line and `rest` in front of
/// each other line.
pub open spec fn framed(ls: Seq<Seq<char>>, first: Seq<char>, rest: Seq<char>) -> Seq<Seq<char>> {
    Seq::new(ls.len(), |j: int| if j == 0 { first + ls[j] } else { rest + ls[j] })
}

pub open spec fn style_tint(s: Style) -> Tint {
    match s {
        Style::ModifiedPlain => Tint::Red,
        Style::ModifiedEmphasized => Tint::RedBold,
        Style::NewPlain => Tint::Green,
        Style::NewEmphasized => Tint::GreenBold,
        Style::Ignored => Tint::Blue,
        Style::Default => Tint::White,
    }
}

/// The line of a changed file: its two glyphs in gray, a space, and its name
/// in the colour of its category.
pub open spec fn leaf_label(name: Seq<char>, class: Classification) -> Seq<char> {
    painted(Tint::Gray, seq![class.index_glyph]) + painted(Tint::Gray, seq![class.worktree_glyph])
        + seq![' '] + painted(style_tint(style_of(class.category)), name)
}

/// The line of a collapsed repository: `name [branch] +insertions -deletions
/// (files)`, with the branch in gray and the three counts in green, red and
/// yellow.
pub open spec fn summary_label(
    name: Seq<char>,
    branch: Seq<char>,
    files_changed: nat,
    insertions: nat,
    deletions: nat,
) -> Seq<char> {
    name + seq![' '] + painted(Tint::Gray, seq!['['] + branch + seq![']']) + seq![' ', '+']
        + painted(Tint::Green, decimal_of(insertions)) + seq![' ', '-'] + painted(
        Tint::Red,
        decimal_of(deletions),
    ) + seq![' ', '('] + painted(Tint::Yellow, decimal_of(files_changed)) + seq![')']
}

/// The lines of a node: one for a file or a repository; for a directory, its
/// name, then the lines of each child in order, framed by `tee` and `bar`,
/// the last child's by `corner` and `blank`.
pub open spec fn lines(v: NodeView) -> Seq<Seq<char>>
    decreases v,
{
    match v {
        NodeView::Leaf { name, class } => seq![leaf_label(name, class)],
        NodeView::Summary { name, branch, files_changed, insertions, deletions } => seq![
            summary_label(name, branch, files_changed, insertions, deletions),
        ],
        NodeView::Branch { name, children } => if children.len() == 0 {
            seq![name]
        } else {
            seq![name] + stacked(children.drop_last()) + framed(
                lines(children.last()),
                corner(),
                blank(),
            )
        },
    }
}

/// The lines of children that each have a later sibling.
pub open spec fn stacked(cs: Seq<NodeView>) -> Seq<Seq<char>>
    decreases cs,
{
    if cs.len() == 0 {
        Seq::empty()
    } else {
        stacked(cs.drop_last()) + framed(lines(cs.last()), tee(), bar())
    }
}

/// The lines joined into one text, each ended by a newline.
pub open spec fn joined(ls: Seq<Seq<char>>) -> Seq<char>
    decreases ls.len(),
{
    if ls.len() == 0 {
        Seq::empty()
    } else {
        joined(ls.drop_last()) + ls.last() + seq!['\n']
    }
}

fn push_framed(out: &mut Vec<String>, ls: &Vec<String>, first: &str, rest: &str)
    ensures
        strings_view(final(out)@) == strings_view(old(out)@) + framed(strings_view(ls@), first@, rest@),
{
    let ghost start = strings_view(out@);
    let ghost target = framed(strings_view(ls@), first@, rest@);
    let mut j: usize = 0;
    while j < ls.len()
        invariant
            0 <= j <= ls.len(),
            strings_view(out@) == start + target.take(j as int),
            target == framed(strings_view(ls@), first@, rest@),
        decreases ls.len() - j,
    {
        let mut s = if j == 0 {
            String::from_str(first)
        } else {
            String::from_str(rest)
        };
        s.append(ls[j].as_str());
        let ghost before = strings_view(out@);
        out.push(s);
        proof {
            assert(strings_view(out@) =~= before.push(s@));
            assert(target.take(j + 1) =~= target.take(j as int).push(target[j as int]));
        }
        j = j + 1;
    }
    proof {
        assert(target.take(j as int) =~= target);
    }
}

impl Leaf {
    /// The line of this file.
    pub fn label(&self) -> (r: String)
        ensures
            r@ == leaf_label(self.name@, self.class),
    {
        let mut s = String::new();
        let index_glyph = string_of(&vec![self.class.index_glyph]);
        let worktree_glyph = string_of(&vec![self.class.worktree_glyph]);
        push_painted(&mut s, Tint::Gray, index_glyph.as_str());
        push_painted(&mut s, Tint::Gray, worktree_glyph.as_str());
        s.append(" ");
        let tint = match self.class.category.style() {
            Style::ModifiedPlain => Tint::Red,
            Style::ModifiedEmphasized => Tint::RedBold,
            Style::NewPlain => Tint::Green,
            Style::NewEmphasized => Tint::GreenBold,
            Style::Ignored => Tint::Blue,
            Style::Default => Tint::White,
        };
        push_painted(&mut s, tint, self.name.as_str());
        proof {
            reveal_strlit(" ");
            assert(index_glyph@ =~= seq![self.class.index_glyph]);
        }
        s
    }
}

impl Summary {
    /// The line of this repository.
    pub fn label(&self) -> (r: String)
        ensures
            r@ == summary_label(
                self.name@,
                self.stats.branch@,
                self.stats.files_changed as nat,
                self.stats.insertions as nat,
                self.stats.deletions as nat,
            ),
    {
        let mut s = self.name.clone();
        s.append(" ");
        let mut bracketed = String::from_str("[");
        bracketed.append(self.stats.branch.as_str());
        bracketed.append("]");
        push_painted(&mut s, Tint::Gray, bracketed.as_str());
        s.append(" +");
        let insertions = decimal(self.stats.insertions);
        push_painted(&mut s, Tint::Green, insertions.as_str());
        s.append(" -");
        let deletions = decimal(self.stats.deletions);
        push_painted(&mut s, Tint::Red, deletions.as_str());
        s.append(" (");
        let files = decimal(self.stats.files_changed);
        push_painted(&mut s, Tint::Yellow, files.as_str());
        s.append(")");
        proof {
            reveal_strlit(" ");
            reveal_strlit("[");
            reveal_strlit("]");
            reveal_strlit(" +");
            reveal_strlit(" -");
            reveal_strlit(" (");
            reveal_strlit(")");
        }
        s
    }
}

impl Branch {
    /// The lines of this directory and everything under it.
    pub fn lines(&self) -> (r: Vec<String>)
        requires
            self@.wf(),
        ensures
            strings_view(r@) == lines(self@),
        decreases self,
    {
        let ghost kids = self.kids();
        proof {
            lemma_nodes_view(self.children@);
            reveal_strlit("├── ");
            reveal_strlit("│   ");
            reveal_strlit("└── ");
            reveal_strlit("    ");
        }
        let mut out: Vec<String> = Vec::new();
        out.push(self.name.clone());
        proof {
            assert(stacked(kids.take(0)) =~= Seq::<Seq<char>>::empty());
            assert(strings_view(out@) =~= seq![self.name@] + stacked(kids.take(0)));
        }
        let n = self.children.len();
        let mut i: usize = 0;
        while n > 0 && i < n - 1
            invariant
                0 <= i,
                n == self.children.len(),
                i < n || (n == 0 && i == 0),
                kids == self.kids(),
                self@.wf(),
                kids.len() == n,
                forall|k: int| 0 <= k < n ==> #[trigger] kids[k] == self.children@[k]@,
                strings_view(out@) == seq![self.name@] + stacked(kids.take(i as int)),
                "├── "@ == tee(),
                "│   "@ == bar(),
            decreases n - i,
        {
            proof {
                assert(kids[i as int].wf());
            }
            let ls = self.children[i].lines();
            let ghost before = strings_view(out@);
            push_framed(&mut out, &ls, "├── ", "│   ");
            proof {
                assert(kids.take(i + 1).drop_last() =~= kids.take(i as int));
                assert(kids.take(i + 1).last() == kids[i as int]);
            }
            i = i + 1;
        }
        if n > 0 {
            proof {
                assert(kids[n - 1].wf());
            }
            let ls = self.children[n - 1].lines();
            let ghost before = strings_view(out@);
            proof {
                reveal_strlit("└── ");
                reveal_strlit("    ");
                assert("└── "@ =~= corner());
                assert("    "@ =~= blank());
            }
            push_framed(&mut out, &ls, "└── ", "    ");
            proof {
                assert(kids.take(i as int) =~= kids.drop_last());
                assert(kids.last() == self.children@[n - 1]@);
                assert(strings_view(out@) == before + framed(lines(kids.last()), corner(), blank()));
            }
        } else {
            proof {
                assert(kids.take(0) =~= Seq::<NodeView>::empty());
                assert(strings_view(out@) =~= seq![self.name@]);
            }
        }
        out
    }
}

impl Node {
    /// The lines of this node and everything under it.
    pub fn lines(&self) -> (r: Vec<String>)
        requires
            self@.wf(),
        ensures
            strings_view(r@) == lines(self@),
        decreases self,
    {
        match self {
            Node::Branch(b) => b.lines(),
            Node::Summary(s) => {
                let r = vec![s.label()];
                proof {
                    assert(strings_view(r@) =~= lines(self@));
                }
                r
            },
            Node::Leaf(l) => {
                let r = vec![l.label()];
                proof {
                    assert(strings_view(r@) =~= lines(self@));
                }
                r
            },
        }
    }

    /// The lines of this node and everything under it, each ended by a
    /// newline, as one text.
    pub fn text(&self) -> (r: String)
        requires
            self@.wf(),
        ensures
            r@ == joined(lines(self@)),
    {
        let ls = self.lines();
        let mut s = String::new();
        let mut i: usize = 0;
        while i < ls.len()
            invariant
                0 <= i <= ls.len(),
                s@ == joined(strings_view(ls@).take(i as int)),
            decreases ls.len() - i,
        {
            proof {
                assert(strings_view(ls@).take(i + 1).drop_last() =~= strings_view(ls@).take(i as int));
                reveal_strlit("\n");
            }
            s.append(ls[i].as_str());
            s.append("\n");
            i = i + 1;
        }
        proof {
            assert(strings_view(ls@).take(i as int) =~= strings_view(ls@));
        }
        s
    }
}

} // verus!

//! Decomposition of a relative path into its components.
use vstd::prelude::*;
use crate::names::{chars_of, string_of};

verus! {

/// Why a path cannot be placed in the tree.
#[derive(Clone, Copy, Debug, PartialEq, Eq, Structural)]
pub enum PathError {
    /// The path could not be read as text.
    Unresolvable,
    /// The path has no component at all.
    Empty,
    /// The path is absolute, or holds a `.` or `..` component.
    UnsupportedComponent,
}

/// Splitting on `/`: the components finished so far, and the one in progress.
pub open spec fn split_acc(s: Seq<char>) -> (Seq<Seq<char>>, Seq<char>)
    decreases s.len(),
{
    if s.len() == 0 {
        (Seq::empty(), Seq::empty())
    } else {
        let (done, cur) = split_acc(s.drop_last());
        if s.last() == '/' {
            (if cur.len() > 0 { done.push(cur) } else { done }, Seq::empty())
        } else {
            (done, cur.push(s.last()))
        }
    }
}

/// The non-empty `/`-separated parts of `s`, in order.
pub open spec fn components(s: Seq<char>) -> Seq<Seq<char>> {
    let (done, cur) = split_acc(s);
    if cur.len() > 0 {
        done.push(cur)
    } else {
        done
    }
}

/// A component that names an entry, as opposed to `.` or `..`.
pub open spec fn is_plain(c: Seq<char>) -> bool {
    c != seq!['.'] && c != seq!['.', '.']
}

/// What is wrong with `s` as a relative path of a file, if anything.
pub open spec fn path_error(s: Seq<char>) -> Option<PathError> {
    if s.len() > 0 && s[0] == '/' {
        Some(PathError::UnsupportedComponent)
    } else if components(s).len() == 0 {
        Some(PathError::Empty)
    } else if exists|i: int| 0 <= i < components(s).len() && !is_plain(#[trigger] components(s)[i]) {
        Some(PathError::UnsupportedComponent)
    } else {
        None
    }
}

/// A plain name of one entry: not empty, without `/`, neither `.` nor `..`.
pub open spec fn is_name(c: Seq<char>) -> bool {
    &&& c.len() > 0
    &&& !c.contains('/')
    &&& is_plain(c)
}

proof fn lemma_split_acc_parts(s: Seq<char>)
    ensures
        forall|i: int| 0 <= i < split_acc(s).0.len() ==> (#[trigger] split_acc(s).0[i]).len() > 0
            && !split_acc(s).0[i].contains('/'),
        !split_acc(s).1.contains('/'),
    decreases s.len(),
{
    if s.len() > 0 {
        lemma_split_acc_parts(s.drop_last());
        let (done, cur) = split_acc(s.drop_last());
        if s.last() != '/' {
            assert forall|j: int| 0 <= j < cur.push(s.last()).len() implies cur.push(s.last())[j] != '/' by {
                if j < cur.len() {
                    assert(cur.push(s.last())[j] == cur[j]);
                }
            }
        } else if cur.len() > 0 {
            assert forall|i: int| 0 <= i < done.push(cur).len() implies (#[trigger] done.push(cur)[i]).len() > 0
                && !done.push(cur)[i].contains('/') by {
                if i < done.len() {
                    assert(done.push(cur)[i] == done[i]);
                }
            }
        }
    }
}

/// Each component of a path is non-empty and holds no `/`; in a path without
/// error each is a plain name.
pub proof fn lemma_components_are_names(s: Seq<char>)
    ensures
        forall|i: int| 0 <= i < components(s).len() ==> (#[trigger] components(s)[i]).len() > 0
            && !components(s)[i].contains('/'),
        path_error(s) is None ==> forall|i: int| 0 <= i < components(s).len() ==> is_name(#[trigger] components(s)[i]),
{
    lemma_split_acc_parts(s);
    let (done, cur) = split_acc(s);
    let c = components(s);
    assert forall|i: int| 0 <= i < c.len() implies (#[trigger] c[i]).len() > 0 && !c[i].contains('/') by {
        if i < done.len() {
            assert(c[i] == done[i]);
        }
    }
}

pub open spec fn strings_view(v: Seq<String>) -> Seq<Seq<char>> {
    v.map_values(|s: String| s@)
}

fn is_plain_chars(c: &Vec<char>) -> (r: bool)
    ensures
        r == is_plain(c@),
{
    if c.len() == 1 && c[0] == '.' {
        assert(c@ =~= seq!['.']);
        false
    } else if c.len() == 2 && c[0] == '.' && c[1] == '.' {
        assert(c@ =~= seq!['.', '.']);
        false
    } else {
        true
    }
}

/// Splits a relative file path into its directory components and its file
/// name.
pub fn split_path(path: &str) -> (r: Result<(Vec<String>, String), PathError>)
    ensures
        match r {
            Ok((dirs, file)) => {
                &&& path_error(path@) is None
                &&& strings_view(dirs@) == components(path@).drop_last()
                &&& file@ == components(path@).last()
            },
            Err(e) => path_error(path@) == Some(e),
        },
{
    let cs = chars_of(path);
    let mut done: Vec<String> = Vec::new();
    let mut cur: Vec<char> = Vec::new();
    let mut plain = true;
    let mut i: usize = 0;
    while i < cs.len()
        invariant
            0 <= i <= cs.len(),
            cs@ == path@,
            strings_view(done@) == split_acc(cs@.take(i as int)).0,
            cur@ == split_acc(cs@.take(i as int)).1,
            plain == forall|j: int| 0 <= j < done@.len() ==> is_plain(#[trigger] strings_view(done@)[j]),
        decreases cs.len() - i,
    {
        let c = cs[i];
        proof {
            assert(cs@.take(i + 1).drop_last() =~= cs@.take(i as int));
        }
        if c == '/' {
            if cur.len() > 0 {
                let p = is_plain_chars(&cur);
                let piece = string_of(&cur);
                let ghost old_done = strings_view(done@);
                done.push(piece);
                plain = plain && p;
                proof {
                    assert(strings_view(done@) =~= old_done.push(piece@));
                    assert(p == is_plain(strings_view(done@)[old_done.len() as int]));
                    assert forall|j: int| 0 <= j < old_done.len() implies
                        strings_view(done@)[j] == #[trigger] old_done[j] by {}
                }
            }
            cur = Vec::new();
        } else {
            cur.push(c);
        }
        i = i + 1;
    }
    proof {
        assert(cs@.take(i as int) =~= path@);
    }
    let rooted = cs.len() > 0 && cs[0] == '/';
    if rooted {
        return Err(PathError::UnsupportedComponent);
    }
    let ghost comps = components(path@);
    if cur.len() > 0 {
        let p = is_plain_chars(&cur);
        let piece = string_of(&cur);
        if !plain || !p {
            proof {
                if !p {
                    assert(!is_plain(comps[comps.len() - 1]));
                } else {
                    let i = choose|i: int| 0 <= i < done@.len() && !is_plain(#[trigger] strings_view(done@)[i]);
                    assert(comps[i] == strings_view(done@)[i]);
                }
            }
            return Err(PathError::UnsupportedComponent);
        }
        proof {
            assert forall|i: int| 0 <= i < comps.len() implies is_plain(#[trigger] comps[i]) by {
                if i < done@.len() {
                    assert(comps[i] == strings_view(done@)[i]);
                }
            }
            assert(strings_view(done@) =~= comps.drop_last());
        }
        Ok((done, piece))
    } else if done.len() == 0 {
        Err(PathError::Empty)
    } else {
        if !plain {
            proof {
                let i = choose|i: int| 0 <= i < done@.len() && !is_plain(#[trigger] strings_view(done@)[i]);
                assert(comps[i] == strings_view(done@)[i]);
            }
            return Err(PathError::UnsupportedComponent);
        }
        let ghost all = done@;
        let file = done.pop().unwrap();
        proof {
            assert(comps == strings_view(all));
            assert(strings_view(done@) =~= comps.drop_last());
        }
        Ok((done, file))
    }
}

} // verus!

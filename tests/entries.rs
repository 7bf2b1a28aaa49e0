use git_tree::path::PathError;
use git_tree::status::StatusFlags;
use git_tree::tree::Node;
use git_tree::walk::{entries_tree, repository_node, Options, RepoReport, StatusRecord, WalkError};

fn record(path: Option<&str>, f: StatusFlags) -> StatusRecord {
    StatusRecord { path: path.map(|p| p.to_string()), flags: f }
}

fn ignored() -> StatusFlags {
    let mut f = StatusFlags::none();
    f.ignored = true;
    f
}

fn names(b: &git_tree::tree::Branch) -> Vec<String> {
    b.children.iter().map(|c| c.name().clone()).collect()
}

#[test]
fn ignored_entries_are_left_out_unless_asked_for() {
    let recs = vec![record(Some("target"), ignored()), record(Some("a.txt"), StatusFlags::none())];
    let b = entries_tree("r".to_string(), &recs, false).unwrap();
    assert_eq!(names(&b), vec!["a.txt"]);
    let b = entries_tree("r".to_string(), &recs, true).unwrap();
    assert_eq!(names(&b), vec!["a.txt", "target"]);
}

#[test]
fn unreadable_path_fails_the_build() {
    let recs = vec![record(Some("a.txt"), StatusFlags::none()), record(None, StatusFlags::none())];
    assert!(matches!(entries_tree("r".to_string(), &recs, false), Err(PathError::Unresolvable)));
}

#[test]
fn unreadable_ignored_path_is_skipped() {
    let recs = vec![record(None, ignored())];
    let b = entries_tree("r".to_string(), &recs, false).unwrap();
    assert!(b.children.is_empty());
}

#[test]
fn unsupported_path_fails_the_build() {
    let recs = vec![record(Some("../x"), StatusFlags::none())];
    assert!(matches!(
        entries_tree("r".to_string(), &recs, false),
        Err(PathError::UnsupportedComponent)
    ));
}

#[test]
fn repository_node_maps_path_errors() {
    let opts = Options { include_ignored: false, depth: 0, summary: false, only_show_changes: false };
    let r = repository_node("r".to_string(), RepoReport::Entries(vec![record(Some(""), StatusFlags::none())]), &opts);
    assert!(matches!(r, Err(WalkError::Path(PathError::Empty))));
}

#[test]
fn repository_node_without_changes_is_an_empty_directory() {
    let opts = Options { include_ignored: false, depth: 0, summary: false, only_show_changes: true };
    let r = repository_node("r".to_string(), RepoReport::Entries(vec![]), &opts).unwrap().unwrap();
    assert!(matches!(r, Node::Branch(ref b) if b.children.is_empty()));
    assert_eq!(r.lines(), vec!["r".to_string()]);
}

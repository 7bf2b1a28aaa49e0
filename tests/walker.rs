use git_tree::status::StatusFlags;
use git_tree::tree::{DiffStat, Node};
use git_tree::walk::{
    Action, Discovery, Listing, Options, Probe, RepoReport, StatusRecord, Walker, WalkError,
};

fn options(depth: usize) -> Options {
    Options { include_ignored: false, depth, summary: false, only_show_changes: false }
}

fn new_file(path: &str) -> StatusRecord {
    let mut f = StatusFlags::none();
    f.worktree_new = true;
    StatusRecord { path: Some(path.to_string()), flags: f }
}

/// A small file system: `.` holds the file `x.txt`, the repository `sub`
/// with one new file, and the plain directory `plain` holding the
/// repository `deep` without changes.
fn probe(location: &[String], summary: bool) -> Probe {
    let joined = location.join("/");
    match joined.as_str() {
        "" | "plain" => Probe::Directory,
        "sub" => {
            if summary {
                Probe::Repository(RepoReport::Stats(DiffStat {
                    branch: "main".to_string(),
                    files_changed: 1,
                    insertions: 4,
                    deletions: 1,
                }))
            } else {
                Probe::Repository(RepoReport::Entries(vec![new_file("f.txt")]))
            }
        },
        "plain/deep" => {
            if summary {
                Probe::Repository(RepoReport::Stats(DiffStat {
                    branch: "main".to_string(),
                    files_changed: 3,
                    insertions: 0,
                    deletions: 0,
                }))
            } else {
                Probe::Repository(RepoReport::Entries(vec![]))
            }
        },
        _ => Probe::NotDirectory,
    }
}

fn list(location: &[String]) -> Listing {
    match location.join("/").as_str() {
        "" => Listing::Names(vec!["x.txt".to_string(), "sub".to_string(), "plain".to_string()]),
        "plain" => Listing::Names(vec!["deep".to_string()]),
        _ => Listing::Failed("not a directory".to_string()),
    }
}

fn drive(opts: Options, inspected: &mut Vec<String>) -> Result<Option<Node>, WalkError> {
    let (mut w, mut a) = Walker::start(opts, ".".to_string());
    loop {
        a = match a {
            Action::Inspect { location, summary } => {
                inspected.push(location.join("/"));
                w.on_inspected(probe(&location, summary))
            },
            Action::List(location) => w.on_listed(list(&location)),
            Action::Discover { .. } => w.on_discovered(Discovery::NotFound),
            Action::Done(r) => return r,
        };
    }
}

fn child_names(n: &Node) -> Vec<String> {
    match n {
        Node::Branch(b) => b.children.iter().map(|c| c.name().clone()).collect(),
        _ => vec![],
    }
}

#[test]
fn depth_zero_does_not_descend_into_a_plain_directory() {
    let mut inspected = vec![];
    let r = drive(options(0), &mut inspected);
    assert_eq!(inspected, vec![String::new()]);
    assert!(matches!(r, Err(WalkError::NotFound)));
}

#[test]
fn depth_one_surfaces_a_nested_repository() {
    let mut inspected = vec![];
    let r = drive(options(1), &mut inspected).unwrap().unwrap();
    assert_eq!(r.name(), ".");
    // `plain` is no repository and is met with no budget left: no node.
    assert_eq!(child_names(&r), vec!["sub"]);
    let Node::Branch(b) = &r else { panic!("a directory was expected") };
    assert_eq!(child_names(&b.children[0]), vec!["f.txt"]);
    assert!(inspected.contains(&"plain".to_string()));
    assert!(!inspected.contains(&"plain/deep".to_string()));
}

#[test]
fn depth_two_reaches_the_deeper_repository() {
    let mut inspected = vec![];
    let r = drive(options(2), &mut inspected).unwrap().unwrap();
    let Node::Branch(b) = &r else { panic!("a directory was expected") };
    assert_eq!(child_names(&b.children[0]), vec!["deep"]);
    assert!(inspected.contains(&"plain/deep".to_string()));
}

#[test]
fn summary_mode_with_only_changes_leaves_out_clean_repositories() {
    let mut opts = options(2);
    opts.summary = true;
    opts.only_show_changes = true;
    let mut inspected = vec![];
    let r = drive(opts, &mut inspected).unwrap().unwrap();
    assert_eq!(child_names(&r), vec!["plain", "sub"]);
    let Node::Branch(b) = &r else { panic!("a directory was expected") };
    assert_eq!(child_names(&b.children[0]), Vec::<String>::new());
    assert!(matches!(&b.children[1], Node::Summary(s) if s.stats.insertions == 4));
}

#[test]
fn start_that_is_a_repository_is_described_directly() {
    let (mut w, a) = Walker::start(options(0), "sub".to_string());
    assert!(matches!(a, Action::Inspect { ref location, summary: false } if location.is_empty()));
    let a = w.on_inspected(Probe::Repository(RepoReport::Entries(vec![new_file("a/b")])));
    match a {
        Action::Done(Ok(Some(n))) => {
            assert_eq!(n.name(), "sub");
            assert_eq!(child_names(&n), vec!["a"]);
        },
        _ => panic!("the walk should be done"),
    }
}

#[test]
fn failure_at_the_start_is_reported() {
    let (mut w, _) = Walker::start(options(0), ".".to_string());
    let a = w.on_inspected(Probe::Repository(RepoReport::Failed("broken".to_string())));
    assert!(matches!(a, Action::Done(Err(WalkError::Repository(ref m))) if m == "broken"));
}

#[test]
fn listing_failure_at_the_start_is_reported() {
    let (mut w, _) = Walker::start(options(1), ".".to_string());
    assert!(matches!(w.on_inspected(Probe::Directory), Action::List(ref l) if l.is_empty()));
    let a = w.on_listed(Listing::Failed("denied".to_string()));
    assert!(matches!(a, Action::Done(Err(WalkError::Listing(ref m))) if m == "denied"));
}

#[test]
fn failures_below_the_start_only_shrink_the_tree() {
    let (mut w, _) = Walker::start(options(2), ".".to_string());
    assert!(matches!(w.on_inspected(Probe::Directory), Action::List(_)));
    let a = w.on_listed(Listing::Names(vec!["bad".to_string(), "locked".to_string(), "good".to_string()]));
    assert!(matches!(a, Action::Inspect { ref location, .. } if location == &vec!["good".to_string()]));
    let a = w.on_inspected(Probe::Repository(RepoReport::Entries(vec![new_file("ok.txt")])));
    assert!(matches!(a, Action::Inspect { ref location, .. } if location == &vec!["locked".to_string()]));
    assert!(matches!(w.on_inspected(Probe::Directory), Action::List(_)));
    let a = w.on_listed(Listing::Failed("denied".to_string()));
    assert!(matches!(a, Action::Inspect { ref location, .. } if location == &vec!["bad".to_string()]));
    let bad = StatusRecord { path: None, flags: StatusFlags::none() };
    let a = w.on_inspected(Probe::Repository(RepoReport::Entries(vec![bad])));
    match a {
        Action::Done(Ok(Some(n))) => assert_eq!(child_names(&n), vec!["good"]),
        _ => panic!("the walk should be done"),
    }
}

#[test]
fn discovery_reports_the_enclosing_repository() {
    let (mut w, _) = Walker::start(options(0), ".".to_string());
    assert!(matches!(w.on_inspected(Probe::Directory), Action::Discover { summary: false }));
    let a = w.on_discovered(Discovery::Found(RepoReport::Entries(vec![new_file("m.rs")])));
    match a {
        Action::Done(Ok(Some(n))) => {
            assert_eq!(n.name(), ".");
            assert_eq!(child_names(&n), vec!["m.rs"]);
        },
        _ => panic!("the walk should be done"),
    }
}

#[test]
fn discovery_failure_other_than_absence_is_passed_on() {
    let (mut w, _) = Walker::start(options(0), ".".to_string());
    assert!(matches!(w.on_inspected(Probe::NotDirectory), Action::Discover { .. }));
    let a = w.on_discovered(Discovery::Failed("corrupt".to_string()));
    assert!(matches!(a, Action::Done(Err(WalkError::Repository(ref m))) if m == "corrupt"));
}

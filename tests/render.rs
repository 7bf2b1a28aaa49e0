use ansi_term::Colour::{Fixed, Green, Red, Yellow};
use git_tree::paint::decimal;
use git_tree::status::{classify, StatusFlags};
use git_tree::tree::{Branch, DiffStat, Leaf, Node, Summary};
use git_tree::walk::{entries_tree, summary_node, StatusRecord};

fn gray(s: &str) -> String {
    Fixed(244).paint(s).to_string()
}

fn record(path: &str, f: StatusFlags) -> StatusRecord {
    StatusRecord { path: Some(path.to_string()), flags: f }
}

fn worktree_new() -> StatusFlags {
    let mut f = StatusFlags::none();
    f.worktree_new = true;
    f
}

fn worktree_modified() -> StatusFlags {
    let mut f = StatusFlags::none();
    f.worktree_modified = true;
    f
}

fn leaf(name: &str) -> Node {
    Node::Leaf(Leaf { name: name.to_string(), class: classify(&worktree_new()) })
}

fn names_of(b: &Branch) -> Vec<String> {
    b.children.iter().map(|c| c.name().clone()).collect()
}

#[test]
fn end_to_end_rendering_of_two_entries() {
    let records = vec![record("src/main.txt", worktree_new()), record("README.md", worktree_modified())];
    let root = entries_tree(".".to_string(), &records, false).unwrap();
    let lines = Node::Branch(root).lines();
    let expected = vec![
        ".".to_string(),
        format!("├── {}{} {}", gray("-"), gray("M"), Red.paint("README.md")),
        "└── src".to_string(),
        format!("    └── {}{} {}", gray("-"), gray("N"), Green.paint("main.txt")),
    ];
    assert_eq!(lines, expected);
}

#[test]
fn text_ends_each_line_with_a_newline() {
    let records = vec![record("a/b.txt", worktree_new())];
    let root = entries_tree("r".to_string(), &records, false).unwrap();
    let text = Node::Branch(root).text();
    let expected = format!("r\n└── a\n    └── {}{} {}\n", gray("-"), gray("N"), Green.paint("b.txt"));
    assert_eq!(text, expected);
}

#[test]
fn children_render_in_lexicographic_order() {
    let mut b = Branch::new("root".to_string());
    b.add_node(leaf("b"));
    b.add_node(leaf("a"));
    b.add_node(leaf("c"));
    assert_eq!(names_of(&b), vec!["a", "b", "c"]);
    let lines = b.lines();
    assert_eq!(lines.len(), 4);
    assert!(lines[1].starts_with("├── ") && lines[1].ends_with(&Green.paint("a").to_string()));
    assert!(lines[2].starts_with("├── ") && lines[2].ends_with(&Green.paint("b").to_string()));
    assert!(lines[3].starts_with("└── ") && lines[3].ends_with(&Green.paint("c").to_string()));
}

#[test]
fn order_is_by_code_point() {
    let mut b = Branch::new("root".to_string());
    b.add_node(leaf("b"));
    b.add_node(leaf("B"));
    b.add_node(leaf("ä"));
    b.add_node(leaf("a"));
    b.add_node(leaf("ab"));
    assert_eq!(names_of(&b), vec!["B", "a", "ab", "b", "ä"]);
}

#[test]
fn only_child_gets_the_last_connector() {
    let mut b = Branch::new("root".to_string());
    b.add_node(leaf("only"));
    let lines = b.lines();
    assert_eq!(lines.len(), 2);
    assert!(lines[1].starts_with("└── "));
    assert!(!lines[1].starts_with("├── "));
}

#[test]
fn empty_branch_renders_its_name_alone() {
    let b = Branch::new("empty".to_string());
    assert_eq!(b.lines(), vec!["empty".to_string()]);
}

#[test]
fn rendering_twice_gives_the_same_lines() {
    let records = vec![
        record("x/y/z.txt", worktree_new()),
        record("x/a.txt", worktree_modified()),
        record("top.txt", worktree_new()),
    ];
    let root = Node::Branch(entries_tree("t".to_string(), &records, false).unwrap());
    assert_eq!(root.lines(), root.lines());
}

#[test]
fn nested_margins_accumulate() {
    let records = vec![
        record("x/y/z.txt", worktree_new()),
        record("x/a.txt", worktree_new()),
        record("w.txt", worktree_new()),
    ];
    let root = entries_tree("t".to_string(), &records, false).unwrap();
    let lines = root.lines();
    let g = |s: &str| format!("{}{} {}", gray("-"), gray("N"), Green.paint(s));
    assert_eq!(
        lines,
        vec![
            "t".to_string(),
            format!("├── {}", g("w.txt")),
            "└── x".to_string(),
            format!("    ├── {}", g("a.txt")),
            "    └── y".to_string(),
            format!("        └── {}", g("z.txt")),
        ]
    );
}

#[test]
fn later_insert_at_the_same_path_wins() {
    let mut b = Branch::new("r".to_string());
    assert!(b.add_leaf_at_path("d/f", classify(&worktree_new())).is_ok());
    assert!(b.add_leaf_at_path("d/f", classify(&worktree_modified())).is_ok());
    let lines = b.lines();
    assert_eq!(lines.len(), 3);
    assert!(lines[2].ends_with(&Red.paint("f").to_string()));
}

#[test]
fn leaf_under_a_file_name_is_dropped() {
    let mut b = Branch::new("r".to_string());
    assert!(b.add_leaf_at_path("f", classify(&worktree_new())).is_ok());
    assert!(b.add_leaf_at_path("f/g", classify(&worktree_new())).is_ok());
    assert_eq!(b.lines().len(), 2);
}

#[test]
fn summary_line_shows_branch_and_counts() {
    let stats = DiffStat { branch: "main".to_string(), files_changed: 2, insertions: 13, deletions: 0 };
    let node = summary_node("repo".to_string(), stats, false).unwrap();
    let expected = format!(
        "repo {} +{} -{} ({})",
        gray("[main]"),
        Green.paint("13"),
        Red.paint("0"),
        Yellow.paint("2")
    );
    assert_eq!(node.lines(), vec![expected]);
}

#[test]
fn summary_without_changes_is_left_out_when_asked() {
    let stats = DiffStat { branch: "main".to_string(), files_changed: 7, insertions: 0, deletions: 0 };
    assert!(summary_node("repo".to_string(), stats, true).is_none());
    let stats = DiffStat { branch: "main".to_string(), files_changed: 0, insertions: 0, deletions: 0 };
    assert!(summary_node("repo".to_string(), stats, false).is_some());
    let stats = DiffStat { branch: "main".to_string(), files_changed: 0, insertions: 0, deletions: 1 };
    assert!(summary_node("repo".to_string(), stats, true).is_some());
}

#[test]
fn summary_label_of_a_summary_node() {
    let s = Summary {
        name: "n".to_string(),
        stats: DiffStat { branch: "dev".to_string(), files_changed: 10, insertions: 1, deletions: 250 },
    };
    let expected = format!("n {} +{} -{} ({})", gray("[dev]"), Green.paint("1"), Red.paint("250"), Yellow.paint("10"));
    assert_eq!(s.label(), expected);
}

#[test]
fn decimal_numerals() {
    assert_eq!(decimal(0), "0");
    assert_eq!(decimal(7), "7");
    assert_eq!(decimal(10), "10");
    assert_eq!(decimal(12345), "12345");
    assert_eq!(decimal(usize::MAX), usize::MAX.to_string());
}

#[test]
fn painted_glyphs_carry_escape_codes() {
    let l = Leaf { name: "f".to_string(), class: classify(&worktree_modified()) };
    assert_eq!(l.label(), "\u{1b}[38;5;244m-\u{1b}[0m\u{1b}[38;5;244mM\u{1b}[0m \u{1b}[31mf\u{1b}[0m");
}

fn strip_escapes(s: &str) -> String {
    let mut out = String::new();
    let mut in_escape = false;
    for c in s.chars() {
        if in_escape {
            if c == 'm' {
                in_escape = false;
            }
        } else if c == '\u{1b}' {
            in_escape = true;
        } else {
            out.push(c);
        }
    }
    out
}

#[test]
fn reading_the_lines_back_gives_the_paths() {
    let paths = ["src/main.rs", "src/walk/mod.rs", "README.md", "docs/a b.txt", "src/walk/deep/x"];
    let records: Vec<StatusRecord> = paths.iter().map(|p| record(p, worktree_new())).collect();
    let root = entries_tree(".".to_string(), &records, false).unwrap();
    let lines = root.lines();
    let units = ["├── ", "│   ", "└── ", "    "];
    let mut stack: Vec<String> = vec![];
    let mut files: Vec<String> = vec![];
    let mut dirs: Vec<String> = vec![];
    for (i, line) in lines.iter().enumerate() {
        let mut rest = line.as_str();
        let mut depth = 0;
        while let Some(u) = units.iter().find(|u| rest.starts_with(*u)) {
            rest = &rest[u.len()..];
            depth += 1;
        }
        let is_file = rest.starts_with('\u{1b}');
        let name = if is_file {
            let plain = strip_escapes(rest);
            plain[3..].to_string()
        } else {
            rest.to_string()
        };
        stack.truncate(depth);
        stack.push(name);
        let path = stack[1..].join("/");
        if i == 0 {
            assert_eq!(stack, vec![".".to_string()]);
        } else if is_file {
            files.push(path);
        } else {
            dirs.push(path);
        }
    }
    let mut expected_files: Vec<String> = paths.iter().map(|p| p.to_string()).collect();
    expected_files.sort();
    files.sort();
    assert_eq!(files, expected_files);
    dirs.sort();
    assert_eq!(dirs, vec!["docs", "src", "src/walk", "src/walk/deep"]);
}

#[test]
fn record_order_does_not_change_the_lines() {
    let paths = ["b/x.txt", "a.txt", "b/c/d.txt", "c"];
    let forward: Vec<StatusRecord> = paths.iter().map(|p| record(p, worktree_new())).collect();
    let backward: Vec<StatusRecord> = paths.iter().rev().map(|p| record(p, worktree_new())).collect();
    let t1 = entries_tree(".".to_string(), &forward, false).unwrap();
    let t2 = entries_tree(".".to_string(), &backward, false).unwrap();
    assert_eq!(t1.lines(), t2.lines());
}

#[test]
fn parent_reference_in_a_leaf_path_is_refused() {
    let mut b = Branch::new("r".to_string());
    assert!(b.add_leaf_at_path("../x", classify(&worktree_new())).is_err());
    assert!(b.add_leaf_at_path("a/./x", classify(&worktree_new())).is_err());
    assert!(b.children.is_empty());
}

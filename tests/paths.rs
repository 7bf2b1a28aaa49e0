use git_tree::path::{split_path, PathError};

#[test]
fn splits_directories_and_file_name() {
    let (dirs, file) = split_path("a/b/c.txt").unwrap();
    assert_eq!(dirs, vec!["a".to_string(), "b".to_string()]);
    assert_eq!(file, "c.txt");
}

#[test]
fn file_at_the_root_has_no_directories() {
    let (dirs, file) = split_path("README.md").unwrap();
    assert!(dirs.is_empty());
    assert_eq!(file, "README.md");
}

#[test]
fn repeated_and_trailing_separators_are_skipped() {
    let (dirs, file) = split_path("a//b/").unwrap();
    assert_eq!(dirs, vec!["a".to_string()]);
    assert_eq!(file, "b");
}

#[test]
fn absolute_path_is_unsupported() {
    assert_eq!(split_path("/etc/passwd").unwrap_err(), PathError::UnsupportedComponent);
}

#[test]
fn parent_and_current_references_are_unsupported() {
    assert_eq!(split_path("a/../b").unwrap_err(), PathError::UnsupportedComponent);
    assert_eq!(split_path("./b").unwrap_err(), PathError::UnsupportedComponent);
    assert_eq!(split_path("a/..").unwrap_err(), PathError::UnsupportedComponent);
}

#[test]
fn empty_path_has_no_component() {
    assert_eq!(split_path("").unwrap_err(), PathError::Empty);
    assert_eq!(split_path("//").unwrap_err(), PathError::UnsupportedComponent);
}

#[test]
fn non_ascii_components() {
    let (dirs, file) = split_path("dö/ü.txt").unwrap();
    assert_eq!(dirs, vec!["dö".to_string()]);
    assert_eq!(file, "ü.txt");
}

use markdown_fs::errors::{FsError, FsErrorKind};
use markdown_fs::greeting::greet;
use markdown_fs::paths::{child_base, split_path};

#[test]
fn split_path_separates_parent_and_base_name() {
    let (dir, name) = split_path("/tmp/t.md").unwrap();
    assert_eq!(dir, "/tmp");
    assert_eq!(name, "t.md");
}

#[test]
fn split_path_of_a_root_child() {
    let (dir, name) = split_path("/tmp").unwrap();
    assert_eq!(dir, "");
    assert_eq!(name, "tmp");
}

#[test]
fn split_path_uses_the_last_separator() {
    let (dir, name) = split_path("a/b/c.md").unwrap();
    assert_eq!(dir, "a/b");
    assert_eq!(name, "c.md");
}

#[test]
fn split_path_without_separator_has_no_parent() {
    assert!(split_path("noslash").is_none());
    assert!(split_path("").is_none());
}

#[test]
fn split_path_with_trailing_separator_has_empty_base_name() {
    let (dir, name) = split_path("a/").unwrap();
    assert_eq!(dir, "a");
    assert_eq!(name, "");
}

#[test]
fn child_base_accepts_only_direct_children() {
    let dir = String::from("/tmp");
    assert_eq!(child_base("/tmp/a.md", &dir).unwrap(), "a.md");
    assert!(child_base("/tmp/sub/deep.md", &dir).is_none());
    assert!(child_base("/other/a.md", &dir).is_none());
    assert!(child_base("noslash", &dir).is_none());
}

#[test]
fn error_carries_kind_and_message() {
    let e = FsError::new(FsErrorKind::PermissionDenied, String::from("access denied"));
    assert_eq!(e.kind, FsErrorKind::PermissionDenied);
    assert_eq!(e.message, "access denied");
    assert_eq!(e.describe(), "access denied");
    let e = FsError::new(FsErrorKind::InvalidEncoding, String::from("stream did not contain valid UTF-8"));
    assert_eq!(e.kind, FsErrorKind::InvalidEncoding);
    assert_eq!(e.describe(), "stream did not contain valid UTF-8");
}

#[test]
fn ready_made_errors_have_fixed_kinds() {
    assert_eq!(FsError::not_found().kind, FsErrorKind::NotFound);
    assert_eq!(FsError::not_found().message, "no such file or directory");
    assert_eq!(FsError::is_directory().kind, FsErrorKind::Other);
    assert_eq!(FsError::not_directory().kind, FsErrorKind::Other);
    assert_eq!(FsError::already_exists().kind, FsErrorKind::AlreadyExists);
}

#[test]
fn greeting_names_the_caller() {
    assert_eq!(greet("World"), "Hello, World! You've been greeted from Rust!");
    assert_eq!(greet(""), "Hello, ! You've been greeted from Rust!");
}

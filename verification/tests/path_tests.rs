use rgit::init::resolve_metadata_dir;
use rgit::paths::{join_path, parent_of_path, str_eq};

#[test]
fn join_appends_one_separator() {
    assert_eq!(join_path("/a", "b"), "/a/b");
    assert_eq!(join_path("/a/b", "c"), "/a/b/c");
}

#[test]
fn join_keeps_single_separator_after_trailing_slash() {
    assert_eq!(join_path("/a/", "b"), "/a/b");
    assert_eq!(join_path("/", "b"), "/b");
}

#[test]
fn join_absolute_component_replaces_base() {
    assert_eq!(join_path("/a/b", "/x"), "/x");
}

#[test]
fn join_empty_base() {
    assert_eq!(join_path("", "b"), "/b");
}

#[test]
fn parent_of_path_walks_up() {
    assert_eq!(parent_of_path("/a/b").unwrap(), "/a");
    assert_eq!(parent_of_path("/a").unwrap(), "/");
    assert_eq!(parent_of_path("a/b").unwrap(), "a");
    assert_eq!(parent_of_path("/"), None);
    assert_eq!(parent_of_path("ab"), None);
    assert_eq!(parent_of_path(""), None);
}

#[test]
fn str_eq_compares_contents() {
    assert!(str_eq("init", "init"));
    assert!(!str_eq("init", "init "));
    assert!(!str_eq("init", "inIt"));
    assert!(str_eq("", ""));
}

#[test]
fn resolution_of_sentinel_target() {
    assert_eq!(resolve_metadata_dir("/a/b", "."), "/a/b/.rgit");
}

#[test]
fn resolution_of_relative_target() {
    assert_eq!(resolve_metadata_dir("/a/b", "test_repo"), "/a/b/test_repo/.rgit");
}

#[test]
fn resolution_of_absolute_target() {
    assert_eq!(resolve_metadata_dir("/a/b", "/x/y"), "/x/y/.rgit");
}

#[test]
fn resolution_of_empty_target() {
    assert_eq!(resolve_metadata_dir("/a/b", ""), "/a/b/.rgit");
}

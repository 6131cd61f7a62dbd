//! Where things are kept.
use taimux::paths::{above, file_name, file_stem, has_extension, join, runtime_dir, socket_path};

#[test]
fn the_runtime_dir_prefers_xdg_then_tmpdir_then_tmp() {
    assert_eq!(
        runtime_dir(Some("/run/user/9"), Some("/var/tmp")),
        "/run/user/9/taimux"
    );
    assert_eq!(runtime_dir(None, Some("/var/tmp")), "/var/tmp/taimux");
    assert_eq!(runtime_dir(None, None), "/tmp/taimux");
}

#[test]
fn the_socket_sits_in_the_runtime_dir_unless_overridden() {
    assert_eq!(
        socket_path(None, Some("/run/user/9"), None),
        join(&runtime_dir(Some("/run/user/9"), None), "sock")
    );
    assert_eq!(
        socket_path(Some("/nowhere/sock"), Some("/run/user/9"), None),
        "/nowhere/sock"
    );
}

#[test]
fn a_path_is_joined_with_one_slash() {
    assert_eq!(join("/a", "b"), "/a/b");
    assert_eq!(join("/a/", "b"), "/a/b");
    assert_eq!(join("/a", "/b"), "/b");
}

#[test]
fn an_extension_is_what_follows_the_last_dot_of_the_name() {
    assert!(has_extension("/a/b.jsonl", "jsonl"));
    assert!(!has_extension("/a.jsonl/b", "jsonl"));
    assert!(!has_extension("/a/.jsonl", "jsonl"));
}

#[test]
fn a_directory_above_is_counted_from_the_end() {
    assert_eq!(above("/brain/u-1/logs/t.jsonl", 1), "logs");
    assert_eq!(above("/brain/u-1/logs/t.jsonl", 2), "u-1");
}


/// A component for the directory itself is none, slashes at the end say nothing, and
/// a step up is no name.
#[test]
fn a_path_is_taken_apart_by_its_components() {
    assert_eq!(above("/b/../x/y/z", 3), "");
    assert_eq!(above("/b/./x/y/z/", 3), "b");
    assert_eq!(above("x/y/z", 3), "");
    assert_eq!(file_name("/a/b.jsonl/"), "b.jsonl");
    assert_eq!(file_name("/a/./"), "a");
    assert_eq!(file_name("/a/.."), "");
    assert_eq!(file_name("."), "");
    assert_eq!(file_stem("/s/rollout-1.jsonl/"), "rollout-1");
    assert_eq!(file_stem("/s/.profile"), ".profile");
    assert!(has_extension("/a/b.jsonl/", "jsonl"));
}

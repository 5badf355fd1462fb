use steel::fs::{condition, fs_dirname, fs_join, fs_norm, fs_path, os_or_eio, strerror, FsCondition, ANO_PATHSZ};
use std::io::Error;

fn norm(s: &str) -> String {
    let mut p = fs_path(s).unwrap();
    fs_norm(&mut p);
    p.s
}

#[test]
fn dirname_quirks() {
    assert_eq!(fs_dirname("foo/bar").unwrap().s, "foo");
    assert_eq!(fs_dirname("foo/bar/").unwrap().s, "foo/bar");
    assert_eq!(fs_dirname("foo///bar").unwrap().s, "foo");
    assert_eq!(fs_dirname("/x").unwrap().s, "/");
    assert_eq!(fs_dirname("///").unwrap().s, "/");
    assert_eq!(fs_dirname("x").unwrap().s, ".");
    assert_eq!(fs_dirname("").unwrap().s, ".");
    assert!(fs_dirname(&"a".repeat(ANO_PATHSZ)).is_none());
}

#[test]
fn norm_collapse() {
    assert_eq!(norm("a/./b//c"), "a/b/c");
    assert_eq!(norm("a/b/../c"), "a/c");
    assert_eq!(norm("a/.."), ".");
    assert_eq!(norm("./."), ".");
    assert_eq!(norm("../../a"), "../../a");
    assert_eq!(norm("a/../../b"), "../b");
    assert_eq!(norm("/../a"), "/a");
    assert_eq!(norm("/a/../.."), "/");
    assert_eq!(norm("/"), "/");
    assert_eq!(norm("a/b/../../.."), "..");
}

#[test]
fn join_rules() {
    assert_eq!(fs_join("d", "r").unwrap().s, "d/r");
    assert_eq!(fs_join("", "r").unwrap().s, "./r");
    assert_eq!(fs_join("d", "/abs").unwrap().s, "/abs");
    assert_eq!(fs_join("d", "").unwrap().s, "d/");
    assert!(fs_join(&"a".repeat(1000), &"b".repeat(100)).is_none());
}

#[test]
fn filesystem_conditions_are_native_errors_not_panics() {
    let directory = condition(FsCondition::IsADirectory);
    let nonfile = condition(FsCondition::NotAFile);
    let long = condition(FsCondition::NameTooLong);
    let unattributed = os_or_eio(Error::other("no platform cause"));
    assert!(directory.raw_os_error().is_some());
    assert!(nonfile.raw_os_error().is_some());
    assert!(long.raw_os_error().is_some());
    assert!(unattributed.raw_os_error().is_some());
    for error in [directory, nonfile, long, unattributed] {
        assert!(!strerror(&error).contains("(os error"));
        assert!(!strerror(&error).is_empty());
    }
}

#[test]
fn attributed_io_errors_survive_unchanged() {
    let raised = Error::from_raw_os_error(2);
    let preserved = os_or_eio(raised);
    assert_eq!(preserved.raw_os_error(), Some(2));
    assert!(!strerror(&preserved).contains("(os error"));
}

#[test]
fn every_condition_carries_a_nonzero_platform_code() {
    for which in [FsCondition::IsADirectory, FsCondition::NotAFile, FsCondition::NameTooLong, FsCondition::Unattributed] {
        let code = condition(which).raw_os_error().expect("a platform code");
        assert_ne!(code, 0);
    }
    assert!(os_or_eio(Error::other("no cause")).raw_os_error().is_some());
}

#[test]
fn normalizing_twice_changes_nothing() {
    for s in ["a/./b/../c", "/../x//y/", "../../a/..", ".", "/", "a/b/../../..", "x/"] {
        let once = norm(s);
        assert_eq!(norm(&once), once, "{}", s);
    }
}

#[test]
fn dirname_reads_through_the_last_slash() {
    assert_eq!(fs_dirname("abc").unwrap().s, ".");
    assert_eq!(fs_dirname("a//b").unwrap().s, "a");
    assert_eq!(fs_dirname("///b").unwrap().s, "/");
    assert_eq!(fs_dirname("a/b//c").unwrap().s, "a/b");
}

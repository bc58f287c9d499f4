use ccd::paths::{basename, components, is_direct_child};

#[test]
fn basename_takes_the_last_component() {
    assert_eq!(basename("/home/u/Downloads"), "Downloads");
    assert_eq!(basename("/home/u/Downloads///"), "Downloads");
    assert_eq!(basename("plain"), "plain");
    assert_eq!(basename("/"), "");
    assert_eq!(basename(""), "");
}

#[test]
fn components_drop_empty_pieces() {
    assert_eq!(components("/home//u/dev/"), vec!["home", "u", "dev"]);
    assert_eq!(components("a/b"), vec!["a", "b"]);
    assert!(components("///").is_empty());
    assert!(components("").is_empty());
}

#[test]
fn direct_child_is_one_level_below() {
    assert!(is_direct_child("/home/u/project/src", "/home/u/project"));
    assert!(!is_direct_child("/home/u/project/src/x", "/home/u/project"));
    assert!(!is_direct_child("/home/u/projectx", "/home/u/project"));
    assert!(!is_direct_child("/home/u/project", "/home/u/project"));
    assert!(!is_direct_child("/a/b", ""));
    assert!(is_direct_child("/h\u{e9}/x", "/h\u{e9}"));
}

#[test]
fn direct_children_of_the_root() {
    assert!(is_direct_child("/usr", "/"));
    assert!(!is_direct_child("/usr/lib", "/"));
    assert!(!is_direct_child("/", "/"));
    assert!(!is_direct_child("usr", "/"));
    assert!(!is_direct_child("/home/u/project/", "/home/u/project"));
}

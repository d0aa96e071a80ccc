use std::path::PathBuf;

use quine::types::{clean_path, NodePath};

const HOME: Option<&str> = Some("/home/murphy");
const CWD: Option<&str> = Some("/home/murphy/work");

#[test]
fn nodepath_rejects_relative() {
    assert!(NodePath::new("relative/path", HOME).is_none());
}

#[test]
fn nodepath_accepts_absolute() {
    let np = NodePath::new("/absolute/path", HOME).unwrap();
    assert_eq!(np.as_str(), "/absolute/path");
}

#[test]
fn nodepath_expands_tilde() {
    let np = NodePath::new("~/something", HOME).unwrap();
    assert!(np.as_path().is_absolute());
    assert!(!np.as_str().contains('~'));
}

#[test]
fn nodepath_starts_with() {
    let parent = NodePath::new("/home/murphy/notes", HOME).unwrap();
    let child = NodePath::new("/home/murphy/notes/fix.md", HOME).unwrap();
    let other = NodePath::new("/home/murphy/src/foo.rs", HOME).unwrap();
    assert!(child.starts_with(&parent));
    assert!(!other.starts_with(&parent));
}

#[test]
fn nodepath_from_cwd_resolves_relative() {
    let np = NodePath::from_cwd(".", HOME, CWD).unwrap();
    assert!(np.as_path().is_absolute());
}

#[test]
fn nodepath_from_cwd_handles_absolute() {
    let np = NodePath::from_cwd("/absolute/path", HOME, CWD).unwrap();
    assert_eq!(np.as_str(), "/absolute/path");
}

#[test]
fn nodepath_from_cwd_handles_tilde() {
    let np = NodePath::from_cwd("~/notes", HOME, CWD).unwrap();
    assert!(np.as_path().is_absolute());
    assert!(!np.as_str().contains('~'));
}

#[test]
fn clean_path_resolves_dotdot() {
    let cleaned = clean_path("/a/b/../c");
    assert_eq!(PathBuf::from(cleaned), PathBuf::from("/a/c"));
}

#[test]
fn clean_path_resolves_dot() {
    let cleaned = clean_path("/a/./b/./c");
    assert_eq!(PathBuf::from(cleaned), PathBuf::from("/a/b/c"));
}

#[test]
fn nodepath_join() {
    let parent = NodePath::new("/home/murphy", HOME).unwrap();
    let child = parent.join("notes/file.md");
    assert_eq!(child.as_str(), "/home/murphy/notes/file.md");
}

#[test]
fn tilde_is_expanded_against_home() {
    let np = NodePath::new("~/notes/a.md", HOME).unwrap();
    assert_eq!(np.as_str(), "/home/murphy/notes/a.md");
}

#[test]
fn tilde_without_home_makes_no_node() {
    assert!(NodePath::new("~/notes/a.md", None).is_none());
    assert!(NodePath::from_cwd("~/notes", None, CWD).is_none());
}

#[test]
fn relative_without_cwd_makes_no_node() {
    assert!(NodePath::from_cwd("notes", HOME, None).is_none());
}

#[test]
fn from_cwd_resolves_dotdot() {
    let np = NodePath::from_cwd("../x/./y", HOME, CWD).unwrap();
    assert_eq!(np.as_str(), "/home/murphy/x/y");
}

#[test]
fn dotdot_at_the_root_keeps_it() {
    // `..` at the root stays at the root, as it does on a file system.
    assert_eq!(clean_path("/../a"), "/a");
    assert_eq!(clean_path("/a/../../b"), "/b");
}

#[test]
fn nodepath_of_the_root_parent_is_the_root() {
    assert_eq!(NodePath::new("/..", HOME).unwrap().as_str(), "/");
}

#[test]
fn tilde_against_a_home_above_the_root_stays_absolute() {
    let np = NodePath::new("~/something", Some("/..")).unwrap();
    assert_eq!(np.as_str(), "/something");
}

#[test]
fn tilde_against_a_relative_home_makes_no_node() {
    assert!(NodePath::new("~/x", Some("rel")).is_none());
}

#[test]
fn from_cwd_against_a_relative_cwd_makes_no_node() {
    assert!(NodePath::from_cwd("x", HOME, Some("rel")).is_none());
}

#[test]
fn from_absolute_keeps_the_text() {
    let np = NodePath::from_absolute("/a/./b".to_string()).unwrap();
    assert_eq!(np.as_str(), "/a/./b");
    assert!(NodePath::from_absolute("a/b".to_string()).is_none());
}

#[test]
fn starts_with_compares_components() {
    let a = NodePath::new("/home/murphy/notes2/x", HOME).unwrap();
    let p = NodePath::new("/home/murphy/notes", HOME).unwrap();
    assert!(!a.starts_with(&p));
    assert!(p.starts_with(&p));
}

#[test]
fn join_with_absolute_child_replaces() {
    let parent = NodePath::new("/home/murphy", HOME).unwrap();
    assert_eq!(parent.join("/etc/x").as_str(), "/etc/x");
}

#[test]
fn path_views_agree_with_text() {
    let np = NodePath::new("/a/b.md", HOME).unwrap();
    assert_eq!(np.as_path().to_str(), Some("/a/b.md"));
    assert_eq!(np.to_path_buf(), PathBuf::from("/a/b.md"));
}

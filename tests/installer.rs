use std::collections::BTreeMap;

use hsmod_installer::action::{is_marker_name, names_match, Action, MARKER_FILE};
use hsmod_installer::engine::{install_order, removal, uninstall_order};
use hsmod_installer::model::Removal;
use hsmod_installer::tree::{is_below, same_path, ResourceEntry, ResourceTree};

fn path(s: &str) -> Vec<String> {
    s.split('/').map(|p| p.to_string()).collect()
}

fn file(p: &str, c: &str) -> ResourceEntry {
    ResourceEntry { path: path(p), contents: Some(c.as_bytes().to_vec()) }
}

fn dir(p: &str) -> ResourceEntry {
    ResourceEntry { path: path(p), contents: None }
}

fn sample_tree() -> ResourceTree {
    ResourceTree::new(vec![dir("a"), file("a/b.txt", "hi"), file("a/c.txt", "yo")]).unwrap()
}

/// A target directory in memory: `Some(bytes)` is a file, `None` a directory.
type MemFs = BTreeMap<Vec<String>, Option<Vec<u8>>>;

fn install_into(tree: &ResourceTree, fs: &mut MemFs) {
    for i in install_order(tree) {
        let e = tree.entry(i);
        for n in 1..e.path.len() {
            fs.entry(e.path[..n].to_vec()).or_insert(None);
        }
        fs.insert(e.path.clone(), e.contents.clone());
    }
}

/// Runs uninstall and returns how many paths it removed.
fn uninstall_from(tree: &ResourceTree, fs: &mut MemFs) -> usize {
    let mut removed = 0;
    for i in uninstall_order(tree) {
        let e = tree.entry(i);
        let exists = fs.contains_key(&e.path);
        let empty = !fs.keys().any(|k| is_below(k, &e.path));
        match removal(e, exists, empty) {
            Removal::RemoveFile | Removal::RemoveDir => {
                fs.remove(&e.path);
                removed += 1;
            }
            Removal::Keep => {}
        }
    }
    removed
}

#[test]
fn install_writes_files_and_creates_directory() {
    let tree = sample_tree();
    let mut fs = MemFs::new();
    install_into(&tree, &mut fs);
    assert_eq!(fs.get(&path("a/b.txt")), Some(&Some(b"hi".to_vec())));
    assert_eq!(fs.get(&path("a/c.txt")), Some(&Some(b"yo".to_vec())));
    assert_eq!(fs.get(&path("a")), Some(&None));
    assert_eq!(fs.len(), 3);
}

#[test]
fn uninstall_after_install_removes_everything() {
    let tree = sample_tree();
    let mut fs = MemFs::new();
    install_into(&tree, &mut fs);
    assert_eq!(uninstall_from(&tree, &mut fs), 3);
    assert!(fs.is_empty());
}

#[test]
fn uninstall_keeps_directory_with_foreign_file() {
    let tree = sample_tree();
    let mut fs = MemFs::new();
    install_into(&tree, &mut fs);
    fs.insert(path("a/user.txt"), Some(b"mine".to_vec()));
    uninstall_from(&tree, &mut fs);
    assert!(fs.contains_key(&path("a")));
    assert!(fs.contains_key(&path("a/user.txt")));
    assert!(!fs.contains_key(&path("a/b.txt")));
    assert!(!fs.contains_key(&path("a/c.txt")));
}

#[test]
fn uninstall_twice_changes_nothing_the_second_time() {
    let tree = sample_tree();
    let mut fs = MemFs::new();
    install_into(&tree, &mut fs);
    fs.insert(path("a/user.txt"), Some(b"mine".to_vec()));
    uninstall_from(&tree, &mut fs);
    let once = fs.clone();
    assert_eq!(uninstall_from(&tree, &mut fs), 0);
    assert_eq!(fs, once);
}

#[test]
fn uninstall_on_empty_target_changes_nothing() {
    let tree = sample_tree();
    let mut fs = MemFs::new();
    fs.insert(path("other"), None);
    fs.insert(path("other/x.txt"), Some(b"x".to_vec()));
    let before = fs.clone();
    assert_eq!(uninstall_from(&tree, &mut fs), 0);
    assert_eq!(fs, before);
}

#[test]
fn install_overwrites_existing_file() {
    let tree = sample_tree();
    let mut fs = MemFs::new();
    fs.insert(path("a"), None);
    fs.insert(path("a/b.txt"), Some(b"something else entirely".to_vec()));
    install_into(&tree, &mut fs);
    assert_eq!(fs.get(&path("a/b.txt")), Some(&Some(b"hi".to_vec())));
}

#[test]
fn enumerate_is_deterministic() {
    let tree = sample_tree();
    let first: Vec<(Vec<String>, Option<Vec<u8>>)> =
        tree.enumerate().iter().map(|e| (e.path.clone(), e.contents.clone())).collect();
    let second: Vec<(Vec<String>, Option<Vec<u8>>)> =
        tree.enumerate().iter().map(|e| (e.path.clone(), e.contents.clone())).collect();
    assert_eq!(first, second);
    assert_eq!(first.len(), 3);
    assert_eq!(first[0].0, path("a"));
    assert_eq!(first[2].0, path("a/c.txt"));
}

#[test]
fn read_returns_file_contents() {
    let tree = sample_tree();
    assert_eq!(tree.read(&path("a/c.txt")), Some(&b"yo".to_vec()));
    assert_eq!(tree.read(&path("a")), None);
    assert_eq!(tree.read(&path("a/missing.txt")), None);
}

#[test]
fn orders_of_install_and_uninstall() {
    let tree = ResourceTree::new(vec![
        dir("a"),
        file("a/b.txt", "hi"),
        dir("a/d"),
        file("a/d/e.bin", "e"),
        file("top.txt", "t"),
    ])
    .unwrap();
    assert_eq!(install_order(&tree), vec![1, 3, 4]);
    assert_eq!(uninstall_order(&tree), vec![4, 3, 2, 1, 0]);
    assert_eq!(tree.len(), 5);
}

#[test]
fn nested_directories_removed_deepest_first() {
    let tree = ResourceTree::new(vec![dir("a"), dir("a/d"), file("a/d/e.bin", "e")]).unwrap();
    let mut fs = MemFs::new();
    install_into(&tree, &mut fs);
    assert_eq!(fs.len(), 3);
    assert_eq!(uninstall_from(&tree, &mut fs), 3);
    assert!(fs.is_empty());
}

#[test]
fn empty_tree_is_accepted() {
    let tree = ResourceTree::new(vec![]).unwrap();
    assert_eq!(tree.len(), 0);
    assert!(install_order(&tree).is_empty());
    assert!(uninstall_order(&tree).is_empty());
}

#[test]
fn tree_rejects_duplicate_paths() {
    assert!(ResourceTree::new(vec![file("x.txt", "1"), file("x.txt", "2")]).is_none());
}

#[test]
fn tree_rejects_missing_parent_directory() {
    assert!(ResourceTree::new(vec![file("a/b.txt", "hi")]).is_none());
}

#[test]
fn tree_rejects_child_before_parent() {
    assert!(ResourceTree::new(vec![file("a/b.txt", "hi"), dir("a")]).is_none());
}

#[test]
fn tree_rejects_entry_below_file() {
    assert!(ResourceTree::new(vec![file("a", "x"), file("a/b", "y")]).is_none());
}

#[test]
fn tree_rejects_empty_path() {
    let e = ResourceEntry { path: vec![], contents: Some(vec![1]) };
    assert!(ResourceTree::new(vec![e]).is_none());
}

#[test]
fn removal_decisions() {
    let f = file("a/b.txt", "hi");
    let d = dir("a");
    assert_eq!(removal(&f, true, true), Removal::RemoveFile);
    assert_eq!(removal(&f, true, false), Removal::RemoveFile);
    assert_eq!(removal(&f, false, true), Removal::Keep);
    assert_eq!(removal(&d, true, true), Removal::RemoveDir);
    assert_eq!(removal(&d, true, false), Removal::Keep);
    assert_eq!(removal(&d, false, true), Removal::Keep);
}

#[test]
fn path_comparisons() {
    assert!(same_path(&path("a/b"), &path("a/b")));
    assert!(!same_path(&path("a/b"), &path("a/c")));
    assert!(!same_path(&path("a"), &path("a/b")));
    assert!(is_below(&path("a/b"), &path("a")));
    assert!(!is_below(&path("a"), &path("a")));
    assert!(!is_below(&path("ab/c"), &path("a")));
}

#[test]
fn action_from_selection() {
    assert_eq!(Action::from_selection(Some(0)), Action::Install);
    assert_eq!(Action::from_selection(Some(1)), Action::Uninstall);
    assert_eq!(Action::from_selection(None), Action::Install);
}

#[test]
fn marker_name_ignores_ascii_case() {
    assert!(is_marker_name("Hearthstone.exe"));
    assert!(is_marker_name("HEARTHSTONE.EXE"));
    assert!(is_marker_name("hearthstone.exe"));
    assert!(!is_marker_name("Hearthstone.ex"));
    assert!(!is_marker_name("Hearthstone_exe"));
    assert!(names_match(b"Ab", b"aB"));
    assert!(!names_match(b"A[", b"a{"));
    assert_eq!(MARKER_FILE, "Hearthstone.exe");
}

#[test]
fn tree_rejects_directory_without_files() {
    assert!(ResourceTree::new(vec![dir("a")]).is_none());
    assert!(ResourceTree::new(vec![dir("a"), dir("a/d")]).is_none());
    assert!(ResourceTree::new(vec![dir("a"), dir("a/d"), file("a/x", "x")]).is_none());
}

#[test]
fn uninstall_keeps_non_empty_tree_directory_when_no_file_installed() {
    let tree = sample_tree();
    let mut fs = MemFs::new();
    fs.insert(path("a"), None);
    fs.insert(path("a/user.txt"), Some(b"mine".to_vec()));
    let before = fs.clone();
    assert_eq!(uninstall_from(&tree, &mut fs), 0);
    assert_eq!(fs, before);
}

#[test]
fn install_keeps_foreign_files_in_tree_directory() {
    let tree = sample_tree();
    let mut fs = MemFs::new();
    fs.insert(path("a"), None);
    fs.insert(path("a/user.txt"), Some(b"mine".to_vec()));
    install_into(&tree, &mut fs);
    assert_eq!(fs.get(&path("a/user.txt")), Some(&Some(b"mine".to_vec())));
    assert_eq!(fs.len(), 4);
}

use diskovery::fs_tree::NodeKind;
use diskovery::scanner::{build_tree, entry_node, try_build_tree};

fn stat(p: &str, is_dir: bool, size: u64) -> (String, bool, u64) {
    (p.to_string(), is_dir, size)
}

fn listing() -> Vec<(String, bool, u64)> {
    vec![
        stat("/r", true, 0),
        stat("/r/a", true, 0),
        stat("/r/a/f1", false, 100),
        stat("/r/b.txt", false, 50),
        stat("/r/a/f2", false, 300),
        stat("/r/a/deep", true, 0),
        stat("/r/a/deep/g", false, 7),
        stat("/r/empty", true, 0),
    ]
}

#[test]
fn build_tree_nests_entries_under_their_parents() {
    let root = build_tree(&"/r".to_string(), &listing());
    assert_eq!(root.path, "/r");
    assert_eq!(root.name, "r");
    let names: Vec<&str> = root.children.iter().map(|c| c.name.as_str()).collect();
    assert_eq!(names, vec!["a", "b.txt", "empty"]);
    let a = &root.children[0];
    let a_names: Vec<&str> = a.children.iter().map(|c| c.name.as_str()).collect();
    assert_eq!(a_names, vec!["f2", "f1", "deep"]);
    assert_eq!(a.children[2].children[0].path, "/r/a/deep/g");
    assert!(!root.expanded);
}

#[test]
fn directory_size_is_total_of_files_below() {
    let root = build_tree(&"/r".to_string(), &listing());
    assert_eq!(root.size, 457);
    assert_eq!(root.children[0].size, 407);
    assert_eq!(root.children[0].children[2].size, 7);
    assert_eq!(root.children[1].size, 50);
    assert_eq!(root.children[2].size, 0);
}

#[test]
fn directory_missing_from_listing_still_gets_sizes() {
    let stats = vec![stat("/r", true, 0), stat("/r/x/f", false, 9)];
    let root = build_tree(&"/r".to_string(), &stats);
    assert_eq!(root.size, 9);
    assert!(root.children.is_empty());
}

#[test]
fn empty_listing_gives_empty_root() {
    let root = build_tree(&"/r".to_string(), &vec![]);
    assert_eq!(root.size, 0);
    assert!(root.children.is_empty());
}

#[test]
fn try_build_tree_refuses_overflowing_sizes() {
    let stats = vec![
        stat("/r", true, 0),
        stat("/r/a", false, u64::MAX / 2 + 1),
        stat("/r/b", false, u64::MAX / 2 + 1),
    ];
    assert!(try_build_tree(&"/r".to_string(), &stats).is_none());
    let fine = vec![stat("/r", true, 0), stat("/r/a", false, u64::MAX)];
    assert_eq!(try_build_tree(&"/r".to_string(), &fine).unwrap().size, u64::MAX);
}

#[test]
fn root_given_with_a_trailing_separator_gets_its_files() {
    let stats = vec![stat("/r/", true, 0), stat("/r/a.txt", false, 5), stat("/r/d", true, 0), stat("/r/d/f", false, 2)];
    let root = build_tree(&"/r/".to_string(), &stats);
    assert_eq!(root.path, "/r/");
    assert_eq!(root.size, 7);
    let names: Vec<&str> = root.children.iter().map(|c| c.name.as_str()).collect();
    assert_eq!(names, vec!["a.txt", "d"]);
    assert_eq!(root.children[1].size, 2);
}

#[test]
fn entry_node_places_unreadable_entries_and_files() {
    let (n, k) = entry_node("/r/locked".to_string(), None).unwrap();
    assert_eq!((n.name.as_str(), n.kind, n.size, k), ("locked", NodeKind::Directory, 0, 1));
    let (f, k) = entry_node("/r/a.txt".to_string(), Some((true, 42))).unwrap();
    assert_eq!((f.name.as_str(), f.kind, f.size, k), ("a.txt", NodeKind::File, 42, 0));
    assert!(entry_node("/r/dir".to_string(), Some((false, 4096))).is_none());
}

use diskovery::fs_tree::{node_name, rebuild_flat_list, FsNode, NodeKind};

fn dir(path: &str, size: u64, children: Vec<FsNode>, expanded: bool) -> FsNode {
    let mut n = FsNode::new_dir(path.to_string());
    n.size = size;
    n.children = children;
    n.expanded = expanded;
    n
}

fn file(path: &str, size: u64) -> FsNode {
    FsNode::new_file(path.to_string(), size)
}

fn child_names(n: &FsNode) -> Vec<String> {
    n.children.iter().map(|c| c.name.clone()).collect()
}

#[test]
fn new_dir_takes_last_component_as_name() {
    let n = FsNode::new_dir("/home/user/docs".to_string());
    assert_eq!(n.name, "docs");
    assert_eq!(n.path, "/home/user/docs");
    assert_eq!(n.kind, NodeKind::Directory);
    assert_eq!(n.size, 0);
    assert!(n.children.is_empty());
    assert!(!n.expanded);
    assert!(!n.selected);
}

#[test]
fn new_dir_of_root_is_named_by_its_path() {
    let n = FsNode::new_dir("/".to_string());
    assert_eq!(n.name, "/");
}

#[test]
fn new_file_keeps_size_and_name() {
    let n = FsNode::new_file("/a/b.txt".to_string(), 10);
    assert_eq!(n.name, "b.txt");
    assert_eq!(n.kind, NodeKind::File);
    assert_eq!(n.size, 10);
}

#[test]
fn node_name_falls_back_to_path() {
    assert_eq!(node_name(&"/x/y".to_string(), None), "/x/y");
    assert_eq!(node_name(&"/x/y".to_string(), Some("y".to_string())), "y");
}

#[test]
fn sort_orders_largest_first_and_keeps_ties_in_order() {
    let mut root = dir(
        "/r",
        14,
        vec![file("/r/a", 1), file("/r/b", 5), file("/r/c", 3), file("/r/d", 5)],
        true,
    );
    root.sort_by_size_desc();
    assert_eq!(child_names(&root), vec!["b", "d", "c", "a"]);
}

#[test]
fn sort_reaches_every_level() {
    let inner = dir("/r/x", 9, vec![file("/r/x/s", 2), file("/r/x/l", 7)], false);
    let mut root = dir("/r", 10, vec![file("/r/f", 1), inner], true);
    root.sort_by_size_desc();
    assert_eq!(child_names(&root), vec!["x", "f"]);
    assert_eq!(child_names(&root.children[0]), vec!["l", "s"]);
}

#[test]
fn sorting_twice_is_sorting_once() {
    let inner = dir("/r/x", 9, vec![file("/r/x/s", 2), file("/r/x/l", 7)], false);
    let mut root = dir("/r", 10, vec![file("/r/f", 1), inner, file("/r/g", 1)], true);
    root.sort_by_size_desc();
    let once: Vec<String> = child_names(&root);
    root.sort_by_size_desc();
    assert_eq!(child_names(&root), once);
    assert_eq!(child_names(&root.children[0]), vec!["l", "s"]);
}

#[test]
fn find_returns_first_node_in_preorder() {
    let inner = dir("/r/x", 9, vec![file("/r/x/s", 2)], false);
    let root = dir("/r", 10, vec![inner, file("/r/f", 1)], true);
    assert_eq!(root.find(&"/r".to_string()).unwrap().name, "r");
    assert_eq!(root.find(&"/r/x/s".to_string()).unwrap().size, 2);
    assert_eq!(root.find(&"/r/f".to_string()).unwrap().size, 1);
    assert!(root.find(&"/r/zz".to_string()).is_none());
}

#[test]
fn find_mut_changes_the_found_node_only() {
    let inner = dir("/r/x", 9, vec![file("/r/x/s", 2)], false);
    let mut root = dir("/r", 10, vec![inner, file("/r/f", 1)], true);
    {
        let n = root.find_mut(&"/r/x/s".to_string()).unwrap();
        n.selected = true;
    }
    assert!(root.children[0].children[0].selected);
    assert!(!root.children[1].selected);
    assert!(!root.selected);
    assert!(root.find_mut(&"/nowhere".to_string()).is_none());
}

#[test]
fn flat_list_shows_expanded_nodes_in_preorder() {
    let inner = dir("/r/x", 9, vec![file("/r/x/s", 2), file("/r/x/t", 7)], true);
    let hidden = dir("/r/y", 4, vec![file("/r/y/z", 4)], false);
    let root = dir("/r", 14, vec![inner, hidden, file("/r/f", 1)], true);
    let list = rebuild_flat_list(&root);
    let paths: Vec<&str> = list.iter().map(|i| i.path.as_str()).collect();
    assert_eq!(paths, vec!["/r", "/r/x", "/r/x/s", "/r/x/t", "/r/y", "/r/f"]);
    let depths: Vec<usize> = list.iter().map(|i| i.depth).collect();
    assert_eq!(depths, vec![0, 1, 2, 2, 1, 1]);
    let parents: Vec<u64> = list.iter().map(|i| i.parent_size).collect();
    assert_eq!(parents, vec![14, 14, 9, 9, 14, 14]);
    assert!(list[1].has_children);
    assert!(list[4].has_children);
    assert!(!list[4].expanded);
    assert!(!list[5].has_children);
    assert_eq!(list[5].kind, NodeKind::File);
}

#[test]
fn collapsed_root_shows_one_row() {
    let root = dir("/r", 3, vec![file("/r/f", 3)], false);
    let list = rebuild_flat_list(&root);
    assert_eq!(list.len(), 1);
    assert_eq!(list[0].depth, 0);
    assert_eq!(list[0].parent_size, 3);
}

#[test]
fn clone_copies_the_whole_subtree() {
    let mut root = dir("/r", 30, vec![dir("/r/a", 20, vec![file("/r/a/x", 20)], true), file("/r/b", 10)], true);
    root.selected = true;
    let copy = root.clone();
    assert_eq!(copy.path, "/r");
    assert_eq!(copy.size, 30);
    assert!(copy.expanded && copy.selected);
    assert_eq!(child_names(&copy), vec!["a".to_string(), "b".to_string()]);
    assert_eq!(copy.children[0].children[0].path, "/r/a/x");
    assert_eq!(copy.children[0].children[0].size, 20);
    root.children.clear();
    assert_eq!(copy.children.len(), 2);
}

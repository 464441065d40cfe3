use rustsync::scanner::{DiffReason, FileDiff};
use rustsync::tree::{build_tree, TreeNode};

fn path(s: &str) -> Vec<String> {
    s.split('/').map(|c| c.to_string()).collect()
}

fn diff(s: &str, size: u64) -> FileDiff {
    FileDiff { rel_path: path(s), size, modified: Some(0), reason: DiffReason::Missing }
}

fn row_names(tree: &TreeNode) -> Vec<(usize, String)> {
    tree.flatten().iter().map(|(d, n)| (*d, n.name.clone())).collect()
}

#[test]
fn new_root_is_an_empty_expanded_directory() {
    let root = TreeNode::new_root();
    assert!(root.is_dir);
    assert!(root.expanded);
    assert_eq!(root.name, "");
    assert!(root.rel_path.is_empty());
    assert!(root.children.is_empty());
    assert!(root.diff.is_none());
    assert!(root.flatten().is_empty());
    assert_eq!(root.file_count(), 0);
    assert_eq!(root.total_size(), 0);
}

#[test]
fn insert_creates_directories_along_the_path() {
    let mut root = TreeNode::new_root();
    root.insert(diff("a/b/c.txt", 5));
    assert_eq!(root.children.len(), 1);
    let a = &root.children[0];
    assert_eq!(a.name, "a");
    assert!(a.is_dir && a.expanded);
    assert_eq!(a.rel_path, path("a"));
    let b = &a.children[0];
    assert_eq!(b.rel_path, path("a/b"));
    let c = &b.children[0];
    assert!(!c.is_dir);
    assert!(!c.expanded);
    assert_eq!(c.rel_path, path("a/b/c.txt"));
    assert_eq!(c.diff.as_ref().unwrap().size, 5);
}

#[test]
fn children_come_in_name_order() {
    let tree = build_tree(&[diff("zeta", 1), diff("alpha", 2), diff("Beta", 3), diff("mid/x", 4)]);
    assert_eq!(
        row_names(&tree),
        vec![(0, "Beta".to_string()), (0, "alpha".to_string()), (0, "mid".to_string()), (1, "x".to_string()), (0, "zeta".to_string())]
    );
}

#[test]
fn an_existing_entry_is_kept() {
    let tree = build_tree(&[diff("a.txt", 1), diff("a.txt", 99)]);
    assert_eq!(tree.children.len(), 1);
    assert_eq!(tree.children[0].diff.as_ref().unwrap().size, 1);
    assert_eq!(tree.file_count(), 1);
    assert_eq!(tree.total_size(), 1);
}

#[test]
fn counts_and_sizes_add_up() {
    let tree = build_tree(&[diff("d/a", 10), diff("d/b", 20), diff("e/f/g", 30), diff("top", 1)]);
    assert_eq!(tree.file_count(), 4);
    assert_eq!(tree.total_size(), 61);
    assert_eq!(tree.children[0].file_count(), 2);
    assert_eq!(tree.children[0].total_size(), 30);
    assert_eq!(tree.children[1].file_count(), 1);
    assert_eq!(tree.children[1].total_size(), 30);
}

#[test]
fn collapsing_hides_children_and_toggling_twice_restores() {
    let mut tree = build_tree(&[diff("d/a", 1), diff("d/b", 2), diff("z", 3)]);
    assert_eq!(row_names(&tree).len(), 4);
    tree.toggle_expand(&path("d"));
    assert!(!tree.children[0].expanded);
    assert_eq!(row_names(&tree), vec![(0, "d".to_string()), (0, "z".to_string())]);
    tree.toggle_expand(&path("d"));
    assert!(tree.children[0].expanded);
    assert_eq!(row_names(&tree).len(), 4);
}

#[test]
fn toggling_a_file_path_changes_nothing() {
    let mut tree = build_tree(&[diff("d/a", 1)]);
    tree.toggle_expand(&path("d/a"));
    assert!(!tree.children[0].children[0].expanded);
    assert!(tree.children[0].expanded);
}

#[test]
fn empty_paths_are_ignored() {
    let tree = build_tree(&[FileDiff { rel_path: vec![], size: 7, modified: None, reason: DiffReason::Missing }]);
    assert!(tree.children.is_empty());
}

fn find<'a>(tree: &'a TreeNode, p: &[String]) -> Option<&'a TreeNode> {
    let mut node = tree;
    for name in p {
        node = node.children.iter().find(|c| &c.name == name)?;
    }
    Some(node)
}

#[test]
fn every_difference_is_a_file_at_its_own_path() {
    let diffs = vec![diff("src/main.rs", 11), diff("src/lib/a.rs", 22), diff("README", 33), diff("src/lib/b.rs", 44)];
    let tree = build_tree(&diffs);
    for d in &diffs {
        let node = find(&tree, &d.rel_path).expect("difference missing from the tree");
        assert!(!node.is_dir);
        assert_eq!(node.rel_path, d.rel_path);
        assert_eq!(node.name, *d.rel_path.last().unwrap());
        assert_eq!(node.diff.as_ref().unwrap().size, d.size);
    }
    assert_eq!(tree.file_count(), diffs.len());
    assert_eq!(tree.total_size(), 11 + 22 + 33 + 44);
    let files = tree.flatten().iter().filter(|(_, n)| !n.is_dir).count();
    assert_eq!(files, diffs.len());
}

fn shape(n: &TreeNode) -> String {
    let mut out = format!("{}|{:?}|{}|{}|{:?}[", n.name, n.rel_path, n.is_dir, n.expanded, n.diff.as_ref().map(|d| d.size));
    for c in &n.children {
        out.push_str(&shape(c));
        out.push(',');
    }
    out.push(']');
    out
}

#[test]
fn building_does_not_depend_on_order() {
    let a = vec![diff("src/main.rs", 1), diff("src/lib/x.rs", 2), diff("doc/a", 3), diff("z", 4), diff("src/lib/y.rs", 5)];
    let mut b: Vec<FileDiff> = a.iter().rev().cloned().collect();
    b.swap(1, 3);
    assert_eq!(shape(&build_tree(&a)), shape(&build_tree(&b)));
}

fn check_placed(n: &TreeNode) {
    for c in &n.children {
        let mut expected = n.rel_path.clone();
        expected.push(c.name.clone());
        assert_eq!(c.rel_path, expected);
        if c.is_dir {
            assert!(c.diff.is_none());
            assert!(c.expanded);
        } else {
            assert_eq!(c.diff.as_ref().unwrap().rel_path, c.rel_path);
            assert!(c.children.is_empty());
        }
        check_placed(c);
    }
}

#[test]
fn insertion_places_every_node() {
    let tree = build_tree(&[diff("a/b/c", 1), diff("a/d", 2), diff("e", 3), diff("a/b/f", 4)]);
    check_placed(&tree);
}

#[test]
fn insert_into_any_node() {
    let mut leaf = TreeNode::new_root();
    leaf.diff = Some(diff("x", 1));
    leaf.insert(diff("y/z", 2));
    assert_eq!(leaf.children.len(), 1);
    assert_eq!(leaf.children[0].children[0].name, "z");
}

use std::path::PathBuf;

use squirreldisk::scanner::{progress_step, ScanOutcome, Scanner};

use squirreldisk::scan::{
    begin_node, finish_dir, is_banned_root_entry, record_entry, skips_entry, EntryKind, Node, Tree,
    BANNED_ROOT_ENTRIES,
};

fn node(name: &str, size: u64, parent: Option<usize>) -> Node {
    Node { name: name.to_string(), size, is_dir: parent.is_none() || size == 0, parent, children: Vec::new() }
}

// root(0) -> a(1, size 30) -> b(2, size 10), c(3, size 20)
fn sample_tree() -> Tree {
    let mut nodes = vec![node("root", 30, None), node("a", 30, Some(0)), node("b", 10, Some(1)), node("c", 20, Some(1))];
    nodes[0].is_dir = true;
    nodes[1].is_dir = true;
    nodes[0].children = vec![1];
    nodes[1].children = vec![2, 3];
    Tree { nodes, root: 0, root_path: "/tmp/root".to_string() }
}

#[test]
fn full_path_walks_up_to_root() {
    let tree = sample_tree();
    assert_eq!(PathBuf::from(tree.full_path(0)), PathBuf::from("/tmp/root"));
    assert_eq!(PathBuf::from(tree.full_path(1)), PathBuf::from("/tmp/root/a"));
    assert_eq!(PathBuf::from(tree.full_path(3)), PathBuf::from("/tmp/root/a/c"));
}

#[test]
fn remove_subtracts_from_all_ancestors() {
    let mut tree = sample_tree();
    tree.remove(3); // remove "c" (size 20) from under "a"
    assert_eq!(tree.nodes[1].size, 10); // a: 30 - 20
    assert_eq!(tree.nodes[0].size, 10); // root: 30 - 20
    assert!(!tree.nodes[1].children.contains(&3));
    assert_eq!(tree.nodes[3].size, 0);
}

#[test]
fn banned_root_entries_filters_expected_names() {
    for name in ["dev", "proc", "sys", "mnt"] {
        assert!(BANNED_ROOT_ENTRIES.contains(&name));
    }
    assert!(!BANNED_ROOT_ENTRIES.contains(&"home"));
}

#[test]
fn full_path_does_not_double_a_trailing_separator() {
    let mut tree = sample_tree();
    tree.root_path = "/".to_string();
    assert_eq!(tree.full_path(3), "/a/c");
    tree.root_path = String::new();
    assert_eq!(tree.full_path(2), "a/b");
}

#[test]
fn full_path_of_a_node_with_an_absolute_name_starts_over() {
    let mut tree = sample_tree();
    tree.nodes[1].name = "/elsewhere".to_string();
    assert_eq!(tree.full_path(3), "/elsewhere/c");
}

#[test]
fn remove_leaves_an_orphaned_leaf_and_keeps_paths() {
    let mut tree = sample_tree();
    tree.remove(1); // remove "a" (size 30) from under the root
    assert_eq!(tree.nodes[0].size, 0);
    assert!(tree.nodes[0].children.is_empty());
    assert_eq!(tree.nodes[1].size, 0);
    assert!(tree.nodes[1].children.is_empty());
    assert_eq!(tree.nodes[1].parent, Some(0));
    assert!(tree.nodes[1].is_dir);
    // the detached grandchildren are untouched
    assert_eq!(tree.nodes[2].size, 10);
    assert_eq!(tree.full_path(3), "/tmp/root/a/c");
}

#[test]
fn remove_of_the_root_only_empties_it() {
    let mut tree = sample_tree();
    tree.remove(0);
    assert_eq!(tree.nodes[0].size, 0);
    assert!(tree.nodes[0].children.is_empty());
    assert_eq!(tree.nodes[1].size, 30);
    assert_eq!(tree.nodes[1].children, vec![2, 3]);
}

#[test]
fn can_remove_refuses_what_would_underflow() {
    let mut tree = sample_tree();
    assert!(tree.can_remove(3));
    assert!(tree.can_remove(0));
    assert!(!tree.can_remove(4));
    tree.remove(1);
    // "c" is detached: its former parent now has size 0
    assert!(!tree.can_remove(3));
    tree.nodes[3].size = 0;
    assert!(tree.can_remove(3));
}

#[test]
fn banned_names_are_recognised() {
    for name in BANNED_ROOT_ENTRIES {
        assert!(is_banned_root_entry(name));
    }
    assert!(!is_banned_root_entry("home"));
    assert!(!is_banned_root_entry("Dev"));
    assert!(!is_banned_root_entry("devices"));
    assert!(skips_entry("proc", true, true, false));
    assert!(!skips_entry("proc", false, true, false));
    assert!(!skips_entry("proc", true, false, false));
    assert!(!skips_entry("proc", true, true, true));
    assert!(!skips_entry("home", true, true, false));
}

#[test]
fn begin_node_pushes_an_empty_leaf() {
    let mut arena = Vec::new();
    let root = begin_node(&mut arena, None, "root".to_string());
    let child = begin_node(&mut arena, Some(root), "x".to_string());
    assert_eq!((root, child), (0, 1));
    assert_eq!(arena[1].name, "x");
    assert_eq!(arena[1].size, 0);
    assert!(!arena[1].is_dir);
    assert_eq!(arena[1].parent, Some(0));
    assert!(arena[1].children.is_empty());
}

#[test]
fn finish_dir_orders_children_by_size_stably_and_sums_them() {
    let mut arena = vec![node("root", 0, None), node("a", 5, Some(0)), node("b", 20, Some(0)), node("c", 5, Some(0)), node("d", 0, Some(0)), node("e", 20, Some(0))];
    arena[0].is_dir = true;
    finish_dir(&mut arena, 0, vec![1, 2, 3, 4, 5]);
    assert_eq!(arena[0].children, vec![2, 5, 1, 3, 4]);
    assert_eq!(arena[0].size, 50);
    assert_eq!(arena[0].name, "root");
    assert_eq!(arena[2].size, 20);
}

#[test]
fn finish_dir_of_an_empty_folder_is_empty() {
    let mut arena = vec![node("root", 7, None)];
    finish_dir(&mut arena, 0, Vec::new());
    assert!(arena[0].children.is_empty());
    assert_eq!(arena[0].size, 0);
}

fn sizes_add_up(tree: &Tree) -> bool {
    tree.nodes.iter().all(|n| {
        !(n.is_dir || !n.children.is_empty())
            || n.size == n.children.iter().map(|&c| tree.nodes[c].size).sum::<u64>()
    })
}

#[test]
fn remove_keeps_sizes_adding_up() {
    let mut tree = sample_tree();
    assert!(sizes_add_up(&tree));
    tree.remove(2);
    assert!(sizes_add_up(&tree));
    assert_eq!(tree.nodes[0].size, 20);
    assert_eq!(tree.nodes[1].children, vec![3]);
    assert!(tree.can_remove(3));
    tree.remove(3);
    assert!(sizes_add_up(&tree));
    assert_eq!(tree.nodes[0].size, 0);
    assert_eq!(tree.full_path(2), "/tmp/root/a/b");
}

#[test]
fn a_parent_stored_after_its_child_is_fine() {
    let mut nodes = vec![node("x", 5, Some(1)), node("r", 5, None)];
    nodes[1].is_dir = true;
    nodes[1].children = vec![0];
    let mut tree = Tree { nodes, root: 1, root_path: "/r".to_string() };
    assert!(tree.is_rooted(0));
    assert_eq!(tree.full_path(0), "/r/x");
    assert_eq!(tree.path_names(0), vec!["x".to_string()]);
    assert!(tree.can_remove(0));
    tree.remove(0);
    assert_eq!(tree.nodes[1].size, 0);
    assert!(tree.nodes[1].children.is_empty());
}

#[test]
fn cycles_and_dangling_parents_are_not_rooted() {
    let tree = Tree {
        nodes: vec![node("a", 1, Some(1)), node("b", 1, Some(0)), node("c", 1, Some(7)), node("d", 1, Some(3))],
        root: 0,
        root_path: "/".to_string(),
    };
    assert!(!tree.is_rooted(0));
    assert!(!tree.is_rooted(1));
    assert!(!tree.is_rooted(2));
    assert!(!tree.is_rooted(3));
    assert!(!tree.is_rooted(4));
    assert!(!tree.can_remove(0));
}

#[test]
fn path_names_lead_down_from_the_top() {
    let tree = sample_tree();
    assert!(tree.path_names(0).is_empty());
    assert_eq!(tree.path_names(3), vec!["a".to_string(), "c".to_string()]);
    let mut path = PathBuf::from(&tree.root_path);
    for name in tree.path_names(3) {
        path.push(name);
    }
    assert_eq!(path, PathBuf::from(tree.full_path(3)));
}

#[test]
fn removing_twice_changes_nothing_more() {
    let mut tree = sample_tree();
    tree.remove(2);
    let sizes: Vec<u64> = tree.nodes.iter().map(|n| n.size).collect();
    let lists: Vec<Vec<usize>> = tree.nodes.iter().map(|n| n.children.clone()).collect();
    assert!(tree.can_remove(2));
    tree.remove(2);
    assert_eq!(tree.nodes.iter().map(|n| n.size).collect::<Vec<u64>>(), sizes);
    assert_eq!(tree.nodes.iter().map(|n| n.children.clone()).collect::<Vec<_>>(), lists);
}

#[test]
fn removals_of_unrelated_nodes_commute() {
    let mut one = sample_tree();
    one.remove(2);
    one.remove(3);
    let mut two = sample_tree();
    two.remove(3);
    two.remove(2);
    assert_eq!(one.nodes.iter().map(|n| n.size).collect::<Vec<u64>>(), two.nodes.iter().map(|n| n.size).collect::<Vec<u64>>());
    assert_eq!(
        one.nodes.iter().map(|n| n.children.clone()).collect::<Vec<_>>(),
        two.nodes.iter().map(|n| n.children.clone()).collect::<Vec<_>>()
    );
}

#[test]
fn record_entry_follows_the_metadata() {
    let mut arena = vec![node("root", 0, None), node("f", 0, Some(0)), node("l", 0, Some(0))];
    arena[0].is_dir = false;
    assert!(record_entry(&mut arena, 0, EntryKind::Folder));
    assert!(arena[0].is_dir);
    assert!(!record_entry(&mut arena, 1, EntryKind::File(42)));
    assert_eq!(arena[1].size, 42);
    assert!(!record_entry(&mut arena, 2, EntryKind::Symlink));
    assert_eq!(arena[2].size, 0);
}

#[test]
fn remove_deleted_removes_in_turn_and_stops_at_a_refusal() {
    let mut tree = sample_tree();
    assert_eq!(tree.remove_deleted(&vec![3, 2]), 2);
    assert_eq!(tree.nodes[0].size, 0);
    assert_eq!(tree.nodes[1].size, 0);
    assert!(tree.nodes[1].children.is_empty());

    let mut tree = sample_tree();
    tree.nodes[2].size = 40; // larger than its ancestors: cannot be removed
    assert_eq!(tree.remove_deleted(&vec![3, 2, 1]), 1);
    assert_eq!(tree.nodes[1].size, 10);
    assert_eq!(tree.nodes[1].children, vec![2]);
    assert_eq!(tree.nodes[2].size, 40);
}

#[test]
fn scanner_builds_a_consistent_sorted_tree() {
    let mut s = Scanner::new();
    assert_eq!(s.add_entry("root".to_string(), EntryKind::Folder), Some(0));
    assert_eq!(s.add_entry("small".to_string(), EntryKind::File(5)), Some(1));
    assert_eq!(s.add_entry("sub".to_string(), EntryKind::Folder), Some(2));
    assert_eq!(s.add_entry("big".to_string(), EntryKind::File(40)), Some(3));
    assert_eq!(s.add_entry("link".to_string(), EntryKind::Symlink), Some(4));
    assert!(s.close_folder());
    assert_eq!(s.add_entry("mid".to_string(), EntryKind::File(5)), Some(5));
    assert_eq!(s.add_entry("gone".to_string(), EntryKind::Unread), Some(6));
    assert!(s.close_folder());
    assert!(!s.close_folder());
    assert_eq!(s.add_entry("late".to_string(), EntryKind::File(1)), None);
    let tree = s.into_tree("/data".to_string());
    assert_eq!(tree.nodes[0].size, 50);
    assert_eq!(tree.nodes[0].children, vec![2, 1, 5, 6]);
    assert_eq!(tree.nodes[2].size, 40);
    assert_eq!(tree.nodes[2].children, vec![3, 4]);
    assert!(tree.nodes[2].is_dir);
    assert!(!tree.nodes[4].is_dir);
    assert_eq!(tree.full_path(3), "/data/sub/big");
    assert!(sizes_add_up(&tree));
}

#[test]
fn scanner_refuses_an_overflowing_total() {
    let mut s = Scanner::new();
    s.add_entry("root".to_string(), EntryKind::Folder);
    assert_eq!(s.add_entry("a".to_string(), EntryKind::File(u64::MAX)), Some(1));
    assert_eq!(s.add_entry("b".to_string(), EntryKind::File(1)), None);
    assert_eq!(s.nodes.len(), 2);
    assert!(s.close_folder());
    assert_eq!(s.nodes[0].size, u64::MAX);
}

#[test]
fn progress_counts_follow_the_outcome() {
    assert_eq!(progress_step(ScanOutcome::Cancelled), (0, 0, 0));
    assert_eq!(progress_step(ScanOutcome::Unreadable), (0, 0, 1));
    assert_eq!(progress_step(ScanOutcome::Symlink), (1, 0, 0));
    assert_eq!(progress_step(ScanOutcome::FolderUnreadable), (0, 0, 1));
    assert_eq!(progress_step(ScanOutcome::Folder), (1, 0, 0));
    assert_eq!(progress_step(ScanOutcome::File(9)), (1, 9, 0));
}

use squirreldisk::scan::{Node, Tree};
use squirreldisk::viewmodel::{
    build_display_entries, cell_color, decimal_text, delete_totals, display_entries_fit,
};

fn node(name: &str, size: u64, is_dir: bool, parent: Option<usize>) -> Node {
    Node { name: name.to_string(), size, is_dir, parent, children: Vec::new() }
}

fn folder_tree() -> Tree {
    let mut nodes = vec![
        node("root", 1000, true, None),
        node("a", 500, true, Some(0)),
        node("b", 5, false, Some(0)),
        node("c", 0, false, Some(0)),
        node("d", 10, false, Some(0)),
        node("e", 485, false, Some(0)),
    ];
    nodes[0].children = vec![1, 2, 3, 4, 5];
    Tree { nodes, root: 0, root_path: "/data".to_string() }
}

fn summary(tree: &Tree, focus: usize) -> Vec<(i32, String, u64, bool)> {
    build_display_entries(tree, focus).into_iter().map(|e| (e.node_id, e.name, e.size, e.is_dir)).collect()
}

#[test]
fn small_children_are_bucketed_and_empty_ones_left_out() {
    let tree = folder_tree();
    assert!(display_entries_fit(&tree, 0));
    assert_eq!(
        summary(&tree, 0),
        vec![
            (1, "a".to_string(), 500, true),
            (5, "e".to_string(), 485, false),
            (-1, "Smaller items (2)".to_string(), 15, false),
        ]
    );
}

#[test]
fn entries_add_up_to_the_children() {
    let tree = folder_tree();
    let total: u64 = build_display_entries(&tree, 0).iter().map(|e| e.size).sum();
    assert_eq!(total, 1000);
}

#[test]
fn equal_sizes_keep_child_order_and_the_bucket_comes_last_among_equals() {
    let mut nodes = vec![node("root", 300, true, None)];
    for (i, size) in [100u64, 1, 100, 1, 1, 97].iter().enumerate() {
        nodes.push(node(&format!("n{i}"), *size, false, Some(0)));
    }
    nodes[0].children = vec![1, 2, 3, 4, 5, 6];
    let tree = Tree { nodes, root: 0, root_path: "/".to_string() };
    let ids: Vec<i32> = build_display_entries(&tree, 0).iter().map(|e| e.node_id).collect();
    assert_eq!(ids, vec![1, 3, 6, -1]);
    let entries = build_display_entries(&tree, 0);
    assert_eq!(entries[3].name, "Smaller items (3)");
    assert_eq!(entries[3].size, 3);
}

#[test]
fn an_empty_folder_measures_against_one_byte() {
    let mut nodes = vec![node("root", 0, true, None), node("x", 0, false, Some(0))];
    nodes[0].children = vec![1];
    let tree = Tree { nodes, root: 0, root_path: "/".to_string() };
    assert!(build_display_entries(&tree, 0).is_empty());

    let mut nodes = vec![node("root", 0, true, None), node("x", 1, false, Some(0))];
    nodes[0].children = vec![1];
    let tree = Tree { nodes, root: 0, root_path: "/".to_string() };
    assert_eq!(summary(&tree, 0), vec![(1, "x".to_string(), 1, false)]);
}

#[test]
fn one_hundredth_exactly_goes_to_the_bucket() {
    let mut nodes = vec![node("root", 100, true, None), node("x", 1, false, Some(0)), node("y", 2, false, Some(0))];
    nodes[0].children = vec![1, 2];
    let tree = Tree { nodes, root: 0, root_path: "/".to_string() };
    assert_eq!(
        summary(&tree, 0),
        vec![(2, "y".to_string(), 2, false), (-1, "Smaller items (1)".to_string(), 1, false)]
    );
}

#[test]
fn entries_fit_checks_the_arena() {
    let tree = folder_tree();
    assert!(!display_entries_fit(&tree, 6));
    let mut broken = folder_tree();
    broken.nodes[0].children.push(42);
    assert!(!display_entries_fit(&broken, 0));
}

#[test]
fn decimal_text_writes_digits() {
    assert_eq!(decimal_text(0), "0");
    assert_eq!(decimal_text(7), "7");
    assert_eq!(decimal_text(10), "10");
    assert_eq!(decimal_text(305), "305");
    assert_eq!(decimal_text(u32::MAX), "4294967295");
}

#[test]
fn cell_colors_follow_the_palette() {
    assert_eq!(cell_color(-1, 3, true), (75, 85, 99));
    assert_eq!(cell_color(0, 0, true), (99, 102, 241));
    assert_eq!(cell_color(4, 13, true), (239, 68, 68));
    assert_eq!(cell_color(4, 13, false), (167, 47, 47));
    assert_eq!(cell_color(2, 9, false), (163, 125, 5));
}

#[test]
fn delete_totals_count_existing_marked_nodes() {
    let tree = folder_tree();
    assert_eq!(delete_totals(&tree, &vec![-1, 1, 5, 99]), Some((2, 985)));
    assert_eq!(delete_totals(&tree, &vec![]), Some((0, 0)));
    let mut big = folder_tree();
    big.nodes[1].size = u64::MAX;
    assert_eq!(delete_totals(&big, &vec![1, 2]), None);
}

#[test]
fn only_folders_can_be_focused() {
    let tree = folder_tree();
    assert!(tree.is_folder(0));
    assert!(tree.is_folder(1));
    assert!(!tree.is_folder(2));
    assert!(!tree.is_folder(-1));
    assert!(!tree.is_folder(6));
}

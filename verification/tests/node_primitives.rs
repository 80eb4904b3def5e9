use arena_bst::node::BstNode;
use arena_bst::tree::BST;

fn sample() -> BST {
    let mut tree = BST::new();
    for k in [10, 5, 15, 3, 7, 12, 18] {
        tree.tree_insert(k);
    }
    tree
}

#[test]
fn new_node_has_key_and_no_links() {
    let node = BstNode::new(7);
    assert_eq!(node, BstNode { key: Some(7), parent: None, left: None, right: None });
}

#[test]
fn new_nodelink_takes_the_next_slot() {
    let mut nodes = Vec::new();
    assert_eq!(BstNode::new_bst_nodelink(&mut nodes, 4), 0);
    assert_eq!(BstNode::new_bst_nodelink(&mut nodes, 6), 1);
    assert_eq!(nodes.len(), 2);
    assert_eq!(nodes[1], BstNode { key: Some(6), parent: None, left: None, right: None });
}

#[test]
fn new_with_parent_sets_the_back_reference() {
    let mut nodes = Vec::new();
    let root = BstNode::new_bst_nodelink(&mut nodes, 4);
    let child = BstNode::new_with_parent(&mut nodes, root, 9);
    assert_eq!(child, 1);
    assert_eq!(nodes[child], BstNode { key: Some(9), parent: Some(root), left: None, right: None });
    assert_eq!(nodes[root].left, None);
    assert_eq!(nodes[root].right, None);
}

#[test]
fn copy_has_the_same_key_and_links() {
    let tree = sample();
    let copy = tree.nodes[1].get_bst_nodelink_copy();
    assert_eq!(copy, BstNode { key: Some(5), parent: Some(0), left: Some(3), right: Some(4) });
    assert_eq!(copy, tree.nodes[1]);
}

#[test]
fn add_left_child_attaches_without_order_check() {
    let mut nodes = Vec::new();
    let root = BstNode::new_bst_nodelink(&mut nodes, 10);
    BstNode::add_left_child(&mut nodes, root, 99);
    assert_eq!(nodes[root], BstNode { key: Some(10), parent: None, left: Some(1), right: None });
    assert_eq!(nodes[1], BstNode { key: Some(99), parent: Some(root), left: None, right: None });
}

#[test]
fn add_right_child_attaches_without_order_check() {
    let mut nodes = Vec::new();
    let root = BstNode::new_bst_nodelink(&mut nodes, 10);
    BstNode::add_right_child(&mut nodes, root, -3);
    assert_eq!(nodes[root], BstNode { key: Some(10), parent: None, left: None, right: Some(1) });
    assert_eq!(nodes[1], BstNode { key: Some(-3), parent: Some(root), left: None, right: None });
}

#[test]
fn add_child_overwrites_the_earlier_link() {
    let mut nodes = Vec::new();
    let root = BstNode::new_bst_nodelink(&mut nodes, 10);
    BstNode::add_left_child(&mut nodes, root, 1);
    BstNode::add_left_child(&mut nodes, root, 2);
    assert_eq!(nodes[root].left, Some(2));
    assert_eq!(nodes[1].key, Some(1));
    assert_eq!(nodes[2].key, Some(2));
}

#[test]
fn copy_is_a_cell_of_its_own() {
    let tree = sample();
    let mut copy = tree.nodes[1].get_bst_nodelink_copy();
    copy.key = Some(99);
    copy.left = None;
    assert_eq!(tree.nodes[1].key, Some(5));
    assert_eq!(tree.nodes[1].left, Some(3));
}

#[test]
fn released_node_has_no_key_and_no_links() {
    let node = BstNode::released();
    assert_eq!(node, BstNode { key: None, parent: None, left: None, right: None });
}

#[test]
fn holds_compares_with_the_key() {
    assert!(BstNode::new(4).holds(4));
    assert!(!BstNode::new(4).holds(5));
    assert!(!BstNode::released().holds(0));
}

#[test]
fn descent_turns_left_below_the_key_only() {
    let node = BstNode::new(10);
    assert!(node.turns_left(9));
    assert!(!node.turns_left(10));
    assert!(!node.turns_left(11));
    assert!(node.turns_left(i32::MIN));
    assert!(!BstNode::released().turns_left(i32::MIN));
}

#[test]
fn successor_knows_the_left_child_by_its_key() {
    // Both children of the root hold 7.  The walk up from the right child
    // takes the root for reached from the left.
    let mut nodes = Vec::new();
    let root = BstNode::new_bst_nodelink(&mut nodes, 10);
    BstNode::add_left_child(&mut nodes, root, 7);
    BstNode::add_right_child(&mut nodes, root, 7);
    assert_eq!(BstNode::tree_successor(&nodes, 2), Some(root));
    assert_eq!(BstNode::tree_successor(&nodes, 1), Some(root));
    // With another key on the left the walk passes the root.
    let mut nodes = Vec::new();
    let root = BstNode::new_bst_nodelink(&mut nodes, 10);
    BstNode::add_left_child(&mut nodes, root, 6);
    BstNode::add_right_child(&mut nodes, root, 7);
    assert_eq!(BstNode::tree_successor(&nodes, 2), None);
}

#[test]
fn successor_of_a_detached_node_is_none() {
    let mut nodes = Vec::new();
    let only = BstNode::new_bst_nodelink(&mut nodes, 1);
    assert_eq!(BstNode::tree_successor(&nodes, only), None);
}

#[test]
fn is_nil_of_absent_node() {
    let tree = sample();
    assert!(BstNode::is_nil(&tree.nodes, None));
}

#[test]
fn is_nil_needs_parent_and_both_children() {
    let tree = sample();
    // The root has both children but no parent.
    assert!(BstNode::is_nil(&tree.nodes, Some(0)));
    // 5 and 15 have a parent and both children.
    assert!(!BstNode::is_nil(&tree.nodes, Some(1)));
    assert!(!BstNode::is_nil(&tree.nodes, Some(2)));
    // The leaves have a parent and no children.
    assert!(BstNode::is_nil(&tree.nodes, Some(3)));
    let mut tree = tree;
    tree.tree_insert(1);
    // 3 now has a left child only.
    assert!(BstNode::is_nil(&tree.nodes, Some(3)));
}

#[test]
fn is_nil_of_a_released_slot() {
    let mut tree = sample();
    tree.tree_delete(3);
    assert!(BstNode::is_nil(&tree.nodes, Some(3)));
}

#[test]
fn node_match_compares_keys() {
    let mut tree = sample();
    tree.tree_insert(7);
    assert!(BstNode::is_node_match(&tree.nodes, 4, 7));
    assert!(BstNode::is_node_match(&tree.nodes, 4, 4));
    assert!(!BstNode::is_node_match(&tree.nodes, 4, 5));
}

#[test]
fn node_match_of_nodes_without_key() {
    let nodes = vec![
        BstNode { key: None, parent: None, left: None, right: None },
        BstNode { key: None, parent: None, left: None, right: None },
        BstNode { key: Some(0), parent: None, left: None, right: None },
    ];
    assert!(BstNode::is_node_match(&nodes, 0, 1));
    assert!(!BstNode::is_node_match(&nodes, 0, 2));
    assert!(!BstNode::is_node_match(&nodes, 2, 1));
}

#[test]
fn node_match_option_cases() {
    let mut tree = sample();
    tree.tree_insert(7);
    assert!(BstNode::is_node_match_option(&tree.nodes, None, None));
    assert!(!BstNode::is_node_match_option(&tree.nodes, None, Some(0)));
    assert!(!BstNode::is_node_match_option(&tree.nodes, Some(0), None));
    assert!(BstNode::is_node_match_option(&tree.nodes, Some(4), Some(7)));
    assert!(!BstNode::is_node_match_option(&tree.nodes, Some(4), Some(0)));
}

#[test]
fn simpler_successor_with_a_full_right_child() {
    let tree = sample();
    // The right child of the root has a parent and both children.
    assert_eq!(BstNode::tree_successor_simpler(&tree.nodes, 0), Some(5));
    assert_eq!(tree.nodes[5].key, Some(12));
}

#[test]
fn simpler_successor_of_a_left_leaf_is_its_parent() {
    let tree = sample();
    assert_eq!(BstNode::tree_successor_simpler(&tree.nodes, 3), Some(1));
    assert_eq!(BstNode::tree_successor_simpler(&tree.nodes, 5), Some(2));
}

#[test]
fn simpler_successor_passes_over_a_childless_right_child() {
    let tree = sample();
    // The right child of 5 is the leaf 7, which counts as nil; the walk then
    // ends at the root and reports no successor.
    assert_eq!(BstNode::tree_successor_simpler(&tree.nodes, 1), None);
}

#[test]
fn simpler_successor_of_the_greatest_key_is_its_parent() {
    let tree = sample();
    // 18 has no right child and its parent 15 does not count as nil.
    assert_eq!(BstNode::tree_successor_simpler(&tree.nodes, 6), Some(2));
}

#[test]
fn simpler_successor_walks_up_from_a_right_child() {
    // 1 -> right 2 -> right 3: from 3 the parent 2 lacks a left child, and the
    // mark (the right child of 2, which is 3 itself) holds the key of 3.
    let mut tree = BST::new();
    for k in [0, 1, 2, 3] {
        tree.tree_insert(k);
    }
    // Walk: x = 3, y = 2 -> x = 2, y = 1: the mark holds 3, not 2: stop.
    // 1 does not hold the key of the root 0.
    assert_eq!(BstNode::tree_successor_simpler(&tree.nodes, 3), Some(1));
}

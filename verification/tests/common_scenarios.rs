use arena_bst::node::BstNode;
use arena_bst::tree::BST;

fn build(keys: &[i32]) -> BST {
    let mut tree = BST::new();
    for k in keys {
        tree.tree_insert(*k);
    }
    tree
}

fn walk(tree: &BST, link: Option<usize>, out: &mut Vec<i32>) {
    if let Some(i) = link {
        walk(tree, tree.nodes[i].left, out);
        out.push(tree.nodes[i].key.unwrap());
        walk(tree, tree.nodes[i].right, out);
    }
}

fn inorder(tree: &BST) -> Vec<i32> {
    let mut out = Vec::new();
    walk(tree, tree.root, &mut out);
    out
}

fn is_sorted(keys: &[i32]) -> bool {
    keys.windows(2).all(|w| w[0] <= w[1])
}

fn links_below(tree: &BST, link: Option<usize>, parent: Option<usize>) -> bool {
    match link {
        None => true,
        Some(i) => {
            i < tree.nodes.len()
                && tree.nodes[i].parent == parent
                && tree.nodes[i].key.is_some()
                && links_below(tree, tree.nodes[i].left, Some(i))
                && links_below(tree, tree.nodes[i].right, Some(i))
        }
    }
}

fn links_agree(tree: &BST) -> bool {
    links_below(tree, tree.root, None)
}

fn slot_of(tree: &BST, key: i32) -> usize {
    BstNode::tree_search(&tree.nodes, tree.root.unwrap(), &key).unwrap()
}

fn key_at(tree: &BST, slot: usize) -> i32 {
    tree.nodes[slot].key.unwrap()
}

fn node(key: i32, parent: Option<usize>, left: Option<usize>, right: Option<usize>) -> BstNode {
    BstNode { key: Some(key), parent, left, right }
}

fn cleared() -> BstNode {
    BstNode { key: None, parent: None, left: None, right: None }
}

#[test]
fn new_tree_is_empty() {
    let tree = BST::new();
    assert!(tree.root.is_none());
    assert!(tree.nodes.is_empty());
    assert!(tree.free.is_empty());
}

#[test]
fn first_insert_becomes_root_without_parent() {
    let tree = build(&[42]);
    assert_eq!(tree.root, Some(0));
    assert_eq!(
        tree.nodes[0],
        node(42, None, None, None)
    );
}

#[test]
fn insert_descends_left_and_right() {
    let tree = build(&[5, 3, 8, 1, 4, 7, 9]);
    assert_eq!(tree.root, Some(0));
    assert_eq!(tree.nodes[0], node(5, None, Some(1), Some(2)));
    assert_eq!(tree.nodes[1], node(3, Some(0), Some(3), Some(4)));
    assert_eq!(tree.nodes[2], node(8, Some(0), Some(5), Some(6)));
    assert_eq!(tree.nodes[3], node(1, Some(1), None, None));
    assert_eq!(tree.nodes[4], node(4, Some(1), None, None));
    assert_eq!(tree.nodes[5], node(7, Some(2), None, None));
    assert_eq!(tree.nodes[6], node(9, Some(2), None, None));
}

#[test]
fn equal_keys_go_right() {
    let tree = build(&[5, 5, 5]);
    assert_eq!(tree.nodes[0].left, None);
    assert_eq!(tree.nodes[0].right, Some(1));
    assert_eq!(tree.nodes[1].left, None);
    assert_eq!(tree.nodes[1].right, Some(2));
    assert_eq!(tree.nodes[2].parent, Some(1));
    assert_eq!(inorder(&tree), vec![5, 5, 5]);
}

#[test]
fn extreme_keys_are_accepted() {
    let tree = build(&[0, i32::MAX, i32::MIN]);
    assert_eq!(inorder(&tree), vec![i32::MIN, 0, i32::MAX]);
    assert!(links_agree(&tree));
}

#[test]
fn inorder_is_sorted_after_every_insert_and_delete() {
    let mut tree = BST::new();
    for k in [50, 30, 70, 20, 40, 60, 80, 30, 65, 10, 70] {
        tree.tree_insert(k);
        assert!(is_sorted(&inorder(&tree)));
        assert!(links_agree(&tree));
    }
    for k in [30, 70, 50, 99, 10, 65] {
        tree.tree_delete(k);
        assert!(is_sorted(&inorder(&tree)));
        assert!(links_agree(&tree));
    }
    assert_eq!(inorder(&tree), vec![20, 30, 40, 60, 70, 80]);
}

#[test]
fn round_trip_in_insertion_order() {
    let keys = [5, 3, 8, 1, 4, 7, 9];
    let mut tree = build(&keys);
    for k in keys {
        tree.tree_delete(k);
        assert!(is_sorted(&inorder(&tree)));
        assert!(links_agree(&tree));
    }
    assert!(tree.root.is_none());
}

#[test]
fn round_trip_in_reverse_order() {
    let keys = [5, 3, 8, 1, 4, 7, 9];
    let mut tree = build(&keys);
    for k in keys.iter().rev() {
        tree.tree_delete(*k);
        assert!(is_sorted(&inorder(&tree)));
        assert!(links_agree(&tree));
    }
    assert!(tree.root.is_none());
}

#[test]
fn round_trip_in_sorted_and_mixed_orders() {
    let keys = [5, 3, 8, 1, 4, 7, 9];
    let orders: [[i32; 7]; 4] = [
        [1, 3, 4, 5, 7, 8, 9],
        [9, 8, 7, 5, 4, 3, 1],
        [4, 9, 1, 5, 8, 3, 7],
        [8, 5, 3, 9, 7, 1, 4],
    ];
    for order in orders {
        let mut tree = build(&keys);
        let mut left = 7;
        for k in order {
            tree.tree_delete(k);
            left -= 1;
            assert_eq!(inorder(&tree).len(), left);
            assert!(is_sorted(&inorder(&tree)));
            assert!(links_agree(&tree));
        }
        assert!(tree.root.is_none());
    }
}

#[test]
fn search_finds_what_was_inserted_and_not_deleted() {
    let mut tree = build(&[5, 3, 8, 1, 4, 7, 9]);
    let root = tree.root.unwrap();
    for k in [5, 3, 8, 1, 4, 7, 9] {
        let hit = BstNode::tree_search(&tree.nodes, root, &k);
        assert_eq!(tree.nodes[hit.unwrap()].key, Some(k));
    }
    for k in [0, 2, 6, 10, -1] {
        assert_eq!(BstNode::tree_search(&tree.nodes, root, &k), None);
    }
    tree.tree_delete(3);
    tree.tree_delete(9);
    let root = tree.root.unwrap();
    assert_eq!(BstNode::tree_search(&tree.nodes, root, &3), None);
    assert_eq!(BstNode::tree_search(&tree.nodes, root, &9), None);
    for k in [5, 8, 1, 4, 7] {
        assert!(BstNode::tree_search(&tree.nodes, root, &k).is_some());
    }
}

#[test]
fn search_returns_the_slot_of_the_first_match() {
    let tree = build(&[5, 3, 5, 8]);
    let root = tree.root.unwrap();
    assert_eq!(BstNode::tree_search(&tree.nodes, root, &5), Some(0));
    assert_eq!(BstNode::tree_search(&tree.nodes, 2, &5), Some(2));
    assert_eq!(BstNode::tree_search(&tree.nodes, 2, &3), None);
}

#[test]
fn search_below_a_vertex_sees_its_subtree_only() {
    let tree = build(&[10, 5, 15, 3, 7, 12, 18]);
    assert_eq!(BstNode::tree_search(&tree.nodes, 1, &7), Some(4));
    assert_eq!(BstNode::tree_search(&tree.nodes, 1, &12), None);
    assert_eq!(BstNode::tree_search(&tree.nodes, 2, &12), Some(5));
}

#[test]
fn search_falls_through_to_the_right_without_left_child() {
    // 10 has no left child; its right subtree holds a smaller key.
    let mut nodes = Vec::new();
    let root = BstNode::new_bst_nodelink(&mut nodes, 10);
    BstNode::add_right_child(&mut nodes, root, 4);
    assert_eq!(BstNode::tree_search(&nodes, root, &4), Some(1));
    // With a left child the search goes left and misses it.
    BstNode::add_left_child(&mut nodes, root, 2);
    assert_eq!(BstNode::tree_search(&nodes, root, &4), None);
    assert_eq!(BstNode::tree_search(&nodes, root, &2), Some(2));
}

#[test]
fn search_stops_at_a_node_without_key() {
    let nodes = vec![
        BstNode { key: None, parent: None, left: None, right: Some(1) },
        node(3, Some(0), None, None),
    ];
    assert_eq!(BstNode::tree_search(&nodes, 0, &3), None);
    assert_eq!(BstNode::tree_search(&nodes, 1, &3), Some(1));
}

#[test]
fn minimum_and_maximum_of_the_sample_tree() {
    let tree = build(&[10, 5, 15, 3, 7, 12, 18]);
    let root = tree.root.unwrap();
    let least = BstNode::minimum(&tree.nodes, root);
    let greatest = BstNode::maximum(&tree.nodes, root);
    assert_eq!(tree.nodes[least].key, Some(3));
    assert_eq!(tree.nodes[greatest].key, Some(18));
}

#[test]
fn minimum_and_maximum_below_a_vertex() {
    let tree = build(&[10, 5, 15, 3, 7, 12, 18]);
    assert_eq!(key_at(&tree, BstNode::minimum(&tree.nodes, 2)), 12);
    assert_eq!(key_at(&tree, BstNode::maximum(&tree.nodes, 1)), 7);
    assert_eq!(BstNode::minimum(&tree.nodes, 6), 6);
    assert_eq!(BstNode::maximum(&tree.nodes, 6), 6);
}

#[test]
fn minimum_and_maximum_stop_at_a_node_without_key() {
    let nodes = vec![
        BstNode { key: None, parent: None, left: Some(1), right: Some(2) },
        node(1, Some(0), None, None),
        node(9, Some(0), None, None),
    ];
    assert_eq!(BstNode::minimum(&nodes, 0), 0);
    assert_eq!(BstNode::maximum(&nodes, 0), 0);
}

#[test]
fn successor_chain_of_the_sample_tree() {
    let tree = build(&[10, 5, 15, 3, 7, 12, 18]);
    let mut at = Some(BstNode::minimum(&tree.nodes, tree.root.unwrap()));
    let mut seen = Vec::new();
    while let Some(slot) = at {
        seen.push(key_at(&tree, slot));
        at = BstNode::tree_successor(&tree.nodes, slot);
    }
    assert_eq!(seen, vec![3, 5, 7, 10, 12, 15, 18]);
    let last = slot_of(&tree, 18);
    assert_eq!(BstNode::tree_successor(&tree.nodes, last), None);
}

#[test]
fn successor_chain_with_equal_keys() {
    let tree = build(&[5, 3, 5, 8, 5, 3]);
    let mut at = Some(BstNode::minimum(&tree.nodes, tree.root.unwrap()));
    let mut slots = Vec::new();
    while let Some(slot) = at {
        slots.push(slot);
        at = BstNode::tree_successor(&tree.nodes, slot);
    }
    let keys: Vec<i32> = slots.iter().map(|s| key_at(&tree, *s)).collect();
    assert_eq!(keys, vec![3, 3, 5, 5, 5, 8]);
    assert_eq!(slots, vec![1, 5, 0, 2, 4, 3]);
}

#[test]
fn successor_of_a_single_vertex_is_none() {
    let tree = build(&[1]);
    assert_eq!(BstNode::tree_successor(&tree.nodes, 0), None);
}

#[test]
fn get_root_from_every_vertex() {
    let tree = build(&[10, 5, 15, 3, 7, 12, 18, 1]);
    for slot in 0..tree.nodes.len() {
        assert_eq!(BstNode::get_root(&tree.nodes, slot), 0);
    }
}

#[test]
fn get_root_of_a_detached_node_is_itself() {
    let mut nodes = Vec::new();
    let a = BstNode::new_bst_nodelink(&mut nodes, 1);
    let b = BstNode::new_bst_nodelink(&mut nodes, 2);
    assert_eq!(BstNode::get_root(&nodes, a), a);
    assert_eq!(BstNode::get_root(&nodes, b), b);
}

#[test]
fn delete_a_leaf() {
    let mut tree = build(&[10, 5, 15, 3, 7, 12, 18]);
    tree.tree_delete(3);
    assert_eq!(inorder(&tree), vec![5, 7, 10, 12, 15, 18]);
    assert!(links_agree(&tree));
    assert_eq!(tree.nodes[1].left, None);
    assert_eq!(tree.nodes[1].right, Some(4));
    assert_eq!(tree.nodes[3], cleared());
}

#[test]
fn delete_a_vertex_with_only_a_left_child() {
    let mut tree = build(&[10, 5, 15, 3]);
    tree.tree_delete(5);
    assert_eq!(inorder(&tree), vec![3, 10, 15]);
    assert!(links_agree(&tree));
    assert_eq!(tree.nodes[0].left, Some(3));
    assert_eq!(tree.nodes[3].parent, Some(0));
}

#[test]
fn delete_a_vertex_with_only_a_right_child() {
    let mut tree = build(&[10, 5, 15, 7]);
    tree.tree_delete(5);
    assert_eq!(inorder(&tree), vec![7, 10, 15]);
    assert!(links_agree(&tree));
    assert_eq!(tree.nodes[0].left, Some(3));
    assert_eq!(tree.nodes[3].parent, Some(0));
}

#[test]
fn delete_with_successor_as_direct_right_child() {
    // 15 has children 12 and 18; 18 has no left child and a right child 20.
    let mut tree = build(&[10, 5, 15, 12, 18, 20]);
    tree.tree_delete(15);
    assert_eq!(inorder(&tree), vec![5, 10, 12, 18, 20]);
    assert!(links_agree(&tree));
    let y = slot_of(&tree, 18);
    assert_eq!(y, 4);
    assert_eq!(tree.nodes[0].right, Some(4));
    assert_eq!(tree.nodes[4], node(18, Some(0), Some(3), Some(5)));
    assert_eq!(tree.nodes[3].parent, Some(4));
    assert_eq!(tree.nodes[5].parent, Some(4));
}

#[test]
fn delete_with_successor_deeper_in_the_right_subtree() {
    let mut tree = build(&[10, 5, 15, 12, 18, 11, 13]);
    // Below 15: left 12 (children 11 and 13), right 18.  11 is the first
    // vertex of the right subtree of 10 and lies two links below 15.
    tree.tree_delete(10);
    assert_eq!(inorder(&tree), vec![5, 11, 12, 13, 15, 18]);
    assert!(links_agree(&tree));
    let y = 5;
    assert_eq!(tree.root, Some(y));
    assert_eq!(tree.nodes[y], node(11, None, Some(1), Some(2)));
    assert_eq!(tree.nodes[1].parent, Some(y));
    assert_eq!(tree.nodes[2].parent, Some(y));
    assert_eq!(tree.nodes[3].left, None);
    assert_eq!(tree.nodes[0], cleared());
}

#[test]
fn delete_lifts_the_right_child_of_the_successor() {
    // Successor of 10 is 11, whose right child 12 takes its place under 14.
    let mut tree = build(&[10, 5, 20, 14, 25, 11, 12]);
    tree.tree_delete(10);
    assert_eq!(inorder(&tree), vec![5, 11, 12, 14, 20, 25]);
    assert!(links_agree(&tree));
    assert_eq!(tree.root, Some(5));
    assert_eq!(tree.nodes[5], node(11, None, Some(1), Some(2)));
    assert_eq!(tree.nodes[3].left, Some(6));
    assert_eq!(tree.nodes[6].parent, Some(3));
    assert_eq!(tree.nodes[2].parent, Some(5));
    assert_eq!(tree.nodes[2].left, Some(3));
}

#[test]
fn delete_the_root_with_one_child() {
    let mut tree = build(&[10, 5]);
    tree.tree_delete(10);
    assert_eq!(tree.root, Some(1));
    assert_eq!(tree.nodes[1].parent, None);
    assert_eq!(inorder(&tree), vec![5]);
    tree.tree_delete(5);
    assert_eq!(tree.root, None);
}

#[test]
fn delete_takes_one_of_several_equal_keys() {
    let mut tree = build(&[5, 5, 5]);
    tree.tree_delete(5);
    assert_eq!(inorder(&tree), vec![5, 5]);
    assert_eq!(tree.root, Some(1));
    assert!(links_agree(&tree));
    tree.tree_delete(5);
    assert_eq!(inorder(&tree), vec![5]);
    tree.tree_delete(5);
    assert_eq!(tree.root, None);
}

#[test]
fn delete_of_an_absent_key_changes_nothing() {
    let mut tree = build(&[10, 5, 15, 3, 7, 12, 18]);
    let nodes = tree.nodes.clone();
    let root = tree.root;
    for k in [0, 4, 11, 100, i32::MIN, i32::MAX] {
        tree.tree_delete(k);
        assert_eq!(tree.nodes, nodes);
        assert_eq!(tree.root, root);
        assert!(tree.free.is_empty());
    }
}

#[test]
fn delete_twice_is_delete_once() {
    let mut tree = build(&[10, 5, 15]);
    tree.tree_delete(5);
    let nodes = tree.nodes.clone();
    let root = tree.root;
    let free = tree.free.clone();
    tree.tree_delete(5);
    assert_eq!(tree.nodes, nodes);
    assert_eq!(tree.root, root);
    assert_eq!(tree.free, free);
}

#[test]
fn delete_on_an_empty_tree_does_nothing() {
    let mut tree = BST::new();
    tree.tree_delete(1);
    assert!(tree.root.is_none());
    assert!(tree.nodes.is_empty());
}

#[test]
fn vertices_keep_their_slots() {
    let mut tree = build(&[10, 5, 15, 3, 7, 12, 18]);
    let at_7 = slot_of(&tree, 7);
    let at_18 = slot_of(&tree, 18);
    tree.tree_delete(10);
    tree.tree_delete(5);
    tree.tree_insert(1);
    assert_eq!(slot_of(&tree, 7), at_7);
    assert_eq!(slot_of(&tree, 18), at_18);
}

#[test]
fn released_slots_are_taken_again_last_first() {
    let mut tree = build(&[10, 5, 15, 3, 7, 12, 18]);
    assert!(tree.free.is_empty());
    tree.tree_delete(10);
    tree.tree_delete(5);
    assert_eq!(tree.free, vec![0, 1]);
    tree.tree_insert(1);
    assert_eq!(tree.free, vec![0]);
    assert_eq!(tree.nodes[1].key, Some(1));
    tree.tree_insert(2);
    assert!(tree.free.is_empty());
    assert_eq!(tree.nodes[0].key, Some(2));
    assert_eq!(tree.nodes.len(), 7);
    tree.tree_insert(4);
    assert_eq!(tree.nodes.len(), 8);
    assert_eq!(tree.nodes[7].key, Some(4));
    assert_eq!(inorder(&tree), vec![1, 2, 3, 4, 7, 12, 15, 18]);
    assert!(links_agree(&tree));
}

#[test]
fn arena_does_not_grow_under_insert_and_delete_in_turn() {
    let mut tree = build(&[2, 1, 3]);
    for k in 10..60 {
        tree.tree_insert(k);
        tree.tree_delete(k);
    }
    assert_eq!(tree.nodes.len(), 4);
    assert_eq!(inorder(&tree), vec![1, 2, 3]);
    assert!(links_agree(&tree));
}

#[test]
fn insert_after_delete_keeps_order() {
    let mut tree = build(&[2, 1, 3]);
    tree.tree_delete(2);
    tree.tree_insert(2);
    tree.tree_insert(0);
    assert_eq!(inorder(&tree), vec![0, 1, 2, 3]);
    assert!(links_agree(&tree));
}

fn next_random(state: &mut u64) -> u64 {
    *state = state.wrapping_mul(6364136223846793005).wrapping_add(1442695040888963407);
    *state >> 33
}

#[test]
fn agrees_with_a_sorted_vector_under_mixed_operations() {
    let mut tree = BST::new();
    let mut model: Vec<i32> = Vec::new();
    let mut state = 7u64;
    for _ in 0..2000 {
        let key = (next_random(&mut state) % 64) as i32 - 32;
        if next_random(&mut state) % 3 == 0 {
            tree.tree_delete(key);
            if let Ok(at) = model.binary_search(&key) {
                model.remove(at);
            }
        } else {
            tree.tree_insert(key);
            let at = model.partition_point(|k| *k <= key);
            model.insert(at, key);
        }
        assert_eq!(inorder(&tree), model);
        assert!(links_agree(&tree));
        assert_eq!(tree.root.is_none(), model.is_empty());
        assert_eq!(tree.nodes.len(), model.len() + tree.free.len());
    }
}

#[test]
fn successor_chain_visits_every_vertex_of_a_large_tree() {
    let mut tree = BST::new();
    let mut state = 11u64;
    let mut model: Vec<i32> = Vec::new();
    for _ in 0..500 {
        let key = (next_random(&mut state) % 1000) as i32;
        tree.tree_insert(key);
        model.push(key);
    }
    model.sort();
    let mut at = Some(BstNode::minimum(&tree.nodes, tree.root.unwrap()));
    let mut seen = Vec::new();
    while let Some(slot) = at {
        seen.push(key_at(&tree, slot));
        at = BstNode::tree_successor(&tree.nodes, slot);
    }
    assert_eq!(seen, model);
    let greatest = BstNode::maximum(&tree.nodes, tree.root.unwrap());
    assert_eq!(key_at(&tree, greatest), *model.last().unwrap());
}

#[test]
fn a_sorted_run_of_keys_makes_a_chain() {
    let mut tree = BST::new();
    for k in 0..200 {
        tree.tree_insert(k);
    }
    for slot in 0..199 {
        assert_eq!(tree.nodes[slot].left, None);
        assert_eq!(tree.nodes[slot].right, Some(slot + 1));
    }
    assert_eq!(BstNode::get_root(&tree.nodes, 199), 0);
    assert_eq!(BstNode::maximum(&tree.nodes, 0), 199);
    assert_eq!(BstNode::minimum(&tree.nodes, 0), 0);
    for k in 0..200 {
        tree.tree_delete(k);
    }
    assert!(tree.root.is_none());
    assert_eq!(tree.free.len(), 200);
}

use lattice::trees::b_tree::{BTree, Node};

fn collect(node: &Node, out: &mut Vec<i32>) {
    for (i, key) in node.keys.iter().enumerate() {
        if !node.is_leaf {
            collect(&node.children[i], out);
        }
        out.push(*key);
    }
    if !node.is_leaf {
        collect(&node.children[node.keys.len()], out);
    }
}

fn check(node: &Node, order: usize, is_root: bool, depth: usize, leaf_depth: &mut Option<usize>) {
    assert!(node.keys.len() <= order - 1);
    if !is_root {
        assert!(!node.keys.is_empty());
    }
    for pair in node.keys.windows(2) {
        assert!(pair[0] < pair[1]);
    }
    if node.is_leaf {
        assert!(node.children.is_empty());
        match leaf_depth {
            None => *leaf_depth = Some(depth),
            Some(d) => assert_eq!(*d, depth),
        }
    } else {
        assert_eq!(node.children.len(), node.keys.len() + 1);
        for child in &node.children {
            check(child, order, false, depth + 1, leaf_depth);
        }
    }
}

#[test]
fn btree_node_new_is_empty() {
    let node = Node::new(true);
    assert!(node.keys.is_empty());
    assert!(node.children.is_empty());
    assert!(node.is_leaf);
    assert!(!Node::new(false).is_leaf);
}

#[test]
fn btree_new_is_an_empty_leaf() {
    let tree = BTree::new(3);
    assert_eq!(tree.order, 3);
    assert!(tree.root.is_leaf);
    assert!(tree.root.keys.is_empty());
    assert!(!tree.search(1));
}

#[test]
fn btree_find_position_is_first_key_not_below() {
    let keys = vec![10, 20, 30];
    assert_eq!(BTree::find_position(&keys, 5), 0);
    assert_eq!(BTree::find_position(&keys, 10), 0);
    assert_eq!(BTree::find_position(&keys, 15), 1);
    assert_eq!(BTree::find_position(&keys, 30), 2);
    assert_eq!(BTree::find_position(&keys, 31), 3);
    assert_eq!(BTree::find_position(&Vec::new(), 1), 0);
}

#[test]
fn btree_order_three_root_splits_on_third_key() {
    let mut tree = BTree::new(3);
    tree.insert(10);
    tree.insert(20);
    assert!(tree.root.is_leaf);
    assert_eq!(tree.root.keys, vec![10, 20]);
    tree.insert(30);
    assert!(!tree.root.is_leaf);
    assert_eq!(tree.root.keys, vec![20]);
    assert_eq!(tree.root.children.len(), 2);
    assert_eq!(tree.root.children[0].keys, vec![10]);
    assert_eq!(tree.root.children[1].keys, vec![30]);
    assert!(tree.root.children[0].is_leaf);
    assert!(tree.root.children[1].is_leaf);
}

#[test]
fn btree_split_cascades_to_a_new_root() {
    let mut tree = BTree::new(3);
    for val in 1..=7 {
        tree.insert(val);
    }
    let root = &tree.root;
    assert_eq!(root.keys, vec![4]);
    assert_eq!(root.children.len(), 2);
    assert_eq!(root.children[0].keys, vec![2]);
    assert_eq!(root.children[1].keys, vec![6]);
    assert_eq!(root.children[0].children[0].keys, vec![1]);
    assert_eq!(root.children[0].children[1].keys, vec![3]);
    assert_eq!(root.children[1].children[0].keys, vec![5]);
    assert_eq!(root.children[1].children[1].keys, vec![7]);
}

#[test]
fn btree_even_order_splits_at_floor_of_half() {
    let mut tree = BTree::new(4);
    for val in [1, 2, 3] {
        tree.insert(val);
    }
    assert_eq!(tree.root.keys, vec![1, 2, 3]);
    tree.insert(4);
    assert_eq!(tree.root.keys, vec![3]);
    assert_eq!(tree.root.children[0].keys, vec![1, 2]);
    assert_eq!(tree.root.children[1].keys, vec![4]);
}

#[test]
fn btree_median_goes_between_the_split_halves() {
    let mut tree = BTree::new(3);
    for val in [10, 20, 30, 5, 7] {
        tree.insert(val);
    }
    assert_eq!(tree.root.keys, vec![7, 20]);
    assert_eq!(tree.root.children.len(), 3);
    assert_eq!(tree.root.children[0].keys, vec![5]);
    assert_eq!(tree.root.children[1].keys, vec![10]);
    assert_eq!(tree.root.children[2].keys, vec![30]);
}

#[test]
fn btree_search_finds_exactly_the_inserted_keys() {
    let mut tree = BTree::new(4);
    let keys = [41, 7, 19, 3, 88, 64, 23, 5, 100, 1, 50, 77, 12, 36, 90];
    for val in keys {
        tree.insert(val);
    }
    for val in keys {
        assert!(tree.search(val));
    }
    for val in [0, 2, 4, 6, 20, 42, 99, 101, -5, i32::MIN, i32::MAX] {
        assert!(!tree.search(val));
    }
}

#[test]
fn btree_insert_existing_key_changes_nothing() {
    let mut tree = BTree::new(3);
    for val in 1..=7 {
        tree.insert(val);
    }
    for val in 1..=7 {
        tree.insert(val);
    }
    assert_eq!(tree.root.keys, vec![4]);
    assert_eq!(tree.root.children[0].keys, vec![2]);
    assert_eq!(tree.root.children[1].children[1].keys, vec![7]);
    assert!(tree.search(7));
}

#[test]
fn btree_structure_holds_after_every_insert() {
    for order in [3usize, 4, 5, 6] {
        let mut tree = BTree::new(order);
        let mut val: i32 = 17;
        for _ in 0..200 {
            val = (val * 31 + 7) % 1009;
            tree.insert(val);
            let mut leaf_depth = None;
            check(&tree.root, order, true, 0, &mut leaf_depth);
            assert!(tree.search(val));
            let mut all = Vec::new();
            collect(&tree.root, &mut all);
            for pair in all.windows(2) {
                assert!(pair[0] < pair[1]);
            }
            assert!(all.contains(&val));
        }
    }
}

#[test]
fn btree_keys_come_out_in_ascending_order() {
    let mut tree = BTree::new(3);
    for val in [9, 4, 7, 1, 8, 2, 6, 3, 5, 4, 9] {
        tree.insert(val);
    }
    let mut all = Vec::new();
    collect(&tree.root, &mut all);
    assert_eq!(all, vec![1, 2, 3, 4, 5, 6, 7, 8, 9]);
}

#[test]
fn btree_holds_extreme_keys() {
    let mut tree = BTree::new(3);
    for val in [i32::MAX, i32::MIN, 0, -1, 1] {
        tree.insert(val);
    }
    assert!(tree.search(i32::MAX));
    assert!(tree.search(i32::MIN));
    assert!(!tree.search(2));
}

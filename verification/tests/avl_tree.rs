use lattice::trees::avl_tree::{AVLTree, Node};

fn heights_ok(link: &Option<Box<Node>>) -> i32 {
    match link {
        None => 0,
        Some(n) => {
            let l = heights_ok(&n.left);
            let r = heights_ok(&n.right);
            assert!((l - r).abs() <= 1);
            assert_eq!(n.height, 1 + l.max(r));
            n.height
        }
    }
}

#[test]
fn avl_node_new_is_a_leaf_of_height_one() {
    let node = Node::new(9);
    assert_eq!(node.val, 9);
    assert_eq!(node.height, 1);
    assert!(node.left.is_none());
    assert!(node.right.is_none());
}

#[test]
fn avl_empty_tree_has_height_zero() {
    let tree = AVLTree::new();
    assert!(tree.root.is_none());
    assert_eq!(tree.height(), 0);
    assert_eq!(tree.traverse_inorder(), Vec::<i32>::new());
}

#[test]
fn avl_single_insert_makes_a_leaf() {
    let mut tree = AVLTree::new();
    tree.insert(5);
    assert_eq!(tree.height(), 1);
    assert_eq!(tree.root.as_ref().unwrap().val, 5);
}

#[test]
fn avl_ascending_one_to_seven_is_perfectly_balanced() {
    let mut tree = AVLTree::new();
    for val in 1..=7 {
        tree.insert(val);
    }
    let root = tree.root.as_ref().unwrap();
    assert_eq!(root.val, 4);
    // Three levels of nodes: the height counts nodes, a leaf having height 1.
    assert_eq!(tree.height(), 3);
    let left = root.left.as_ref().unwrap();
    let right = root.right.as_ref().unwrap();
    assert_eq!(left.val, 2);
    assert_eq!(right.val, 6);
    assert_eq!(left.left.as_ref().unwrap().val, 1);
    assert_eq!(left.right.as_ref().unwrap().val, 3);
    assert_eq!(right.left.as_ref().unwrap().val, 5);
    assert_eq!(right.right.as_ref().unwrap().val, 7);
    assert_eq!(left.height, 2);
    assert_eq!(right.height, 2);
    assert_eq!(tree.traverse_inorder(), vec![1, 2, 3, 4, 5, 6, 7]);
}

#[test]
fn avl_left_left_case_rotates_right() {
    let mut tree = AVLTree::new();
    for val in [3, 2, 1] {
        tree.insert(val);
    }
    let root = tree.root.as_ref().unwrap();
    assert_eq!(root.val, 2);
    assert_eq!(root.height, 2);
    assert_eq!(root.left.as_ref().unwrap().val, 1);
    assert_eq!(root.right.as_ref().unwrap().val, 3);
    assert_eq!(root.right.as_ref().unwrap().height, 1);
}

#[test]
fn avl_right_right_case_rotates_left() {
    let mut tree = AVLTree::new();
    for val in [1, 2, 3] {
        tree.insert(val);
    }
    let root = tree.root.as_ref().unwrap();
    assert_eq!(root.val, 2);
    assert_eq!(root.height, 2);
    assert_eq!(root.left.as_ref().unwrap().val, 1);
    assert_eq!(root.left.as_ref().unwrap().height, 1);
    assert_eq!(root.right.as_ref().unwrap().val, 3);
}

#[test]
fn avl_left_right_case_rotates_twice() {
    let mut tree = AVLTree::new();
    for val in [3, 1, 2] {
        tree.insert(val);
    }
    let root = tree.root.as_ref().unwrap();
    assert_eq!(root.val, 2);
    assert_eq!(root.left.as_ref().unwrap().val, 1);
    assert_eq!(root.right.as_ref().unwrap().val, 3);
    assert_eq!(tree.height(), 2);
}

#[test]
fn avl_right_left_case_rotates_twice() {
    let mut tree = AVLTree::new();
    for val in [1, 3, 2] {
        tree.insert(val);
    }
    let root = tree.root.as_ref().unwrap();
    assert_eq!(root.val, 2);
    assert_eq!(root.left.as_ref().unwrap().val, 1);
    assert_eq!(root.right.as_ref().unwrap().val, 3);
    assert_eq!(tree.height(), 2);
}

#[test]
fn avl_insert_existing_key_changes_nothing() {
    let mut tree = AVLTree::new();
    for val in [10, 5, 15, 3, 7] {
        tree.insert(val);
    }
    let height = tree.height();
    let before = tree.traverse_inorder();
    tree.insert(7);
    tree.insert(10);
    assert_eq!(tree.height(), height);
    assert_eq!(tree.traverse_inorder(), before);
    assert_eq!(tree.root.as_ref().unwrap().val, 10);
}

#[test]
fn avl_balance_and_cached_heights_hold_after_every_insert() {
    let mut tree = AVLTree::new();
    let keys = [50, 20, 60, 10, 8, 15, 32, 46, 11, 48, 70, 65, 64, 63, 1, 2, 3, 99, 98, 97];
    for val in keys {
        tree.insert(val);
        let h = heights_ok(&tree.root);
        assert_eq!(tree.height(), h);
    }
    let mut sorted = keys.to_vec();
    sorted.sort();
    assert_eq!(tree.traverse_inorder(), sorted);
}

#[test]
fn avl_hundred_ascending_keys_stay_shallow() {
    let mut tree = AVLTree::new();
    for val in 0..100 {
        tree.insert(val);
    }
    heights_ok(&tree.root);
    assert_eq!(tree.height(), 7);
    assert_eq!(tree.traverse_inorder(), (0..100).collect::<Vec<i32>>());
}

use lattice::trees::binary_tree::{BinaryTree, Node};

fn sample() -> BinaryTree {
    let mut tree = BinaryTree::new();
    for val in [14, 10, 17, 12, 11, 20, 18, 25, 8, 22, 23, 7, 13] {
        tree.insert(val);
    }
    tree
}

#[test]
fn bst_node_new_has_no_children() {
    let node = Node::new(5);
    assert_eq!(node.val, 5);
    assert!(node.left.is_none());
    assert!(node.right.is_none());
}

#[test]
fn bst_empty_tree_metrics() {
    let tree = BinaryTree::new();
    assert!(tree.root.is_none());
    assert_eq!(tree.height(), -1);
    assert_eq!(tree.count_nodes(), 0);
    assert_eq!(tree.count_leaves(), 0);
    assert!(!tree.search(0));
    assert_eq!(tree.traverse_inorder(), Vec::<i32>::new());
}

#[test]
fn bst_default_is_empty() {
    let tree = BinaryTree::default();
    assert!(tree.root.is_none());
}

#[test]
fn bst_single_node_is_a_leaf_of_height_zero() {
    let mut tree = BinaryTree::new();
    tree.insert(1);
    assert_eq!(tree.height(), 0);
    assert_eq!(tree.count_nodes(), 1);
    assert_eq!(tree.count_leaves(), 1);
}

#[test]
fn bst_thirteen_keys_counts_and_inorder() {
    let tree = sample();
    assert_eq!(tree.count_nodes(), 13);
    assert_eq!(
        tree.traverse_inorder(),
        vec![7, 8, 10, 11, 12, 13, 14, 17, 18, 20, 22, 23, 25]
    );
}

#[test]
fn bst_thirteen_keys_height_follows_longest_path() {
    // 14 -> 17 -> 20 -> 25 -> 22 -> 23 is the longest path: five edges.
    let tree = sample();
    assert_eq!(tree.height(), 5);
}

#[test]
fn bst_thirteen_keys_preorder_postorder_leaves() {
    let tree = sample();
    assert_eq!(
        tree.traverse_preorder(),
        vec![14, 10, 8, 7, 12, 11, 13, 17, 20, 18, 25, 22, 23]
    );
    assert_eq!(
        tree.traverse_postorder(),
        vec![7, 8, 11, 13, 12, 10, 18, 23, 22, 25, 20, 17, 14]
    );
    assert_eq!(tree.count_leaves(), 5);
}

#[test]
fn bst_insert_places_smaller_left_and_larger_right() {
    let mut tree = BinaryTree::new();
    tree.insert(2);
    tree.insert(1);
    tree.insert(3);
    let root = tree.root.as_ref().unwrap();
    assert_eq!(root.val, 2);
    assert_eq!(root.left.as_ref().unwrap().val, 1);
    assert_eq!(root.right.as_ref().unwrap().val, 3);
}

#[test]
fn bst_insert_existing_key_changes_nothing() {
    let mut tree = sample();
    let before = tree.traverse_preorder();
    tree.insert(12);
    tree.insert(14);
    tree.insert(23);
    assert_eq!(tree.traverse_preorder(), before);
    assert_eq!(tree.count_nodes(), 13);
    assert_eq!(tree.height(), 5);
    assert!(tree.search(12));
}

#[test]
fn bst_search_finds_exactly_the_inserted_keys() {
    let tree = sample();
    for val in [14, 10, 17, 12, 11, 20, 18, 25, 8, 22, 23, 7, 13] {
        assert!(tree.search(val));
    }
    for val in [0, 9, 15, 16, 19, 21, 24, 26, -1, i32::MAX, i32::MIN] {
        assert!(!tree.search(val));
    }
}

#[test]
fn bst_delete_sole_key_empties_the_tree() {
    let mut tree = BinaryTree::new();
    tree.insert(42);
    tree.delete(42);
    assert!(tree.root.is_none());
    assert_eq!(tree.height(), -1);
    for val in [42, 0, -7, 100] {
        assert!(!tree.search(val));
    }
}

#[test]
fn bst_delete_node_with_two_children_takes_successor() {
    let mut tree = BinaryTree::new();
    for val in [50, 30, 70, 60, 80, 65] {
        tree.insert(val);
    }
    tree.delete(50);
    assert_eq!(tree.root.as_ref().unwrap().val, 60);
    assert_eq!(tree.traverse_preorder(), vec![60, 30, 70, 65, 80]);
    assert_eq!(tree.traverse_inorder(), vec![30, 60, 65, 70, 80]);
    assert_eq!(tree.count_nodes(), 5);
    assert!(!tree.search(50));
    assert!(tree.search(60));
}

#[test]
fn bst_delete_leaf_and_single_child_nodes() {
    let mut tree = sample();
    tree.delete(7);
    assert_eq!(
        tree.traverse_preorder(),
        vec![14, 10, 8, 12, 11, 13, 17, 20, 18, 25, 22, 23]
    );
    tree.delete(17);
    assert_eq!(
        tree.traverse_preorder(),
        vec![14, 10, 8, 12, 11, 13, 20, 18, 25, 22, 23]
    );
    tree.delete(25);
    assert_eq!(
        tree.traverse_preorder(),
        vec![14, 10, 8, 12, 11, 13, 20, 18, 22, 23]
    );
    assert_eq!(tree.height(), 3);
}

#[test]
fn bst_delete_absent_key_changes_nothing() {
    let mut tree = sample();
    let before = tree.traverse_preorder();
    tree.delete(15);
    tree.delete(-3);
    assert_eq!(tree.traverse_preorder(), before);
    assert_eq!(tree.count_nodes(), 13);
}

#[test]
fn bst_deleted_key_is_gone_and_others_stay() {
    let mut tree = sample();
    tree.delete(10);
    tree.delete(14);
    assert!(!tree.search(10));
    assert!(!tree.search(14));
    for val in [17, 12, 11, 20, 18, 25, 8, 22, 23, 7, 13] {
        assert!(tree.search(val));
    }
    assert_eq!(
        tree.traverse_inorder(),
        vec![7, 8, 11, 12, 13, 17, 18, 20, 22, 23, 25]
    );
}

#[test]
fn bst_ascending_inserts_degenerate_to_a_chain() {
    let mut tree = BinaryTree::new();
    for val in 1..=6 {
        tree.insert(val);
    }
    assert_eq!(tree.height(), 5);
    assert_eq!(tree.count_leaves(), 1);
}

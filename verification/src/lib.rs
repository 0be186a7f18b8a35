//! In-memory ordered index structures over `i32` keys: an unbalanced binary
//! search tree, a height-balanced (AVL) tree and a multiway (B-) tree.

pub mod trees;

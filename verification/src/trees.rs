//! The three index variants. They share no state and no code.

pub mod avl_tree;
pub mod b_tree;
pub mod binary_tree;

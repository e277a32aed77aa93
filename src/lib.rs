//! An unbalanced binary search tree with map operations.
pub mod laws;
pub mod order;
pub mod shape;
pub mod tree;

pub use tree::{BinaryTree, BinaryTreeNode, Tree};

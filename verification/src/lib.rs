//! An unbalanced binary search tree with parent back-links.
//!
//! Nodes live in an arena (`Vec` of slots) and refer to one another by
//! index: each node holds its left child, right child and parent as
//! optional indices.  The tree maps `i64` keys to values of an arbitrary
//! type `V`; equal-key insertion replaces the value in place.  An in-order
//! cursor consumes the tree and walks it in ascending key order using the
//! parent links, without an auxiliary stack.

pub mod cursor;
pub mod delete;
pub mod laws;
pub mod node;
pub mod shape;
pub mod tree;

pub use cursor::TreeNodeIterator;
pub use node::TreeNode;
pub use tree::Tree;

//! The node type: a key, a value, and three optional links (left child,
//! right child, parent), each an index into the tree's arena.

use vstd::prelude::*;

verus! {

/// One element of the tree.  The link fields are arena indices; `parent`
/// is `None` exactly when the node is the root.  A node returned by
/// `Tree::delete` is detached: its link fields are meaningless and only
/// `key` and `value` should be read.
pub struct TreeNode<V> {
    pub(crate) key: i64,
    pub(crate) value: V,
    pub(crate) left: Option<usize>,
    pub(crate) right: Option<usize>,
    pub(crate) parent: Option<usize>,
}

impl<V> TreeNode<V> {
    /// The key as seen by specifications.
    pub open(crate) spec fn spec_key(&self) -> i64 {
        self.key
    }

    /// The value as seen by specifications.
    pub open(crate) spec fn spec_value(&self) -> V {
        self.value
    }

    /// The left-child link as seen by specifications.
    pub open(crate) spec fn spec_left(&self) -> Option<usize> {
        self.left
    }

    /// The right-child link as seen by specifications.
    pub open(crate) spec fn spec_right(&self) -> Option<usize> {
        self.right
    }

    /// The parent link as seen by specifications.
    pub open(crate) spec fn spec_parent(&self) -> Option<usize> {
        self.parent
    }

    /// The node's key, fixed at creation.
    pub fn key(&self) -> (k: i64)
        ensures
            k == self.spec_key(),
    {
        self.key
    }

    /// Read access to the node's value.
    pub fn value(&self) -> (v: &V)
        ensures
            *v == self.spec_value(),
    {
        &self.value
    }
}

} // verus!

use vstd::prelude::*;

use crate::tree::Tree;

verus! {

/// One element of a tree together with the two subtrees it owns.
pub struct Node {
    pub value: i64,
    pub left: Tree,
    pub right: Tree,
}

impl Node {
    /// A node with no children.
    pub fn new(value: i64) -> (r: Self)
        ensures
            r.value == value,
            r.left.0.is_none(),
            r.right.0.is_none(),
    {
        Node { value, left: Tree(None), right: Tree(None) }
    }
}

} // verus!

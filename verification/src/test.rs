//! A chain of named nodes.
use vstd::prelude::*;

verus! {

/// A node with a name and an optional child.
pub struct TreeNode {
    pub child: Option<Box<TreeNode>>,
    pub strn: String,
}

/// A node named `string`, without a child.
pub fn build_node(string: String) -> (n: TreeNode)
    ensures
        n.child is None,
        n.strn == string,
{
    TreeNode { child: None, strn: string }
}

} // verus!

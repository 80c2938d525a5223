//! The tree of a whole text.

use vstd::prelude::*;

use crate::syntax::green::Tree;
use crate::syntax::node::SyntaxNode;

verus! {

/// The tree of a text.
pub struct SyntaxTree {
    pub root: SyntaxNode,
}

impl View for SyntaxTree {
    type V = Tree;

    open spec fn view(&self) -> Tree {
        self.root.tree()
    }
}

impl SyntaxTree {
    /// The root is a node of its tree, and nothing holds it.
    pub open spec fn wf(self) -> bool {
        self.root.wf() && self.root.path@.len() == 0
    }

    /// The tree with this root.
    pub fn new(root: SyntaxNode) -> (r: SyntaxTree)
        ensures
            r.root == root,
    {
        SyntaxTree { root }
    }

    /// The root.
    pub fn root(&self) -> (r: &SyntaxNode)
        ensures
            *r == self.root,
    {
        &self.root
    }

    /// Swaps the root.
    pub fn set_root(&mut self, root: SyntaxNode)
        ensures
            final(self).root == root,
    {
        self.root = root;
    }

    /// The text of the tree: that of its tokens, in order.
    pub fn emit(&self) -> (r: String)
        ensures
            r@ == self@.text(),
    {
        self.root.text()
    }
}

} // verus!

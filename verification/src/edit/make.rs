//! Small helpers that make green nodes and tokens.

use vstd::prelude::*;

use crate::syntax::green;
use crate::syntax::green::{node_new, token_new, GreenElement, Tree, MAX_LEN};
use crate::syntax::kind::SyntaxKind;

verus! {

/// A token of kind `kind`.
pub fn mk_token(kind: SyntaxKind, text: &str) -> (r: rowan::GreenToken)
    ensures
        green::token_tree(r) == (Tree::Token { kind: kind.code(), text: text@ }),
{
    token_new(kind.raw(), text)
}

/// A node of kind `kind`.
pub fn mk_node(kind: SyntaxKind, children: Vec<GreenElement>) -> (r: rowan::GreenNode)
    requires
        green::trees_len(green::element_trees(children@)) <= MAX_LEN,
    ensures
        green::node_tree(r) == (Tree::Node {
            kind: kind.code(),
            children: green::element_trees(children@),
        }),
{
    node_new(kind.raw(), children)
}

} // verus!

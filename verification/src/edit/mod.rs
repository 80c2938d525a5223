//! Structured tree edits.
//!
//! An edit names a node or token of a tree by a handle, and the tree is changed
//! there: the nodes above are rebuilt, all else is shared. Handles taken before
//! an edit still stand in the tree as it was; take them anew.

pub mod entry;
pub mod make;

use vstd::prelude::*;

use crate::syntax::green;
use crate::syntax::green::{GreenElement, Tree, MAX_LEN};
use crate::syntax::node::{SyntaxNode, SyntaxToken};
use crate::syntax::path;
use crate::syntax::path::{replace_node, splice_node};
use crate::syntax::tree::SyntaxTree;

verus! {

/// An edit of a tree.
pub enum TreeEdit {
    /// Swap a token for one of the same kind.
    ReplaceToken { target: SyntaxToken, new: rowan::GreenToken },
    /// Swap a node for one of the same kind.
    ReplaceNode { target: SyntaxNode, new: rowan::GreenNode },
    /// Take a token out.
    RemoveToken { target: SyntaxToken },
    /// Take a node out; the root stays.
    RemoveNode { target: SyntaxNode },
}

/// `t` with the children from `start` up to `end` of the node at `path`
/// replaced by `new`.
pub open spec fn spliced_at(
    t: Tree,
    path: Seq<usize>,
    start: int,
    end: int,
    new: Seq<Tree>,
) -> Tree {
    let p = path::tree_at(t, path)->0;
    path::replaced(
        t,
        path,
        path::with_children(p, path::spliced(p.children(), start, end, new)),
    )
}

impl TreeEdit {
    /// Whether the edit fits the tree `t`: its target stands there, and a
    /// replacement is of the target's kind.
    pub open spec fn fits(self, t: Tree) -> bool {
        match self {
            TreeEdit::ReplaceToken { target, new } => {
                &&& target.wf()
                &&& target.parent.whole() == t
                &&& green::token_kind_of(new) == target.tree().kind()
            },
            TreeEdit::ReplaceNode { target, new } => {
                &&& target.wf()
                &&& target.whole() == t
                &&& green::node_kind_of(new) == target.tree().kind()
            },
            TreeEdit::RemoveToken { target } => target.wf() && target.parent.whole() == t,
            TreeEdit::RemoveNode { target } => target.wf() && target.whole() == t,
        }
    }

    /// What the edit makes of the tree `t`.
    pub open spec fn applied(self, t: Tree) -> Tree {
        match self {
            TreeEdit::ReplaceToken { target, new } => spliced_at(
                t,
                target.parent.path@,
                target.index as int,
                target.index + 1,
                seq![green::token_tree(new)],
            ),
            TreeEdit::ReplaceNode { target, new } => path::replaced(
                t,
                target.path@,
                green::node_tree(new),
            ),
            TreeEdit::RemoveToken { target } => spliced_at(
                t,
                target.parent.path@,
                target.index as int,
                target.index + 1,
                seq![],
            ),
            TreeEdit::RemoveNode { target } => if target.path@.len() == 0 {
                t
            } else {
                spliced_at(
                    t,
                    target.path@.drop_last(),
                    target.path@.last() as int,
                    target.path@.last() + 1,
                    seq![],
                )
            },
        }
    }
}

/// Applies an edit to the tree. The tree must not become longer than a tree can
/// be.
pub fn apply_edit(tree: &mut SyntaxTree, edit: TreeEdit)
    requires
        old(tree).wf(),
        edit.fits(old(tree)@),
        path::tree_len(edit.applied(old(tree)@)) <= MAX_LEN,
    ensures
        final(tree).wf(),
        final(tree)@ == edit.applied(old(tree)@),
{
    match edit {
        TreeEdit::ReplaceToken { target, new } => {
            let mut v: Vec<GreenElement> = Vec::new();
            v.push(GreenElement::Token(new));
            assert(green::element_trees(v@) =~= seq![green::token_tree(new)]);
            // The index lies below a length, so there is one behind it.
            let _ = target.parent.len();
            splice_at(tree, &target.parent, target.index, target.index + 1, v);
        },
        TreeEdit::ReplaceNode { target, new } => {
            let green = replace_node(&tree.root.green, &target.path, new);
            tree.set_root(SyntaxNode::new_root(green));
        },
        TreeEdit::RemoveToken { target } => {
            let v: Vec<GreenElement> = Vec::new();
            assert(green::element_trees(v@) =~= seq![]);
            // The index lies below a length, so there is one behind it.
            let _ = target.parent.len();
            splice_at(tree, &target.parent, target.index, target.index + 1, v);
        },
        TreeEdit::RemoveNode { target } => {
            if let Some(parent) = target.parent() {
                let v: Vec<GreenElement> = Vec::new();
                assert(green::element_trees(v@) =~= seq![]);
                let index = target.index();
                let _ = parent.len();
                splice_at(tree, &parent, index, index + 1, v);
            }
        },
    }
}

/// Replaces the children from `start` up to `end` of a node of the tree.
pub(crate) fn splice_at(
    tree: &mut SyntaxTree,
    parent: &SyntaxNode,
    start: usize,
    end: usize,
    new: Vec<GreenElement>,
)
    requires
        old(tree).wf(),
        parent.wf(),
        parent.whole() == old(tree)@,
        start <= end <= parent.parts().len(),
        path::tree_len(
            spliced_at(
                old(tree)@,
                parent.path@,
                start as int,
                end as int,
                green::element_trees(new@),
            ),
        ) <= MAX_LEN,
    ensures
        final(tree).wf(),
        final(tree)@ == spliced_at(
            old(tree)@,
            parent.path@,
            start as int,
            end as int,
            green::element_trees(new@),
        ),
{
    let ghost t = tree@;
    let ghost cs = path::spliced(
        parent.parts(),
        start as int,
        end as int,
        green::element_trees(new@),
    );
    proof {
        path::lemma_replaced_len(t, parent.path@, path::with_children(parent.tree(), cs));
    }
    let node = splice_node(&parent.green, start, end, new);
    let green = replace_node(&tree.root.green, &parent.path, node);
    tree.set_root(SyntaxNode::new_root(green));
}

/// A node like `parent`, with the children in `range` replaced by `new`. Where
/// the range begins behind the children, `new` is added at the end; where it is
/// empty, or ends before it begins, nothing is taken out.
pub fn splice_children_green(
    parent: &SyntaxNode,
    range: core::ops::Range<usize>,
    new: Vec<GreenElement>,
) -> (r: rowan::GreenNode)
    requires
        parent.wf(),
        green::trees_len(
            ranged_splice(
                parent.parts(),
                range.start as int,
                range.end as int,
                green::element_trees(new@),
            ),
        ) <= MAX_LEN,
    ensures
        green::node_tree(r) == path::with_children(
            parent.tree(),
            ranged_splice(
                parent.parts(),
                range.start as int,
                range.end as int,
                green::element_trees(new@),
            ),
        ),
{
    let len = parent.len();
    let a = if range.start < len {
        range.start
    } else {
        len
    };
    let b = if range.end >= len {
        len
    } else if range.end >= a {
        range.end
    } else {
        a
    };
    splice_node(&parent.green, a, b, new)
}

/// The children `cs` with those in the range from `start` up to `end` replaced by
/// `new`; a place behind the children stands for their end, and an end before the
/// start for the start.
pub open spec fn ranged_splice(cs: Seq<Tree>, start: int, end: int, new: Seq<Tree>) -> Seq<Tree> {
    let n = cs.len() as int;
    let a = if start < n {
        start
    } else {
        n
    };
    let b = if end >= n {
        n
    } else if end >= a {
        end
    } else {
        a
    };
    path::spliced(cs, a, b, new)
}

/// An edit changes nothing outside its target: what stands apart from the
/// target's node keeps its place and its content.
pub proof fn lemma_replace_keeps_the_rest(
    t: Tree,
    target: SyntaxNode,
    new: rowan::GreenNode,
    other: Seq<usize>,
)
    requires
        (TreeEdit::ReplaceNode { target, new }).fits(t),
        path::apart(target.path@, other),
    ensures
        path::tree_at((TreeEdit::ReplaceNode { target, new }).applied(t), other)
            == path::tree_at(t, other),
        path::tree_at((TreeEdit::ReplaceNode { target, new }).applied(t), target.path@) == Some(
            green::node_tree(new),
        ),
{
    path::lemma_replaced_apart(t, target.path@, green::node_tree(new), other);
    path::lemma_replaced_at(t, target.path@, green::node_tree(new));
}

/// To replace a node by itself changes nothing.
pub proof fn lemma_replace_by_itself(t: Tree, target: SyntaxNode, new: rowan::GreenNode)
    requires
        (TreeEdit::ReplaceNode { target, new }).fits(t),
        green::node_tree(new) == target.tree(),
    ensures
        (TreeEdit::ReplaceNode { target, new }).applied(t) == t,
{
    path::lemma_replaced_same(t, target.path@);
}

} // verus!

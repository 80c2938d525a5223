//! Fixers: passes over a tree that rewrite what they are about, and say how many
//! places they changed.

pub mod indent;
pub mod scalars;
pub mod trim;

use vstd::prelude::*;

use crate::syntax::green;
use crate::syntax::green::{Tree, MAX_LEN};

use crate::text;

verus! {

/// What a pass makes of a tree or of trees in a row: the trees in its place, and
/// the number of changes.
pub struct Fixed {
    pub trees: Seq<Tree>,
    pub count: nat,
}

/// Nothing.
pub open spec fn nothing() -> Fixed {
    Fixed { trees: seq![], count: 0 }
}

/// A tree that stays.
pub open spec fn kept(t: Tree) -> Fixed {
    Fixed { trees: seq![t], count: 0 }
}

/// A tree that these take the place of.
pub open spec fn changed(ts: Seq<Tree>) -> Fixed {
    Fixed { trees: ts, count: 1 }
}

/// What is made of two rows of trees.
pub open spec fn both(a: Fixed, b: Fixed) -> Fixed {
    Fixed { trees: a.trees + b.trees, count: a.count + b.count }
}

/// A node of kind `kind` around what is made of its children.
pub open spec fn around(kind: u16, f: Fixed) -> Fixed {
    Fixed { trees: seq![Tree::Node { kind, children: f.trees }], count: f.count }
}

/// Whether what is made is no longer than a tree can be, and its changes can be
/// counted.
pub open spec fn fits(f: Fixed) -> bool {
    green::trees_len(f.trees) <= MAX_LEN && f.count <= usize::MAX
}

/// What is made of two rows is no shorter than what is made of each.
pub proof fn lemma_both_len(a: Fixed, b: Fixed)
    ensures
        green::trees_len(a.trees) + green::trees_len(b.trees) == green::trees_len(
            both(a, b).trees,
        ),
{
    green::lemma_trees_text_add(a.trees, b.trees);
    text::lemma_encode_add(green::trees_text(a.trees), green::trees_text(b.trees));
}

/// A node is as long as its children are.
pub proof fn lemma_around_len(kind: u16, f: Fixed)
    ensures
        green::trees_len(around(kind, f).trees) == green::trees_len(f.trees),
{
    green::lemma_trees_text_one(Tree::Node { kind, children: f.trees });
}

} // verus!

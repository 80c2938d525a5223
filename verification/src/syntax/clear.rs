//! Trees whose entries hold their indentation, and whose whitespace is not empty.

use vstd::prelude::*;

use crate::syntax::green::Tree;
use crate::syntax::kind::SyntaxKind;
use crate::syntax::path;

verus! {

/// Whether no whitespace stands right before an entry of a block mapping with the
/// children `cs`.
pub open spec fn clear_row(cs: Seq<Tree>) -> bool {
    forall|k: int|
        1 <= k < cs.len() && (#[trigger] cs[k]).is_node_of(SyntaxKind::BLOCK_MAPPING_ENTRY)
            ==> !cs[k - 1].is_token_of(SyntaxKind::WHITESPACE)
}

/// Whether the entries of all block mappings in a tree hold the whitespace before
/// them, and each token of whitespace holds some.
pub open spec fn clear(t: Tree) -> bool
    decreases t,
{
    match t {
        Tree::Token { text, .. } => t.is_token_of(SyntaxKind::WHITESPACE) ==> text.len() > 0,
        Tree::Node { children, .. } => {
            &&& t.is_node_of(SyntaxKind::BLOCK_MAPPING) ==> clear_row(children)
            &&& all_clear(children)
        },
    }
}

/// The same of trees in a row.
pub open spec fn all_clear(ts: Seq<Tree>) -> bool
    decreases ts,
{
    ts.len() > 0 ==> all_clear(ts.drop_last()) && clear(ts.last())
}

/// The same of each of the trees.
pub proof fn lemma_all_clear(ts: Seq<Tree>, i: int)
    requires
        all_clear(ts),
        0 <= i < ts.len(),
    ensures
        clear(ts[i]),
    decreases ts.len(),
{
    if i < ts.len() - 1 {
        lemma_all_clear(ts.drop_last(), i);
    }
}

/// The same of one tree.
pub proof fn lemma_clear_one(t: Tree)
    ensures
        all_clear(seq![t]) == clear(t),
{
    let one = seq![t];
    assert(one.drop_last() =~= seq![]);
    assert(one.last() == t);
    assert(all_clear(one.drop_last()));
}

/// The same of trees one behind another.
pub proof fn lemma_clear_add(a: Seq<Tree>, b: Seq<Tree>)
    ensures
        all_clear(a + b) == (all_clear(a) && all_clear(b)),
    decreases b.len(),
{
    if b.len() == 0 {
        assert(a + b =~= a);
    } else {
        lemma_clear_add(a, b.drop_last());
        assert((a + b).drop_last() =~= a + b.drop_last());
    }
}

/// The same of what stands in a tree.
pub proof fn lemma_clear_at(t: Tree, p: Seq<usize>)
    requires
        clear(t),
        path::tree_at(t, p) is Some,
    ensures
        clear(path::tree_at(t, p)->0),
    decreases p.len(),
{
    if p.len() > 0 {
        lemma_clear_at(t, p.drop_last());
        let up = path::tree_at(t, p.drop_last())->0;
        lemma_all_clear(up.children(), p.last() as int);
    }
}

} // verus!

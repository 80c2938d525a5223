//! Trees without two stretches of whitespace in a row.

use vstd::prelude::*;

use crate::syntax::green::Tree;
use crate::syntax::kind::SyntaxKind;

verus! {

/// The kinds of the tokens of a tree, in order.
pub open spec fn kinds(t: Tree) -> Seq<u16>
    decreases t,
{
    match t {
        Tree::Token { kind, .. } => seq![kind],
        Tree::Node { children, .. } => all_kinds(children),
    }
}

/// The kinds of the tokens of trees in a row.
pub open spec fn all_kinds(ts: Seq<Tree>) -> Seq<u16>
    decreases ts,
{
    if ts.len() == 0 {
        seq![]
    } else {
        all_kinds(ts.drop_last()) + kinds(ts.last())
    }
}

/// Whether whitespace stands nowhere right behind whitespace.
pub open spec fn apart(ks: Seq<u16>) -> bool {
    forall|i: int|
        0 <= i < ks.len() - 1 && #[trigger] ks[i] == SyntaxKind::WHITESPACE.code() ==> ks[i + 1]
            != SyntaxKind::WHITESPACE.code()
}

/// Whether the last token is whitespace.
pub open spec fn ends_blank(ks: Seq<u16>) -> bool {
    ks.len() > 0 && ks.last() == SyntaxKind::WHITESPACE.code()
}

/// Trees one behind another.
pub proof fn lemma_kinds_add(a: Seq<Tree>, b: Seq<Tree>)
    ensures
        all_kinds(a + b) == all_kinds(a) + all_kinds(b),
    decreases b.len(),
{
    if b.len() == 0 {
        assert(a + b =~= a);
        assert(all_kinds(a) + all_kinds(b) =~= all_kinds(a));
    } else {
        lemma_kinds_add(a, b.drop_last());
        assert((a + b).drop_last() =~= a + b.drop_last());
        assert(all_kinds(a + b) =~= all_kinds(a) + all_kinds(b));
    }
}

/// One tree.
pub proof fn lemma_kinds_one(t: Tree)
    ensures
        all_kinds(seq![t]) == kinds(t),
{
    let one = seq![t];
    assert(one.drop_last() =~= seq![]);
    assert(all_kinds(one.drop_last()) =~= seq![]);
    assert(all_kinds(one) =~= kinds(t));
}

} // verus!

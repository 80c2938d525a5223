//! Passes over scalars settle.

use vstd::prelude::*;

use crate::fixers;
use crate::fixers::scalars;
use crate::fixers::scalars::ScalarRule;
use crate::fixers::Fixed;
use crate::scripting::change;
use crate::syntax::green::Tree;
use crate::syntax::kind::SyntaxKind;
use crate::syntax::node;
use crate::syntax::tree_utils;

verus! {

/// Whether a rule finds nothing to change in a tree.
pub open spec fn settled(rule: ScalarRule, t: Tree, key: bool) -> bool {
    scalars::scalars_fixed(rule, t, key) == fixers::kept(t)
}

/// Whether a rule rewrites words and numbers of YAML 1.1.
pub open spec fn old_words(rule: ScalarRule) -> bool {
    rule == ScalarRule::Yaml12Bool || rule == ScalarRule::QuoteOctal || rule
        == ScalarRule::QuoteSexagesimal
}

/// What is settled in a row is settled one by one.
proof fn lemma_each_settled(rule: ScalarRule, p: Tree, ts: Seq<Tree>, i: int)
    requires
        scalars::all_scalars_fixed(rule, p, ts) == (Fixed { trees: ts, count: 0 }),
        0 <= i < ts.len(),
    ensures
        settled(rule, ts[i], tree_utils::key_position(p, i)),
    decreases ts.len(),
{
    let before = scalars::all_scalars_fixed(rule, p, ts.drop_last());
    let last = scalars::scalars_fixed(
        rule,
        ts.last(),
        tree_utils::key_position(p, ts.len() - 1),
    );
    scalars::lemma_shapes(rule, p, ts.drop_last());
    scalars::lemma_shape(rule, ts.last(), tree_utils::key_position(p, ts.len() - 1));
    assert((before.trees + last.trees).drop_last() =~= before.trees);
    assert((before.trees + last.trees).last() == last.trees[0]);
    assert(before.trees =~= ts.drop_last());
    assert(last.trees =~= seq![ts.last()]);
    if i < ts.len() - 1 {
        lemma_each_settled(rule, p, ts.drop_last(), i);
    }
}

/// A rule that puts texts in quotes leaves nothing for a rule on words and
/// numbers of YAML 1.1 that has settled.
proof fn lemma_stays_settled(rule: ScalarRule, next: ScalarRule, t: Tree, key: bool)
    requires
        settled(rule, t, key),
        old_words(rule),
        next == ScalarRule::QuoteOctal || next == ScalarRule::QuoteSexagesimal,
    ensures
        settled(rule, scalars::scalars_fixed(next, t, key).trees[0], key),
    decreases t,
{
    match t {
        Tree::Token { .. } => {},
        Tree::Node { kind, children } => {
            let at = node::place_from(children, 0, scalars::fixable(next, key));
            if at is Some && kind == SyntaxKind::SCALAR.code() {
                scalars::lemma_place_passes(children, 0, scalars::fixable(next, key));
                let x = scalars::new_token(next, children[at->0], key)->0;
                let n = Tree::Node { kind, children: seq![x] };
                assert(x is Token);
                assert(seq![x][0] == x);
                assert(node::place_from(seq![x], 1, scalars::fixable(rule, key)) is None);
                assert(node::place_from(seq![x], 0, scalars::fixable(rule, key)) is None);
                scalars::lemma_all_kept(rule, n, seq![x]);
            } else {
                let f = scalars::all_scalars_fixed(next, t, children);
                let n = Tree::Node { kind, children: f.trees };
                let g = scalars::all_scalars_fixed(rule, t, children);
                assert(fixers::around(kind, g).trees[0] == t);
                assert(g.trees == children);
                scalars::lemma_shapes(next, t, children);
                assert forall|i: int| 0 <= i < children.len() implies (
                #[trigger] f.trees[i] is Node) == (children[i] is Node) && (children[i] is Token
                    ==> f.trees[i] == children[i]) by {
                    scalars::lemma_shape(next, children[i], tree_utils::key_position(t, i));
                }
                scalars::lemma_same_place(f.trees, children, 0, scalars::fixable(rule, key));
                scalars::lemma_same_place(f.trees, children, 0, node::any_node());
                assert forall|i: int| 0 <= i < f.trees.len() implies scalars::scalars_fixed(
                    rule,
                    #[trigger] f.trees[i],
                    tree_utils::key_position(n, i),
                ) == fixers::kept(f.trees[i]) by {
                    assert(tree_utils::key_position(n, i) == tree_utils::key_position(t, i));
                    lemma_each_settled(rule, t, children, i);
                    lemma_stays_settled(rule, next, children[i], tree_utils::key_position(t, i));
                }
                scalars::lemma_all_kept(rule, n, f.trees);
            }
        },
    }
}

/// Making words and numbers of YAML 1.1 safe is idempotent: a second time there
/// is nothing to do.
pub proof fn lemma_fix_is_idempotent(t: Tree)
    ensures
        change::safe_words(change::safe_words(t)) == change::safe_words(t),
{
    let a = change::ruled(ScalarRule::Yaml12Bool, t);
    let b = change::ruled(ScalarRule::QuoteOctal, a);
    let c = change::ruled(ScalarRule::QuoteSexagesimal, b);
    scalars::lemma_rule_settles(ScalarRule::Yaml12Bool, t, false);
    lemma_stays_settled(ScalarRule::Yaml12Bool, ScalarRule::QuoteOctal, a, false);
    lemma_stays_settled(ScalarRule::Yaml12Bool, ScalarRule::QuoteSexagesimal, b, false);
    scalars::lemma_rule_settles(ScalarRule::QuoteOctal, a, false);
    lemma_stays_settled(ScalarRule::QuoteOctal, ScalarRule::QuoteSexagesimal, b, false);
    scalars::lemma_rule_settles(ScalarRule::QuoteSexagesimal, b, false);
    assert(change::ruled(ScalarRule::Yaml12Bool, c) == c);
    assert(change::ruled(ScalarRule::QuoteOctal, c) == c);
    assert(change::ruled(ScalarRule::QuoteSexagesimal, c) == c);
}

} // verus!

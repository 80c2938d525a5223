//! The number of changes that a pass says it made is the number that it made.

use vstd::prelude::*;

use crate::fixers::indent;
use crate::fixers::scalars;
use crate::fixers::scalars::ScalarRule;
use crate::laws::indenting;
use crate::laws::requoting;
use crate::syntax::green::Tree;
use crate::syntax::kind::SyntaxKind;
use crate::syntax::node;
use crate::syntax::tree_utils;

verus! {

/// The first place at which a test passes.
proof fn lemma_place(cs: Seq<Tree>, i: int, f: spec_fn(Tree) -> bool)
    requires
        0 <= i,
    ensures
        node::place_from(cs, i, f) matches Some(k) ==> i <= k < cs.len() && f(cs[k]),
        node::place_from(cs, i, f) is None ==> forall|k: int|
            i <= k < cs.len() ==> !f(#[trigger] cs[k]),
    decreases cs.len() - i,
{
    if i < cs.len() {
        lemma_place(cs, i + 1, f);
    }
}

// ---- Scalars ----

/// Whether the scalars of a tree hold tokens alone, as in every tree that was parsed.
pub open spec fn flat(t: Tree) -> bool
    decreases t,
{
    match t {
        Tree::Token { .. } => true,
        Tree::Node { kind, children } => if kind == SyntaxKind::SCALAR.code() {
            forall|i: int| 0 <= i < children.len() ==> #[trigger] children[i] is Token
        } else {
            forall|i: int| 0 <= i < children.len() ==> flat(#[trigger] children[i])
        },
    }
}

/// In how many scalars two trees of the same nodes differ.
pub open spec fn differing(a: Tree, b: Tree) -> nat
    decreases a,
{
    if a == b {
        0
    } else if a.is_node_of(SyntaxKind::SCALAR) {
        1
    } else {
        match a {
            Tree::Token { .. } => 0,
            Tree::Node { children, .. } => all_differing(children, b.children()),
        }
    }
}

/// The same of trees in a row.
pub open spec fn all_differing(a: Seq<Tree>, b: Seq<Tree>) -> nat
    decreases a,
{
    if a.len() == 0 {
        0
    } else {
        all_differing(a.drop_last(), b.drop_last()) + differing(a.last(), b.last())
    }
}

/// Equal rows differ nowhere.
proof fn lemma_same(a: Seq<Tree>)
    ensures
        all_differing(a, a) == 0,
    decreases a.len(),
{
    if a.len() > 0 {
        lemma_same(a.drop_last());
        assert(differing(a.last(), a.last()) == 0);
    }
}

/// A token that a rule writes is another.
proof fn lemma_new_token(rule: ScalarRule, t: Tree, key: bool)
    requires
        t is Token,
        scalars::new_token(rule, t, key) is Some,
    ensures
        scalars::new_token(rule, t, key)->0 != t,
{
    let s = t.text();
    reveal_strlit("true");
    reveal_strlit("false");
    if rule == ScalarRule::Yaml12Bool && t.is_token_of(SyntaxKind::PLAIN_SCALAR) && !key {
        requoting::lemma_old_bool_words(s);
        assert("true"@[0] == 't' && "false"@[0] == 'f');
        assert(scalars::new_token(rule, t, key)->0.text() != s);
    }
}

/// The changes in a tree.
proof fn lemma_changes(rule: ScalarRule, t: Tree, key: bool)
    requires
        flat(t),
    ensures
        scalars::scalars_fixed(rule, t, key).trees.len() == 1,
        scalars::scalars_fixed(rule, t, key).count == differing(
            t,
            scalars::scalars_fixed(rule, t, key).trees[0],
        ),
    decreases t,
{
    match t {
        Tree::Token { .. } => {},
        Tree::Node { kind, children } => {
            lemma_place(children, 0, scalars::fixable(rule, key));
            let place = node::place_from(children, 0, scalars::fixable(rule, key));
            if kind == SyntaxKind::SCALAR.code() && place is Some {
                let i = place->0;
                lemma_new_token(rule, children[i], key);
                let new = scalars::new_token(rule, children[i], key)->0;
                assert(seq![new] != children) by {
                    assert(seq![new][0] == new);
                }
            } else {
                assert forall|i: int| 0 <= i < children.len() implies flat(
                    #[trigger] children[i],
                ) by {
                    if kind == SyntaxKind::SCALAR.code() {
                        assert(children[i] is Token);
                    }
                }
                lemma_all_changes(rule, t, children);
                let f = scalars::all_scalars_fixed(rule, t, children);
                lemma_same(children);
                if kind == SyntaxKind::SCALAR.code() {
                    lemma_tokens_stay(rule, t, children);
                }
                if f.trees == children {
                    assert(f.count == 0);
                }
            }
        },
    }
}

/// The changes in the first children of a node.
proof fn lemma_all_changes(rule: ScalarRule, p: Tree, ts: Seq<Tree>)
    requires
        forall|i: int| 0 <= i < ts.len() ==> flat(#[trigger] ts[i]),
    ensures
        scalars::all_scalars_fixed(rule, p, ts).trees.len() == ts.len(),
        scalars::all_scalars_fixed(rule, p, ts).count == all_differing(
            ts,
            scalars::all_scalars_fixed(rule, p, ts).trees,
        ),
    decreases ts,
{
    if ts.len() > 0 {
        let key = tree_utils::key_position(p, ts.len() - 1);
        let a = scalars::all_scalars_fixed(rule, p, ts.drop_last());
        let b = scalars::scalars_fixed(rule, ts.last(), key);
        assert forall|i: int| 0 <= i < ts.drop_last().len() implies flat(
            #[trigger] ts.drop_last()[i],
        ) by {
            assert(ts.drop_last()[i] == ts[i]);
        }
        lemma_all_changes(rule, p, ts.drop_last());
        assert(ts.last() == ts[ts.len() - 1]);
        lemma_changes(rule, ts.last(), key);
        assert((a.trees + b.trees).drop_last() =~= a.trees);
        assert((a.trees + b.trees).last() == b.trees[0]);
    }
}

/// Tokens alone are no change.
proof fn lemma_tokens_stay(rule: ScalarRule, p: Tree, ts: Seq<Tree>)
    requires
        forall|i: int| 0 <= i < ts.len() ==> #[trigger] ts[i] is Token,
    ensures
        scalars::all_scalars_fixed(rule, p, ts).trees == ts,
    decreases ts.len(),
{
    if ts.len() > 0 {
        assert forall|i: int| 0 <= i < ts.drop_last().len() implies #[trigger] ts.drop_last()[i]
            is Token by {
            assert(ts.drop_last()[i] == ts[i]);
        }
        lemma_tokens_stay(rule, p, ts.drop_last());
        assert(ts.last() == ts[ts.len() - 1]);
        assert(scalars::scalars_fixed(
            rule,
            ts.last(),
            tree_utils::key_position(p, ts.len() - 1),
        ).trees =~= seq![ts.last()]);
        assert(scalars::all_scalars_fixed(rule, p, ts).trees =~= ts);
    } else {
        assert(scalars::all_scalars_fixed(rule, p, ts).trees =~= ts);
    }
}

/// A pass over scalars counts the scalars in which the new tree differs from the old.
pub proof fn lemma_scalar_changes_are_counted(rule: ScalarRule, t: Tree)
    requires
        flat(t),
    ensures
        scalars::scalars_fixed(rule, t, false).count == differing(
            t,
            scalars::scalars_fixed(rule, t, false).trees[0],
        ),
{
    lemma_changes(rule, t, false);
}

// ---- Indentation ----

/// A gap that is too wide is wider than one space.
proof fn lemma_wide(cs: Seq<Tree>, j: int, seen: bool)
    ensures
        indent::wide_gap(cs, j, seen) matches Some(k) ==> indent::width(cs[k]) > 1,
    decreases cs.len() - j,
{
    if 0 <= j < cs.len() {
        lemma_wide(cs, j + 1, true);
        lemma_wide(cs, j + 1, false);
    }
}

/// What takes the place of whitespace is at most one tree, and another.
proof fn lemma_gap(e: Tree, k: int, own: bool, col: int)
    requires
        col >= 0,
    ensures
        indent::gap_change(e, k, own, col) matches Some(x) ==> x.len() <= 1 && x != seq![
            e.children()[k],
        ],
{
    let cs = e.children();
    lemma_wide(cs, 0, false);
    indenting::lemma_blank_width(1);
    indenting::lemma_blank_width(col);
    indenting::lemma_blank_width(col + 2);
    if let Some(x) = indent::gap_change(e, k, own, col) {
        if x.len() == 1 {
            assert(indent::width(x[0]) != indent::width(cs[k]));
        }
        assert(seq![cs[k]][0] == cs[k]);
    }
}

/// The column of a block in an entry is none left of the first.
proof fn lemma_column(whole: Tree, path: Seq<usize>, e: Tree, k: int, col: int)
    requires
        col >= 0,
    ensures
        indent::child_column(whole, path, e, k, col) >= 0,
{
}

/// No change of a block is counted exactly where it stays.
proof fn lemma_block(whole: Tree, path: Seq<usize>, t: Tree, col: int)
    requires
        col >= 0,
    ensures
        indent::block_changes(whole, path, t, col) == 0 <==> indent::block_indented(
            whole,
            path,
            t,
            col,
        ) == t,
    decreases t, 0int,
{
    match t {
        Tree::Token { .. } => {},
        Tree::Node { children, .. } => {
            lemma_entries(whole, path, children, children, col);
        },
    }
}

/// No change of the first entries.
proof fn lemma_entries(whole: Tree, path: Seq<usize>, cs: Seq<Tree>, ts: Seq<Tree>, col: int)
    requires
        col >= 0,
    ensures
        indent::entries_indented(whole, path, cs, ts, col).len() == ts.len(),
        indent::entries_changes(whole, path, cs, ts, col) == 0 <==> indent::entries_indented(
            whole,
            path,
            cs,
            ts,
            col,
        ) == ts,
    decreases ts, 0int,
{
    let r = indent::entries_indented(whole, path, cs, ts, col);
    if ts.len() > 0 {
        let i = ts.len() - 1;
        let a = indent::entries_indented(whole, path, cs, ts.drop_last(), col);
        lemma_entries(whole, path, cs, ts.drop_last(), col);
        lemma_entry(whole, path.push(i as usize), ts.last(), indent::own_indent(cs, i), col);
        assert(r.drop_last() =~= a);
        assert(ts =~= ts.drop_last().push(ts.last()));
        if a == ts.drop_last() && r.last() == ts.last() {
            assert(r =~= ts);
        }
    } else {
        assert(r =~= ts);
    }
}

/// No change of an entry.
proof fn lemma_entry(whole: Tree, path: Seq<usize>, e: Tree, own: bool, col: int)
    requires
        col >= 0,
    ensures
        indent::entry_changes(whole, path, e, own, col) == 0 <==> indent::entry_indented(
            whole,
            path,
            e,
            own,
            col,
        ) == e,
    decreases e, 0int,
{
    match e {
        Tree::Token { .. } => {},
        Tree::Node { children, .. } => {
            assert(children.take(children.len() as int) =~= children);
            lemma_entry_parts(whole, path, e, children, own, col);
            let parts = indent::parts_indented(whole, path, e, children, own, col);
            let new = indent::given_indent(e, own, col) + parts;
            if indent::needs_indent(e, own, col) {
                assert(new[0] == indent::blank(col));
                assert(indent::begins_blank(new));
            } else {
                assert(new =~= parts);
            }
        },
    }
}

/// No change of the first children of an entry.
proof fn lemma_entry_parts(
    whole: Tree,
    path: Seq<usize>,
    e: Tree,
    ts: Seq<Tree>,
    own: bool,
    col: int,
)
    requires
        col >= 0,
        ts.len() <= e.children().len(),
        ts == e.children().take(ts.len() as int),
    ensures
        indent::parts_indented(whole, path, e, ts, own, col).len() <= ts.len(),
        indent::parts_changes(whole, path, e, ts, own, col) == 0 <==> indent::parts_indented(
            whole,
            path,
            e,
            ts,
            own,
            col,
        ) == ts,
    decreases ts, 0int,
{
    let r = indent::parts_indented(whole, path, e, ts, own, col);
    if ts.len() > 0 {
        let k = ts.len() - 1;
        let a = indent::parts_indented(whole, path, e, ts.drop_last(), own, col);
        let column = indent::child_column(whole, path, e, k, col);
        assert(ts.drop_last() =~= e.children().take(k));
        assert(ts.last() == e.children()[k]);
        lemma_entry_parts(whole, path, e, ts.drop_last(), own, col);
        lemma_gap(e, k, own, col);
        lemma_column(whole, path, e, k, col);
        lemma_block(whole, path.push(k as usize), ts.last(), column);
        let piece = r.skip(a.len() as int);
        assert(r =~= a + piece);
        assert(ts =~= ts.drop_last() + seq![ts.last()]);
        match indent::gap_change(e, k, own, col) {
            Some(x) => {
                assert(piece =~= x);
                if r == ts {
                    assert(a.len() == k && x.len() == 1);
                    assert(x[0] == ts[k]);
                    assert(x =~= seq![ts.last()]);
                }
            },
            None => {
                assert(piece.len() == 1);
                if r == ts {
                    assert(a =~= r.take(k));
                    assert(a =~= ts.drop_last());
                    assert(r[k] == ts[k]);
                }
            },
        }
    } else {
        assert(r =~= ts);
    }
}

/// No change of the first documents.
proof fn lemma_first_documents(whole: Tree, ts: Seq<Tree>)
    ensures
        indent::documents_indented(whole, ts).len() == ts.len(),
        indent::documents_changes(whole, ts) == 0 <==> indent::documents_indented(whole, ts)
            == ts,
    decreases ts.len(),
{
    let r = indent::documents_indented(whole, ts);
    if ts.len() > 0 {
        let a = indent::documents_indented(whole, ts.drop_last());
        let i = ts.len() - 1;
        let t = ts.last();
        lemma_first_documents(whole, ts.drop_last());
        assert(r.drop_last() =~= a);
        assert(ts =~= ts.drop_last().push(t));
        if let Some(j) = indent::root_block(t) {
            let cs = t.children();
            lemma_place(cs, 0, indent::blocks());
            lemma_block(whole, seq![i as usize, j as usize], cs[j], 0);
            let new = indent::block_indented(whole, seq![i as usize, j as usize], cs[j], 0);
            assert(cs.update(j, new)[j] == new);
            if new == cs[j] {
                assert(cs.update(j, new) =~= cs);
            }
        }
        if a == ts.drop_last() && r.last() == t {
            assert(r =~= ts);
        }
    } else {
        assert(r =~= ts);
    }
}

/// Fixing indentation counts no change exactly where it changes nothing.
pub proof fn lemma_reindent_counts_changes(t: Tree)
    ensures
        indent::reindent_changes(t) == 0 <==> indent::reindented(t) == t,
{
    if t.is_node_of(SyntaxKind::STREAM) {
        lemma_first_documents(t, t.children());
    }
}

} // verus!

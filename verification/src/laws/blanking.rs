//! Passes over whitespace change nothing else.

use vstd::prelude::*;

use crate::fixers::indent;
use crate::fixers::trim;
use crate::scripting::change;
use crate::syntax::green;
use crate::syntax::green::Tree;
use crate::syntax::kind::SyntaxKind;
use crate::syntax::tree_utils;
use crate::text;

verus! {

/// A text without its spaces and tabs.
pub open spec fn solid_text(s: Seq<char>) -> Seq<char>
    decreases s.len(),
{
    if s.len() == 0 {
        seq![]
    } else if s.last() == ' ' || s.last() == '\t' {
        solid_text(s.drop_last())
    } else {
        solid_text(s.drop_last()).push(s.last())
    }
}

/// Texts one behind another.
proof fn lemma_solid_add(a: Seq<char>, b: Seq<char>)
    ensures
        solid_text(a + b) == solid_text(a) + solid_text(b),
    decreases b.len(),
{
    if b.len() == 0 {
        assert(a + b =~= a);
        assert(solid_text(a) + solid_text(b) =~= solid_text(a));
    } else {
        lemma_solid_add(a, b.drop_last());
        assert((a + b).drop_last() =~= a + b.drop_last());
        assert(solid_text(a + b) =~= solid_text(a) + solid_text(b));
    }
}

/// Nothing is left of spaces.
proof fn lemma_spaces(n: int)
    requires
        n >= 0,
    ensures
        solid_text(text::spaces(n)) == Seq::<char>::empty(),
    decreases n,
{
    let s = text::spaces(n);
    if n > 0 {
        lemma_spaces(n - 1);
        assert(s.drop_last() =~= text::spaces(n - 1));
    } else {
        assert(s =~= seq![]);
    }
}

/// Whether the tokens of whitespace in a tree hold nothing but spaces and tabs.
pub open spec fn blanks_are_blank(t: Tree) -> bool
    decreases t,
{
    match t {
        Tree::Token { text, .. } => t.is_token_of(SyntaxKind::WHITESPACE) ==> solid_text(text)
            == Seq::<char>::empty(),
        Tree::Node { children, .. } => all_blanks_are_blank(children),
    }
}

/// The same of trees in a row.
pub open spec fn all_blanks_are_blank(ts: Seq<Tree>) -> bool
    decreases ts,
{
    ts.len() > 0 ==> all_blanks_are_blank(ts.drop_last()) && blanks_are_blank(ts.last())
}

/// The same of each of the trees.
proof fn lemma_each_blank(ts: Seq<Tree>, i: int)
    requires
        all_blanks_are_blank(ts),
        0 <= i < ts.len(),
    ensures
        blanks_are_blank(ts[i]),
    decreases ts.len(),
{
    if i < ts.len() - 1 {
        lemma_each_blank(ts.drop_last(), i);
    }
}

/// What is left of trees in a row.
pub open spec fn solid_row(ts: Seq<Tree>) -> Seq<char> {
    solid_text(green::trees_text(ts))
}

/// What is left of a tree behind others.
proof fn lemma_row_push(ts: Seq<Tree>, t: Tree)
    ensures
        solid_row(ts.push(t)) == solid_row(ts) + solid_text(t.text()),
{
    assert(ts.push(t).drop_last() =~= ts);
    lemma_solid_add(green::trees_text(ts), t.text());
}

/// What is left of two rows.
proof fn lemma_row_add(a: Seq<Tree>, b: Seq<Tree>)
    ensures
        solid_row(a + b) == solid_row(a) + solid_row(b),
{
    green::lemma_trees_text_add(a, b);
    lemma_solid_add(green::trees_text(a), green::trees_text(b));
}

/// What is left of the last tree and those before it.
proof fn lemma_row_last(ts: Seq<Tree>)
    requires
        ts.len() > 0,
    ensures
        solid_row(ts) == solid_row(ts.drop_last()) + solid_text(ts.last().text()),
{
    lemma_solid_add(green::trees_text(ts.drop_last()), ts.last().text());
}

// ---- The ends of lines ----

/// Without the spaces and tabs at its end a text holds the same.
proof fn lemma_trimmed_end(s: Seq<char>)
    ensures
        solid_text(trim::trimmed_end(s)) == solid_text(s),
    decreases s.len(),
{
    if s.len() > 0 && (s.last() == ' ' || s.last() == '\t') {
        lemma_trimmed_end(s.drop_last());
    }
}

/// What is trimmed of a tree is spaces and tabs.
proof fn lemma_tree_trimmed(t: Tree, after: Option<u16>)
    requires
        blanks_are_blank(t),
    ensures
        solid_row(trim::tree_trimmed(t, after).trees) == solid_text(t.text()),
    decreases t, 1int,
{
    let f = trim::tree_trimmed(t, after);
    match t {
        Tree::Token { text, .. } => {
            if f.trees.len() == 0 {
                assert(f.trees =~= seq![]);
            } else {
                assert(f.trees =~= seq![f.trees[0]]);
                green::lemma_trees_text_one(f.trees[0]);
                lemma_trimmed_end(text);
            }
        },
        Tree::Node { children, .. } => {
            assert(children.take(children.len() as int) =~= children);
            lemma_all_trimmed(t, children, after);
            assert(f.trees =~= seq![f.trees[0]]);
            green::lemma_trees_text_one(f.trees[0]);
        },
    }
}

/// What is trimmed of the first children is spaces and tabs.
proof fn lemma_all_trimmed(t: Tree, ts: Seq<Tree>, after: Option<u16>)
    requires
        t is Node,
        ts.len() <= t->children.len(),
        ts == t->children.take(ts.len() as int),
        all_blanks_are_blank(ts),
    ensures
        solid_row(trim::all_trimmed(t->children, ts, after).trees) == solid_row(ts),
    decreases t, 0int, ts.len(),
{
    let cs = t->children;
    if ts.len() > 0 {
        let n = ts.len() - 1;
        assert(ts.drop_last() =~= cs.take(n));
        assert(ts.last() == cs[n]);
        lemma_all_trimmed(t, ts.drop_last(), after);
        assert(decreases_to!(t => t->children[n]));
        lemma_tree_trimmed(cs[n], trim::kind_after(cs, n, after));
        let a = trim::all_trimmed(cs, ts.drop_last(), after);
        let b = trim::tree_trimmed(cs[n], trim::kind_after(cs, n, after));
        lemma_row_add(a.trees, b.trees);
        lemma_row_last(ts);
    } else {
        assert(trim::all_trimmed(cs, ts, after).trees =~= seq![]);
    }
}

/// Trimming the ends of lines takes out spaces and tabs alone: all other characters
/// stay, in their order.
pub proof fn lemma_trimming_takes_blanks_alone(t: Tree)
    requires
        t is Node,
        blanks_are_blank(t),
    ensures
        solid_text(change::trimmed(t).text()) == solid_text(t.text()),
{
    let f = trim::tree_trimmed(t, None);
    lemma_tree_trimmed(t, None);
    assert(f.trees =~= seq![change::trimmed(t)]);
    green::lemma_trees_text_one(change::trimmed(t));
}

// ---- Indentation ----

/// The indentation of a block changes spaces and tabs alone.
proof fn lemma_block(whole: Tree, path: Seq<usize>, t: Tree, col: int)
    requires
        col >= 0,
        blanks_are_blank(t),
    ensures
        solid_text(indent::block_indented(whole, path, t, col).text()) == solid_text(t.text()),
    decreases t, 1int, 0int,
{
    if t is Node {
        let cs = t->Node_children;
        assert(cs.take(cs.len() as int) =~= cs);
        lemma_entries(whole, path, t, cs, col);
    }
}

/// So does that of its first children.
proof fn lemma_entries(whole: Tree, path: Seq<usize>, t: Tree, ts: Seq<Tree>, col: int)
    requires
        col >= 0,
        t is Node,
        ts.len() <= t->Node_children.len(),
        ts == t->Node_children.take(ts.len() as int),
        all_blanks_are_blank(ts),
    ensures
        solid_row(indent::entries_indented(whole, path, t->Node_children, ts, col)) == solid_row(
            ts,
        ),
    decreases t, 0int, ts.len(),
{
    let cs = t->Node_children;
    if ts.len() > 0 {
        let i = ts.len() - 1;
        assert(ts.drop_last() =~= cs.take(i));
        assert(ts.last() == cs[i]);
        lemma_entries(whole, path, t, ts.drop_last(), col);
        let before = indent::entries_indented(whole, path, cs, ts.drop_last(), col);
        let e = ts.last();
        let x = if tree_utils::block_entry(e) {
            indent::entry_indented(
                whole,
                path.push(i as usize),
                e,
                indent::own_indent(cs, i),
                col,
            )
        } else {
            e
        };
        assert(decreases_to!(t => t->Node_children[i]));
        lemma_entry(whole, path.push(i as usize), e, indent::own_indent(cs, i), col);
        lemma_row_push(before, x);
        lemma_row_last(ts);
    } else {
        assert(indent::entries_indented(whole, path, cs, ts, col) =~= ts);
    }
}

/// So does that of an entry.
proof fn lemma_entry(whole: Tree, path: Seq<usize>, e: Tree, own: bool, col: int)
    requires
        col >= 0,
        blanks_are_blank(e),
    ensures
        solid_text(indent::entry_indented(whole, path, e, own, col).text()) == solid_text(e.text()),
    decreases e, 1int, 0int,
{
    if e is Node {
        let cs = e->Node_children;
        assert(cs.take(cs.len() as int) =~= cs);
        lemma_parts(whole, path, e, cs, own, col);
        let given = indent::given_indent(e, own, col);
        let parts = indent::parts_indented(whole, path, e, cs, own, col);
        lemma_row_add(given, parts);
        if given.len() > 0 {
            green::lemma_trees_text_one(indent::blank(col));
            lemma_spaces(col);
        } else {
            assert(given =~= seq![]);
        }
        assert(solid_row(given) =~= seq![]);
        assert(solid_row(given) + solid_row(parts) =~= solid_row(parts));
    }
}

/// So does that of its first children.
proof fn lemma_parts(
    whole: Tree,
    path: Seq<usize>,
    e: Tree,
    ts: Seq<Tree>,
    own: bool,
    col: int,
)
    requires
        col >= 0,
        e is Node,
        ts.len() <= e->Node_children.len(),
        ts == e->Node_children.take(ts.len() as int),
        all_blanks_are_blank(ts),
    ensures
        solid_row(indent::parts_indented(whole, path, e, ts, own, col)) == solid_row(ts),
    decreases e, 0int, ts.len(),
{
    let cs = e->Node_children;
    if ts.len() > 0 {
        let k = ts.len() - 1;
        assert(ts.drop_last() =~= cs.take(k));
        assert(ts.last() == cs[k]);
        lemma_parts(whole, path, e, ts.drop_last(), own, col);
        let before = indent::parts_indented(whole, path, e, ts.drop_last(), own, col);
        assert(decreases_to!(e => e->Node_children[k]));
        let c = indent::child_column(whole, path, e, k, col);
        lemma_block(whole, path.push(k as usize), cs[k], c);
        lemma_row_last(ts);
        match indent::gap_change(e, k, own, col) {
            Some(x) => {
                lemma_row_add(before, x);
                assert(x.len() == 0 || exists|n: int|
                    n >= 0 && x == seq![#[trigger] indent::blank(n)]);
                if x.len() > 0 {
                    let n = choose|n: int| n >= 0 && x == seq![#[trigger] indent::blank(n)];
                    green::lemma_trees_text_one(indent::blank(n));
                    lemma_spaces(n);
                } else {
                    assert(x =~= seq![]);
                }
                assert(solid_row(x) =~= seq![]);
                assert(blanks_are_blank(cs[k]));
                assert(solid_text(cs[k].text()) =~= seq![]);
                assert(solid_row(before) + solid_row(x) =~= solid_row(before));
                assert(solid_row(ts) =~= solid_row(ts.drop_last()));
            },
            None => {
                let y = if indent::is_block(cs[k]) {
                    indent::block_indented(whole, path.push(k as usize), cs[k], c)
                } else {
                    cs[k]
                };
                lemma_row_add(before, seq![y]);
                green::lemma_trees_text_one(y);
            },
        }
    } else {
        assert(indent::parts_indented(whole, path, e, ts, own, col) =~= ts);
    }
}

/// The indentation of the first children of a stream changes spaces and tabs alone.
proof fn lemma_documents(whole: Tree, ts: Seq<Tree>)
    requires
        all_blanks_are_blank(ts),
    ensures
        solid_row(indent::documents_indented(whole, ts)) == solid_row(ts),
    decreases ts.len(),
{
    if ts.len() > 0 {
        let i = ts.len() - 1;
        let t = ts.last();
        lemma_documents(whole, ts.drop_last());
        let before = indent::documents_indented(whole, ts.drop_last());
        lemma_row_push(before, indent::document_indented(whole, i, t));
        lemma_row_last(ts);
        if let Some(j) = indent::root_block(t) {
            let cs = t.children();
            assert(blanks_are_blank(t) && t is Node);
            crate::fixers::scalars::lemma_place_passes(cs, 0, indent::blocks());
            lemma_each_blank(cs, j);
            let b = indent::block_indented(whole, seq![i as usize, j as usize], cs[j], 0);
            lemma_block(whole, seq![i as usize, j as usize], cs[j], 0);
            let head = cs.take(j);
            let tail = cs.skip(j + 1);
            assert(cs =~= head + (seq![cs[j]] + tail));
            assert(cs.update(j, b) =~= head + (seq![b] + tail));
            lemma_row_add(head, seq![cs[j]] + tail);
            lemma_row_add(seq![cs[j]], tail);
            lemma_row_add(head, seq![b] + tail);
            lemma_row_add(seq![b], tail);
            green::lemma_trees_text_one(cs[j]);
            green::lemma_trees_text_one(b);
        }
    } else {
        assert(indent::documents_indented(whole, ts) =~= ts);
    }
}

/// Fixing indentation changes spaces and tabs alone: all other characters stay, in
/// their order, line breaks among them.
pub proof fn lemma_reindenting_changes_blanks_alone(t: Tree)
    requires
        blanks_are_blank(t),
    ensures
        solid_text(indent::reindented(t).text()) == solid_text(t.text()),
{
    if t.is_node_of(SyntaxKind::STREAM) {
        lemma_documents(t, t.children());
    }
}

} // verus!

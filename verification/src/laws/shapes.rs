//! The trees of texts that were laid out.

use vstd::prelude::*;
use vstd::utf8::*;

use crate::builder;
use crate::builder::YamlModel;
use crate::grammar;
use crate::laws::layout;
use crate::laws::layout::Layout;
use crate::laws::leaves;
use crate::laws::standing;
use crate::syntax::green::Tree;
use crate::syntax::kind::SyntaxKind;
use crate::text;

verus! {

broadcast use vstd::utf8::encode_utf8_valid_utf8;

/// A token.
pub open spec fn tok(kind: SyntaxKind, text: Seq<char>) -> Tree {
    Tree::Token { kind: kind.code(), text }
}

/// Whitespace of `n` spaces, or nothing.
pub open spec fn margin_of(n: int) -> Seq<Tree> {
    if n > 0 {
        seq![tok(SyntaxKind::WHITESPACE, text::spaces(n))]
    } else {
        seq![]
    }
}

/// The space before a value on the line of its mark.
pub open spec fn gap() -> Tree {
    tok(SyntaxKind::WHITESPACE, seq![' '])
}

/// A line break.
pub open spec fn feed() -> Tree {
    tok(SyntaxKind::NEWLINE, seq!['\n'])
}

/// The node of a value on one line.
pub open spec fn leaf_tree(m: YamlModel) -> Tree {
    match m {
        YamlModel::List(_) => Tree::Node {
            kind: SyntaxKind::FLOW_SEQUENCE.code(),
            children: seq![tok(SyntaxKind::L_BRACKET, seq!['[']), tok(SyntaxKind::R_BRACKET, seq![']'])],
        },
        YamlModel::Dict(_) => Tree::Node {
            kind: SyntaxKind::FLOW_MAPPING.code(),
            children: seq![tok(SyntaxKind::L_BRACE, seq!['{']), tok(SyntaxKind::R_BRACE, seq!['}'])],
        },
        _ => leaves::scalar_tree(layout::leaf_text(m)),
    }
}

/// A value on one line behind the mark of its entry.
pub open spec fn leaf_elems(m: YamlModel) -> Seq<Tree> {
    seq![gap(), leaf_tree(m)]
}

/// The node of a collection at `n`, whose first entry begins with `lead` spaces.
pub open spec fn block_tree(l: Layout, m: YamlModel, n: int, lead: int) -> Tree
    decreases m, 3nat, 0nat,
{
    match m {
        YamlModel::List(items) => Tree::Node {
            kind: SyntaxKind::BLOCK_SEQUENCE.code(),
            children: items_trees(l, items, 0, n, lead),
        },
        YamlModel::Dict(pairs) => Tree::Node {
            kind: SyntaxKind::BLOCK_MAPPING.code(),
            children: pairs_trees(l, pairs, 0, n, lead),
        },
        _ => leaf_tree(m),
    }
}

/// A collection at `n` on lines of its own, behind the line before it.
pub open spec fn below_elems(l: Layout, m: YamlModel, n: int) -> Seq<Tree>
    decreases m, 3nat, 1nat,
{
    seq![feed(), block_tree(l, m, n, n)]
}

/// The value of an entry of a mapping at `n`, behind its colon.
pub open spec fn child_elems(l: Layout, m: YamlModel, n: int) -> Seq<Tree>
    decreases m, 4nat, 0nat,
{
    if layout::is_tall(m) {
        below_elems(l, m, layout::column_below(l, m, n))
    } else {
        leaf_elems(m)
    }
}

/// An item of a sequence at `n`, behind its dash.
pub open spec fn item_elems(l: Layout, m: YamlModel, n: int) -> Seq<Tree>
    decreases m, 5nat, 0nat,
{
    match m {
        YamlModel::Dict(pairs) if pairs.len() > 0 => seq![gap(), block_tree(l, m, n + 2, 0)],
        YamlModel::List(items) if items.len() > 0 => if l.inline {
            seq![gap(), block_tree(l, m, n + 2, 0)]
        } else {
            below_elems(l, m, n + l.step)
        },
        _ => leaf_elems(m),
    }
}

/// The entries of the items from `i` on, the first behind `lead` spaces.
pub open spec fn items_trees(
    l: Layout,
    items: Seq<YamlModel>,
    i: int,
    n: int,
    lead: int,
) -> Seq<Tree>
    decreases items, 1nat, 2 * (items.len() - i),
{
    if 0 <= i < items.len() {
        seq![
            Tree::Node {
                kind: SyntaxKind::BLOCK_SEQUENCE_ENTRY.code(),
                children: margin_of(lead) + seq![tok(SyntaxKind::DASH, seq!['-'])] + item_elems(
                    l,
                    items[i],
                    n,
                ),
            },
        ] + items_more(l, items, i + 1, n)
    } else {
        seq![]
    }
}

/// The entries of the items from `i` on, behind the line before them.
pub open spec fn items_more(l: Layout, items: Seq<YamlModel>, i: int, n: int) -> Seq<Tree>
    decreases items, 1nat, 2 * (items.len() - i) + 1,
{
    if 0 <= i < items.len() {
        seq![feed()] + items_trees(l, items, i, n, n)
    } else {
        seq![]
    }
}

/// The entries of the pairs from `i` on, the first behind `lead` spaces.
pub open spec fn pairs_trees(
    l: Layout,
    pairs: Seq<layout::Pair>,
    i: int,
    n: int,
    lead: int,
) -> Seq<Tree>
    decreases pairs, 1nat, 2 * (pairs.len() - i),
{
    if 0 <= i < pairs.len() {
        seq![
            Tree::Node {
                kind: SyntaxKind::BLOCK_MAPPING_ENTRY.code(),
                children: margin_of(lead) + seq![
                    leaves::scalar_tree(builder::string_text(pairs[i].0)),
                ] + seq![tok(SyntaxKind::COLON, seq![':'])] + child_elems(l, pairs[i].1, n),
            },
        ] + pairs_more(l, pairs, i + 1, n)
    } else {
        seq![]
    }
}

/// The entries of the pairs from `i` on, behind the line before them.
pub open spec fn pairs_more(l: Layout, pairs: Seq<layout::Pair>, i: int, n: int) -> Seq<Tree>
    decreases pairs, 1nat, 2 * (pairs.len() - i) + 1,
{
    if 0 <= i < pairs.len() {
        seq![feed()] + pairs_trees(l, pairs, i, n, n)
    } else {
        seq![]
    }
}

/// The node of a document's value.
pub open spec fn root_tree(l: Layout, m: YamlModel) -> Tree {
    if layout::is_tall(m) {
        block_tree(l, m, 0, 0)
    } else {
        leaf_tree(m)
    }
}

/// The tree of a text that holds one document.
pub open spec fn stream_tree(l: Layout, m: YamlModel) -> Tree {
    Tree::Node {
        kind: SyntaxKind::STREAM.code(),
        children: seq![
            Tree::Node { kind: SyntaxKind::DOCUMENT.code(), children: seq![root_tree(l, m)] },
            feed(),
        ],
    }
}

/// The token of an ASCII character.
pub proof fn lemma_token(s: Seq<u8>, p: int, kind: SyntaxKind, c: char)
    requires
        0 <= p < s.len(),
        (c as u32) < 0x80,
        s[p] == c as u8,
    ensures
        grammar::token(s, p, kind, 1).elems == seq![tok(kind, seq![c])],
{
    standing::lemma_char(c);
    assert(s.subrange(p, p + 1) =~= seq![c as u8]);
    standing::lemma_chars(s, p, seq![c]);
}

/// The token of spaces.
pub proof fn lemma_margin(s: Seq<u8>, p: int, n: int)
    requires
        0 <= p,
        0 < n,
        p + n <= s.len(),
        standing::blank_between(s, p, p + n),
    ensures
        grammar::token(s, p, SyntaxKind::WHITESPACE, n as nat).elems == margin_of(n),
{
    let t = text::spaces(n);
    assert(is_ascii_chars(t));
    is_ascii_chars_encode_utf8(t);
    assert(s.subrange(p, p + n) =~= encode_utf8(t));
    standing::lemma_chars(s, p, t);
}

} // verus!

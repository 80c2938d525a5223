//! A value that was written as a text is read back from it.

use vstd::prelude::*;
use vstd::utf8::*;

use crate::ast::nodes;
use crate::ast::nodes::{Document, Node};
use crate::builder;
use crate::builder::read;
use crate::builder::YamlModel;
use crate::grammar;
use crate::grammar::Parsed;
use crate::laws::emitting;
use crate::laws::gathering;
use crate::laws::layout;
use crate::laws::layout::Layout;
use crate::laws::leaves;
use crate::laws::shapes;
use crate::laws::standing;
use crate::lexer;
use crate::lexer::{ByteClass, PlainStop};
use crate::syntax::green::Tree;
use crate::syntax::kind::SyntaxKind;
use crate::text;

verus! {

broadcast use vstd::utf8::encode_utf8_valid_utf8;

/// Whether a value is read back as it is written, at all depths.
pub open spec fn is_tame(m: YamlModel) -> bool
    decreases m,
{
    match m {
        YamlModel::List(items) => forall|i: int|
            0 <= i < items.len() ==> is_tame(#[trigger] items[i]),
        YamlModel::Dict(pairs) => forall|i: int|
            0 <= i < pairs.len() ==> is_tame((#[trigger] pairs[i]).1),
        _ => leaves::is_tame_leaf(m),
    }
}

// ---- Values on one line ----

/// A node without anything before it.
pub proof fn lemma_behind_none(r: Parsed)
    ensures
        grammar::cat(grammar::none(), r) == r,
        r.fault is None ==> grammar::cat(r, grammar::none()) == r,
{
    assert(grammar::none().elems + r.elems =~= r.elems);
    assert(r.elems + grammar::none().elems =~= r.elems);
}

/// Tokens before a node.
pub proof fn lemma_behind_token(a: Parsed, r: Parsed, len: int, m: YamlModel)
    requires
        a.fault is None,
        gathering::all_tokens(a.elems),
        gathering::yields(r, len, m),
    ensures
        gathering::yields(grammar::cat(a, r), a.len + len, m),
{
    let c = grammar::cat(a, r);
    assert(c.elems.last() == r.elems.last());
    assert forall|i: int| 0 <= i < c.elems.drop_last().len() implies #[trigger] c.elems.drop_last()[
        i] is Token by {
        if i >= a.elems.len() {
            assert(r.elems.drop_last()[i - a.elems.len()] is Token);
        }
    }
}

/// One token before one node.
proof fn lemma_behind_one(a: Parsed, r: Parsed, len: int, m: YamlModel, x: Tree, y: Tree)
    requires
        a.fault is None,
        a.elems == seq![x],
        x is Token,
        r.elems == seq![y],
        gathering::yields(r, len, m),
    ensures
        gathering::yields(grammar::cat(a, r), a.len + len, m),
        grammar::cat(a, r).elems == seq![x, y],
{
    assert(gathering::all_tokens(a.elems));
    lemma_behind_token(a, r, len, m);
    assert(a.elems + r.elems =~= seq![x, y]);
}

/// A scalar stands for its value.
pub(crate) proof fn lemma_scalar_yields(m: YamlModel)
    requires
        leaves::is_tame_leaf(m),
        !(m is List),
        !(m is Dict),
    ensures
        gathering::yields(
            emitting::scalar_parsed(layout::leaf_text(m)),
            standing::size(layout::leaf_text(m)),
            m,
        ),
        emitting::scalar_parsed(layout::leaf_text(m)).elems == seq![shapes::leaf_tree(m)],
{
    leaves::lemma_leaf(m);
    let w = layout::leaf_text(m);
    let r = emitting::scalar_parsed(w);
    assert(r.elems.last() == leaves::scalar_tree(w));
    assert(r.elems.drop_last() =~= seq![]);
}

/// An empty sequence.
pub(crate) proof fn lemma_empty_list(s: Seq<u8>, p: int)
    requires
        standing::stands(s, p, "[]"@),
    ensures
        0 <= p < s.len(),
        standing::solid(s[p]),
        grammar::at(s, p, SyntaxKind::L_BRACKET),
        grammar::inline_trivia(s, p) == grammar::none(),
        grammar::leading_whitespace(s, p) == grammar::none(),
        gathering::yields(grammar::flow_sequence(s, p), 2, YamlModel::List(seq![])),
        standing::size("[]"@) == 2,
        grammar::flow_sequence(s, p).elems == seq![shapes::leaf_tree(YamlModel::List(seq![]))],
{
    reveal_strlit("[]");
    let none = Seq::<char>::empty();
    assert("[]"@ =~= seq!['['] + (seq![']'] + none));
    standing::lemma_first(s, p, '[', seq![']'] + none);
    standing::lemma_first(s, p + 1, ']', none);
    assert(standing::size(none) == 0);
    reveal(lexer::hint_of);
    reveal(grammar::inline_trivia);
    reveal(grammar::trivia);
    let r = grammar::flow_sequence(s, p);
    let t = r.elems.last();
    assert(r.elems.drop_last() =~= seq![]);
    shapes::lemma_token(s, p, SyntaxKind::L_BRACKET, '[');
    shapes::lemma_token(s, p + 1, SyntaxKind::R_BRACKET, ']');
    assert(t.children() =~= shapes::leaf_tree(YamlModel::List(seq![])).children());
    gathering::lemma_tokens(t.children(), SyntaxKind::FLOW_SEQUENCE_ENTRY);
    gathering::lemma_list(SyntaxKind::FLOW_SEQUENCE, t.children(), seq![]);
}

/// An empty mapping.
pub(crate) proof fn lemma_empty_dict(s: Seq<u8>, p: int)
    requires
        standing::stands(s, p, "{}"@),
    ensures
        0 <= p < s.len(),
        standing::solid(s[p]),
        grammar::at(s, p, SyntaxKind::L_BRACE),
        grammar::inline_trivia(s, p) == grammar::none(),
        grammar::leading_whitespace(s, p) == grammar::none(),
        gathering::yields(grammar::flow_mapping(s, p), 2, YamlModel::Dict(seq![])),
        standing::size("{}"@) == 2,
        grammar::flow_mapping(s, p).elems == seq![shapes::leaf_tree(YamlModel::Dict(seq![]))],
{
    reveal_strlit("{}");
    let none = Seq::<char>::empty();
    assert("{}"@ =~= seq!['{'] + (seq!['}'] + none));
    standing::lemma_first(s, p, '{', seq!['}'] + none);
    standing::lemma_first(s, p + 1, '}', none);
    assert(standing::size(none) == 0);
    reveal(lexer::hint_of);
    reveal(grammar::inline_trivia);
    reveal(grammar::trivia);
    let r = grammar::flow_mapping(s, p);
    let t = r.elems.last();
    assert(r.elems.drop_last() =~= seq![]);
    shapes::lemma_token(s, p, SyntaxKind::L_BRACE, '{');
    shapes::lemma_token(s, p + 1, SyntaxKind::R_BRACE, '}');
    assert(t.children() =~= shapes::leaf_tree(YamlModel::Dict(seq![])).children());
    gathering::lemma_tokens(t.children(), SyntaxKind::FLOW_MAPPING_ENTRY);
    gathering::lemma_dict(SyntaxKind::FLOW_MAPPING, t.children(), seq![]);
}

/// What is made of the space before a value on the same line.
pub open spec fn space_token(s: Seq<u8>, p: int) -> Parsed {
    grammar::token(s, p, SyntaxKind::WHITESPACE, 1)
}

/// The space before a value, and what stands behind it.
pub(crate) proof fn lemma_value_head(s: Seq<u8>, p: int)
    requires
        0 <= p,
        p + 1 < s.len(),
        s[p] == 0x20,
        standing::solid(s[p + 1]),
        grammar::inline_trivia(s, p + 1) == grammar::none(),
        !grammar::property_at(s, p + 1),
    ensures
        grammar::value_head(s, p) == space_token(s, p),
        !grammar::value_is_alias(s, p),
{
    reveal(grammar::value_head);
    reveal(grammar::value_is_alias);
    reveal(grammar::inline_trivia);
    reveal(grammar::simple);
    reveal(lexer::hint_of);
    assert(standing::blank_between(s, p, p + 1));
    standing::lemma_run(s, p, p + 1);
    lemma_behind_none(space_token(s, p));
}

/// Where nothing stands on the line, there is nothing before the value.
proof fn lemma_no_head(s: Seq<u8>, p: int)
    requires
        standing::feed_at(s, p),
    ensures
        grammar::value_head(s, p) == grammar::none(),
        !grammar::value_is_alias(s, p),
{
    reveal(grammar::value_head);
    reveal(grammar::value_is_alias);
    standing::lemma_break(s, p);
}

/// What is made of a value on one line.
pub open spec fn leaf_parsed(s: Seq<u8>, p: int, m: YamlModel) -> Parsed {
    match m {
        YamlModel::List(_) => grammar::flow_sequence(s, p),
        YamlModel::Dict(_) => grammar::flow_mapping(s, p),
        _ => emitting::scalar_parsed(layout::leaf_text(m)),
    }
}

/// A value on the line of its entry, part by part.
#[verifier::spinoff_prover]
#[verifier::rlimit(100)]
proof fn lemma_leaf_parts(s: Seq<u8>, p: int, m: YamlModel, n: int)
    requires
        is_tame(m),
        !layout::is_tall(m),
        0 <= n <= usize::MAX,
        standing::stands(s, p, seq![' '] + layout::leaf_text(m)),
        standing::ends_before(s, p + 1 + standing::size(layout::leaf_text(m)), n + 1),
    ensures
        0 <= p < s.len(),
        s[p] == 0x20,
        standing::size(seq![' '] + layout::leaf_text(m)) == 1 + standing::size(
            layout::leaf_text(m),
        ),
        gathering::yields(
            leaf_parsed(s, p + 1, m),
            standing::size(layout::leaf_text(m)),
            m,
        ),
        leaf_parsed(s, p + 1, m).elems == seq![shapes::leaf_tree(m)],
        grammar::entry_value(s, p, n) == grammar::cat(
            space_token(s, p),
            leaf_parsed(s, p + 1, m),
        ),
        grammar::sequence_entry_rest(s, p, n) == grammar::cat(
            space_token(s, p),
            leaf_parsed(s, p + 1, m),
        ),
{
    let w = layout::leaf_text(m);
    let e = p + 1 + standing::size(w);
    standing::lemma_first(s, p, ' ', w);
    standing::lemma_ends(s, e, n + 1);
    standing::lemma_break(s, e);
    let a = space_token(s, p);
    let r = leaf_parsed(s, p + 1, m);
    if m is List {
        assert(m->List_0 =~= seq![]);
        lemma_empty_list(s, p + 1);
        lemma_value_head(s, p);
    } else if m is Dict {
        assert(m->Dict_0 =~= seq![]);
        lemma_empty_dict(s, p + 1);
        lemma_value_head(s, p);
    } else {
        leaves::lemma_leaf(m);
        emitting::lemma_scalar_hint(s, p + 1, w);
        lemma_value_head(s, p);
        emitting::lemma_value_scalar(s, p + 1, w, lexer::column_of(s, p + 1), n as usize);
        lemma_scalar_yields(m);
        assert(grammar::entry_content(s, p + 1, n) == r);
        assert(grammar::sequence_entry_value(s, p + 1, n) == r);
    }
    lemma_behind_none(grammar::cat(a, r));
}

/// A value on the line of its entry.
proof fn lemma_leaf_value(s: Seq<u8>, p: int, m: YamlModel, n: int)
    requires
        is_tame(m),
        !layout::is_tall(m),
        0 <= n <= usize::MAX,
        standing::stands(s, p, seq![' '] + layout::leaf_text(m)),
        standing::ends_before(s, p + 1 + standing::size(layout::leaf_text(m)), n + 1),
    ensures
        standing::size(seq![' '] + layout::leaf_text(m)) == 1 + standing::size(
            layout::leaf_text(m),
        ),
        gathering::yields(
            grammar::entry_value(s, p, n),
            1 + standing::size(layout::leaf_text(m)),
            m,
        ),
        gathering::yields(
            grammar::sequence_entry_rest(s, p, n),
            1 + standing::size(layout::leaf_text(m)),
            m,
        ),
        grammar::entry_value(s, p, n).elems == shapes::leaf_elems(m),
        grammar::sequence_entry_rest(s, p, n).elems == shapes::leaf_elems(m),
{
    lemma_leaf_parts(s, p, m, n);
    shapes::lemma_token(s, p, SyntaxKind::WHITESPACE, ' ');
    lemma_behind_one(
        space_token(s, p),
        leaf_parsed(s, p + 1, m),
        standing::size(layout::leaf_text(m)),
        m,
        shapes::gap(),
        shapes::leaf_tree(m),
    );
}

// ---- Marks ----

/// Where content indented by less than `n` may follow, so may content indented by
/// less than more.
proof fn lemma_ends_more(s: Seq<u8>, e: int, n: int, k: int)
    requires
        standing::ends_before(s, e, n),
        n <= k,
    ensures
        standing::ends_before(s, e, k),
{
    if !standing::last_line(s, e) {
        let j = choose|j: int| j < n && #[trigger] standing::line_below(s, e, j);
        assert(j < k && standing::line_below(s, e, j));
    }
}

/// What stands behind a mark is a space or a line feed.
proof fn lemma_gap(l: Layout, s: Seq<u8>, p: int, m: YamlModel, n: int)
    requires
        standing::stands(s, p, layout::child_body(l, m, n)) || standing::stands(
            s,
            p,
            layout::item_body(l, m, n),
        ),
    ensures
        0 <= p < s.len(),
        s[p] == 0x20 || s[p] == 0x0a,
{
    let c = layout::column_below(l, m, n);
    let near = text::spaces(c) + layout::body(l, m, c);
    let far = text::spaces(n + l.step) + layout::body(l, m, n + l.step);
    if standing::stands(s, p, seq!['\n'] + near) {
        standing::lemma_first(s, p, '\n', near);
    }
    if standing::stands(s, p, seq!['\n'] + far) {
        standing::lemma_first(s, p, '\n', far);
    }
    if standing::stands(s, p, seq![' '] + layout::leaf_text(m)) {
        standing::lemma_first(s, p, ' ', layout::leaf_text(m));
    }
    if m is List {
        let b = layout::items_body(l, m->List_0, 0, n + 2);
        if standing::stands(s, p, seq![' '] + b) {
            standing::lemma_first(s, p, ' ', b);
        }
    }
    if m is Dict {
        let b = layout::pairs_body(l, m->Dict_0, 0, n + 2);
        if standing::stands(s, p, seq![' '] + b) {
            standing::lemma_first(s, p, ' ', b);
        }
    }
}

/// A key and its colon.
pub proof fn lemma_key(l: Layout, s: Seq<u8>, p: int, x: Seq<char>, m: YamlModel, n: int, more: Seq<char>)
    requires
        standing::stands(
            s,
            p,
            builder::string_text(x) + (seq![':'] + (layout::child_body(l, m, n) + more)),
        ),
    ensures
        ({
            let w = builder::string_text(x);
            let q = p + standing::size(w);
            let c = layout::child_body(l, m, n);
            &&& 0 <= p < s.len()
            &&& emitting::is_scalar_text(w)
            &&& standing::stands(s, p, w)
            &&& lexer::block_colon(s, q)
            &&& lexer::byte_is(s, q, 0x3a)
            &&& grammar::inline_trivia(s, q) == grammar::none()
            &&& standing::stands(s, q + 1, c)
            &&& standing::stands(s, q + 1 + standing::size(c), more)
            &&& standing::size(w + (seq![':'] + (c + more))) == standing::size(w) + 1
                + standing::size(c) + standing::size(more)
            &&& standing::solid(s[p])
            &&& grammar::scalar_at(s, p)
            &&& !grammar::property_at(s, p)
            &&& !grammar::dash_at(s, p)
            &&& grammar::inline_trivia(s, p) == grammar::none()
            &&& grammar::leading_whitespace(s, p) == grammar::none()
        }),
{
    let w = builder::string_text(x);
    let q = p + standing::size(w);
    let c = layout::child_body(l, m, n);
    leaves::lemma_text(x);
    standing::lemma_parts(s, p, w, seq![':'] + (c + more));
    standing::lemma_first(s, q, ':', c + more);
    standing::lemma_parts(s, q + 1, c, more);
    lemma_gap(l, s, q + 1, m, n);
    emitting::lemma_scalar_hint(s, p, w);
    reveal(grammar::inline_trivia);
    lexer::lemma_colon_hint(s, q);
    lemma_no_dash(s, p);
}

/// Where a scalar stands there is no dash.
proof fn lemma_no_dash(s: Seq<u8>, p: int)
    requires
        grammar::scalar_at(s, p),
    ensures
        !grammar::dash_at(s, p),
{
    reveal(lexer::hint_of);
}

/// A dash.
proof fn lemma_dash(l: Layout, s: Seq<u8>, p: int, m: YamlModel, n: int, more: Seq<char>)
    requires
        standing::stands(s, p, seq!['-'] + (layout::item_body(l, m, n) + more)),
    ensures
        ({
            let c = layout::item_body(l, m, n);
            &&& 0 <= p < s.len()
            &&& s[p] == 0x2d
            &&& standing::solid(s[p])
            &&& grammar::at(s, p, SyntaxKind::DASH)
            &&& grammar::dash_at(s, p)
            &&& standing::stands(s, p + 1, c)
            &&& standing::stands(s, p + 1 + standing::size(c), more)
            &&& standing::size(seq!['-'] + (c + more)) == 1 + standing::size(c) + standing::size(
                more,
            )
            &&& !grammar::start_marker(s, p)
            &&& !grammar::end_marker(s, p)
        }),
{
    let c = layout::item_body(l, m, n);
    standing::lemma_first(s, p, '-', c + more);
    standing::lemma_parts(s, p + 1, c, more);
    lemma_gap(l, s, p + 1, m, n);
    reveal(lexer::hint_of);
    reveal(grammar::line_marker);
}

/// A scalar is no document marker.
pub proof fn lemma_unmarked(s: Seq<u8>, p: int, w: Seq<char>)
    requires
        standing::stands(s, p, w),
        emitting::is_scalar_text(w),
        standing::feed_at(s, p + standing::size(w)) || lexer::byte_is(
            s,
            p + standing::size(w),
            0x3a,
        ),
    ensures
        !grammar::any_marker(s, p),
{
    reveal(grammar::line_marker);
    emitting::lemma_marker_bytes(s, p, w);
}

// ---- Collections ----

/// Whether all items are read back.
pub open spec fn tame_items(items: Seq<YamlModel>) -> bool {
    forall|i: int| 0 <= i < items.len() ==> is_tame(#[trigger] items[i])
}

/// Whether all keys and values are read back.
pub open spec fn tame_pairs(pairs: Seq<layout::Pair>) -> bool {
    forall|i: int|
        0 <= i < pairs.len() ==> is_tame((#[trigger] pairs[i]).1)
}

/// Where a collection at `n` ends, so does one at more.
proof fn lemma_closed_more(s: Seq<u8>, e: int, n: int, k: int)
    requires
        standing::closed(s, e, n),
        n <= k,
        k > 0,
    ensures
        standing::ends_before(s, e, k),
{
    if standing::marker_below(s, e) {
        standing::lemma_marker_below(s, e);
    } else {
        lemma_ends_more(s, e, n, k);
    }
}

/// Whether what follows at the column `n` below the line break at `e` is no item.
pub open spec fn no_item_below(s: Seq<u8>, e: int, n: int) -> bool {
    standing::line_below(s, e, n) ==> !grammar::dash_at(s, e + 1 + n)
}

/// Whether a sequence at `n` ends at `e`: as any collection does, or before content
/// that is indented like it and is no item.
pub open spec fn list_closed(s: Seq<u8>, e: int, n: int) -> bool {
    standing::closed(s, e, n) || (standing::line_below(s, e, n) && !grammar::dash_at(s, e + 1 + n))
}

/// Where a collection ends, no item follows at its column.
proof fn lemma_closed_no_item(s: Seq<u8>, e: int, n: int)
    requires
        standing::closed(s, e, n),
        n >= 0,
    ensures
        no_item_below(s, e, n),
{
    if standing::line_below(s, e, n) {
        if standing::marker_below(s, e) {
            standing::lemma_marker_below(s, e);
            if n > 0 {
                assert(s[e + 1] == 0x20);
            }
        } else {
            standing::lemma_ends(s, e, n);
            standing::lemma_below(s, e, n);
        }
    }
}

/// What a mapping at `n` that ends at `e` holds besides its entries: before the
/// next document, the line break.
pub open spec fn swallowed(s: Seq<u8>, e: int, n: int) -> int {
    if n == 0 && standing::marker_below(s, e) {
        1
    } else {
        0
    }
}

/// What a collection at `n` that ends at `e` holds besides its entries.
pub open spec fn extra(s: Seq<u8>, e: int, n: int, m: YamlModel) -> int {
    if m is Dict && layout::is_tall(m) {
        swallowed(s, e, n)
    } else {
        0
    }
}

/// Behind the last entry of a mapping.
proof fn lemma_mapping_ends(s: Seq<u8>, e: int, n: int)
    requires
        standing::closed(s, e, n),
        n >= 0,
    ensures
        grammar::mapping_tail(s, e, n).fault is None,
        grammar::mapping_tail(s, e, n).len == swallowed(s, e, n),
        gathering::all_tokens(grammar::mapping_tail(s, e, n).elems),
        gathering::pairs_are(
            grammar::mapping_tail(s, e, n).elems,
            SyntaxKind::BLOCK_MAPPING_ENTRY,
            seq![],
        ),
        swallowed(s, e, n) == 0 ==> grammar::mapping_tail(s, e, n).elems == Seq::<Tree>::empty(),
{
    if standing::marker_below(s, e) {
        standing::lemma_marker_below(s, e);
    } else {
        standing::lemma_ends(s, e, n);
    }
    gathering::lemma_tokens(
        grammar::mapping_tail(s, e, n).elems,
        SyntaxKind::BLOCK_MAPPING_ENTRY,
    );
}

/// Behind the last entry of a sequence.
proof fn lemma_sequence_ends(s: Seq<u8>, e: int, n: int)
    requires
        list_closed(s, e, n),
        n >= 0,
    ensures
        grammar::sequence_tail(s, e, n) == grammar::none(),
{
    if standing::marker_below(s, e) {
        standing::lemma_marker_below(s, e);
    } else if standing::ends_before(s, e, n) {
        standing::lemma_ends(s, e, n);
    } else {
        standing::lemma_below(s, e, n);
    }
}

/// What follows an item: another below it, or the end of the sequence.
#[verifier::spinoff_prover]
#[verifier::rlimit(100)]
proof fn lemma_items_rest(l: Layout, s: Seq<u8>, e: int, items: Seq<YamlModel>, i: int, n: int)
    requires
        0 <= i <= items.len(),
        n >= 0,
        standing::stands(s, e, layout::items_rest(l, items, i, n)),
        list_closed(s, e + standing::size(layout::items_rest(l, items, i, n)), n),
    ensures
        standing::ends_before(s, e, n + 1),
        i == items.len() ==> list_closed(s, e, n) && standing::size(
            layout::items_rest(l, items, i, n),
        ) == 0,
        i < items.len() ==> standing::line_below(s, e, n) && standing::stands(
            s,
            e + 1 + n,
            layout::items_body(l, items, i, n),
        ) && standing::size(layout::items_rest(l, items, i, n)) == 1 + n + standing::size(
            layout::items_body(l, items, i, n),
        ),
{
    if i < items.len() {
        let b = layout::items_body(l, items, i, n);
        standing::lemma_first(s, e, '\n', text::spaces(n) + b);
        standing::lemma_spaces(s, e + 1, n, b);
        lemma_dash(l, s, e + 1 + n, items[i], n, layout::items_rest(l, items, i + 1, n));
        assert(standing::line_below(s, e, n));
    } else {
        assert(standing::size(Seq::<char>::empty()) == 0);
        if standing::closed(s, e, n) {
            lemma_closed_more(s, e, n, n + 1);
        }
    }
}

/// What follows a pair: another below it, or the end of the mapping.
#[verifier::spinoff_prover]
#[verifier::rlimit(100)]
proof fn lemma_pairs_rest(l: Layout, s: Seq<u8>, e: int, pairs: Seq<layout::Pair>, i: int, n: int)
    requires
        0 <= i <= pairs.len(),
        n >= 0,
        tame_pairs(pairs),
        standing::stands(s, e, layout::pairs_rest(l, pairs, i, n)),
        standing::closed(s, e + standing::size(layout::pairs_rest(l, pairs, i, n)), n),
    ensures
        standing::ends_before(s, e, n + 1),
        no_item_below(s, e, n),
        i == pairs.len() ==> standing::closed(s, e, n) && standing::size(
            layout::pairs_rest(l, pairs, i, n),
        ) == 0,
        i < pairs.len() ==> standing::line_below(s, e, n) && standing::stands(
            s,
            e + 1 + n,
            layout::pairs_body(l, pairs, i, n),
        ) && standing::size(layout::pairs_rest(l, pairs, i, n)) == 1 + n + standing::size(
            layout::pairs_body(l, pairs, i, n),
        ),
{
    if i < pairs.len() {
        let b = layout::pairs_body(l, pairs, i, n);
        standing::lemma_first(s, e, '\n', text::spaces(n) + b);
        standing::lemma_spaces(s, e + 1, n, b);
        lemma_key(
            l,
            s,
            e + 1 + n,
            pairs[i].0,
            pairs[i].1,
            n,
            layout::pairs_rest(l, pairs, i + 1, n),
        );
        assert(standing::line_below(s, e, n));
    } else {
        assert(standing::size(Seq::<char>::empty()) == 0);
        lemma_closed_more(s, e, n, n + 1);
        lemma_closed_no_item(s, e, n);
    }
}

/// The column behind a byte that is no line break.
proof fn lemma_column_step(s: Seq<u8>, p: int)
    requires
        0 <= p < s.len(),
        !lexer::is_break(s[p]),
    ensures
        lexer::column_of(s, p + 1) == lexer::column_of(s, p) + 1,
{
    reveal(lexer::column_of);
}

/// A collection below the line of its mark.
#[verifier::spinoff_prover]
#[verifier::rlimit(100)]
proof fn lemma_below_value(l: Layout, s: Seq<u8>, p: int, m: YamlModel, n: int, indent: int)
    requires
        layout::is_sound(l),
        layout::is_tall(m),
        is_tame(m),
        0 <= indent < n,
        n + layout::reach(l, (builder::depth(m) - 1) as nat) <= usize::MAX,
        standing::stands(s, p, layout::block_below(l, m, n)),
        standing::ends_before(s, p + standing::size(layout::block_below(l, m, n)), indent + 1),
    ensures
        gathering::yields(
            grammar::entry_value(s, p, indent),
            standing::size(layout::block_below(l, m, n)),
            m,
        ),
        m is List ==> gathering::yields(
            grammar::sequence_entry_rest(s, p, indent),
            standing::size(layout::block_below(l, m, n)),
            m,
        ),
        grammar::entry_value(s, p, indent).elems == shapes::below_elems(l, m, n),
        m is List ==> grammar::sequence_entry_rest(s, p, indent).elems == shapes::below_elems(
            l,
            m,
            n,
        ),
    decreases m, 4nat, 0int,
{
    let b = layout::body(l, m, n);
    let e = p + standing::size(layout::block_below(l, m, n));
    standing::lemma_first(s, p, '\n', text::spaces(n) + b);
    standing::lemma_spaces(s, p + 1, n, b);
    lemma_ends_more(s, e, indent + 1, n);
    standing::lemma_ends(s, e, indent + 1);
    standing::lemma_break(s, e);
    layout::lemma_reach(l, (builder::depth(m) - 1) as nat, 0);
    lemma_block(l, s, p + 1, m, n, indent as usize);
    lemma_block(l, s, p + 1, m, n, n as usize);
    lemma_body_start(l, s, p + 1 + n, m, n);
    assert(standing::line_below(s, p, n));
    standing::lemma_below(s, p, n);
    standing::lemma_break(s, p);
    lemma_no_head(s, p);
    let t = standing::break_token(s, p);
    assert(gathering::all_tokens(t.elems));
    let len = n + standing::size(b);
    shapes::lemma_token(s, p, SyntaxKind::NEWLINE, '\n');
    assert(t.elems + seq![shapes::block_tree(l, m, n, n)] =~= shapes::below_elems(l, m, n));
    let r1 = grammar::block_node(s, p + 1, n, indent as usize);
    let r2 = grammar::block_node(s, p + 1, n, n as usize);
    lemma_behind_token(t, r1, len, m);
    lemma_behind_token(t, r2, len, m);
    assert(grammar::entry_content(s, p, indent) == grammar::cat(t, r1));
    lemma_behind_none(grammar::cat(t, r1));
    assert(grammar::sequence_entry_value(s, p, indent) == grammar::cat(t, r2));
    lemma_behind_none(grammar::cat(t, r2));
}

/// Items below the line of a key, at the column of the key.
#[verifier::spinoff_prover]
#[verifier::rlimit(100)]
proof fn lemma_flush_parts(s: Seq<u8>, p: int, n: int)
    requires
        standing::line_below(s, p, n),
        grammar::dash_at(s, p + 1 + n),
    ensures
        grammar::entry_value(s, p, n) == grammar::cat(
            standing::break_token(s, p),
            grammar::block_sequence(s, p + 1, n),
        ),
{
    standing::lemma_below(s, p, n);
    standing::lemma_break(s, p);
    lemma_no_head(s, p);
    let r = grammar::cat(standing::break_token(s, p), grammar::block_sequence(s, p + 1, n));
    assert(grammar::entry_content(s, p, n) == r);
    lemma_behind_none(r);
}

/// A list below the line of its key, at the column of the key.
#[verifier::spinoff_prover]
#[verifier::rlimit(100)]
proof fn lemma_flush_value(l: Layout, s: Seq<u8>, p: int, items: Seq<YamlModel>, n: int)
    requires
        layout::is_sound(l),
        items.len() > 0,
        tame_items(items),
        0 <= n,
        n + layout::reach(l, builder::list_depth(items)) <= usize::MAX,
        standing::stands(s, p, layout::block_below(l, YamlModel::List(items), n)),
        standing::ends_before(
            s,
            p + standing::size(layout::block_below(l, YamlModel::List(items), n)),
            n + 1,
        ),
        no_item_below(
            s,
            p + standing::size(layout::block_below(l, YamlModel::List(items), n)),
            n,
        ),
    ensures
        gathering::yields(
            grammar::entry_value(s, p, n),
            standing::size(layout::block_below(l, YamlModel::List(items), n)),
            YamlModel::List(items),
        ),
        grammar::entry_value(s, p, n).elems == shapes::below_elems(l, YamlModel::List(items), n),
    decreases items, 3nat, 0int,
{
    let m = YamlModel::List(items);
    let b = layout::items_body(l, items, 0, n);
    let e = p + standing::size(layout::block_below(l, m, n));
    standing::lemma_first(s, p, '\n', text::spaces(n) + b);
    standing::lemma_spaces(s, p + 1, n, b);
    standing::lemma_ends(s, e, n + 1);
    standing::lemma_break(s, e);
    lemma_dash(l, s, p + 1 + n, items[0], n, layout::items_rest(l, items, 1, n));
    assert(standing::line_below(s, p, n));
    lemma_flush_parts(s, p, n);
    assert(list_closed(s, e, n)) by {
        if !standing::last_line(s, e) {
            let k = choose|k: int| k < n + 1 && #[trigger] standing::line_below(s, e, k);
            if k < n {
                assert(standing::ends_before(s, e, n));
            }
        }
    }
    standing::lemma_below(s, p, n);
    lemma_sequence_line(l, s, p + 1, items, n);
    shapes::lemma_token(s, p, SyntaxKind::NEWLINE, '\n');
    lemma_behind_one(
        standing::break_token(s, p),
        grammar::block_sequence(s, p + 1, n),
        n + standing::size(b),
        m,
        shapes::feed(),
        shapes::block_tree(l, m, n, n),
    );
}

/// The value of an entry of a mapping at `indent`, whose lines are indented as if
/// the mapping stood at `n`.
#[verifier::spinoff_prover]
#[verifier::rlimit(100)]
pub proof fn lemma_value(l: Layout, s: Seq<u8>, p: int, m: YamlModel, n: int, indent: int)
    requires
        layout::is_sound(l),
        is_tame(m),
        0 <= indent <= n,
        n + layout::reach(l, builder::depth(m)) <= usize::MAX,
        standing::stands(s, p, layout::child_body(l, m, n)),
        standing::ends_before(s, p + standing::size(layout::child_body(l, m, n)), indent + 1),
        l.flush ==> indent == n && no_item_below(
            s,
            p + standing::size(layout::child_body(l, m, n)),
            n,
        ),
    ensures
        gathering::yields(
            grammar::entry_value(s, p, indent),
            standing::size(layout::child_body(l, m, n)),
            m,
        ),
        grammar::entry_value(s, p, indent).elems == shapes::child_elems(l, m, n),
    decreases m, 5nat, 0int,
{
    if layout::is_tall(m) {
        let d = (builder::depth(m) - 1) as nat;
        layout::lemma_reach(l, d, d);
        if l.flush && m is List {
            lemma_flush_value(l, s, p, m->List_0, n);
        } else {
            lemma_below_value(l, s, p, m, n + l.step, indent);
        }
    } else {
        standing::lemma_first(s, p, ' ', layout::leaf_text(m));
        lemma_leaf_value(s, p, m, indent);
    }
}

/// The value of a sequence entry.
#[verifier::spinoff_prover]
#[verifier::rlimit(100)]
proof fn lemma_item_value(l: Layout, s: Seq<u8>, p: int, m: YamlModel, n: int)
    requires
        layout::is_sound(l),
        is_tame(m),
        n >= 0,
        n + layout::reach(l, builder::depth(m)) <= usize::MAX,
        lexer::column_of(s, p) == n + 1,
        untabbed(s, p),
        standing::stands(s, p, layout::item_body(l, m, n)),
        standing::ends_before(s, p + standing::size(layout::item_body(l, m, n)), n + 1),
    ensures
        gathering::yields(
            grammar::sequence_entry_rest(s, p, n),
            standing::size(layout::item_body(l, m, n)),
            m,
        ),
        grammar::sequence_entry_rest(s, p, n).elems == shapes::item_elems(l, m, n),
    decreases m, 5nat, 0int,
{
    if !layout::is_tall(m) {
        standing::lemma_first(s, p, ' ', layout::leaf_text(m));
        lemma_leaf_value(s, p, m, n);
    } else if m is List {
        let d = (builder::depth(m) - 1) as nat;
        layout::lemma_reach(l, d, d);
        if l.inline {
            lemma_beside_list(l, s, p, m->List_0, n);
            reveal(behind_dash);
        } else {
            lemma_below_value(l, s, p, m, n + l.step, n);
        }
    } else {
        let d = (builder::depth(m) - 1) as nat;
        layout::lemma_reach(l, d, d);
        lemma_beside_value(l, s, p, m->Dict_0, n);
        reveal(behind_dash);
    }
}

/// What is made of what stands behind a dash at `n`.
#[verifier::opaque]
pub open spec fn behind_dash(s: Seq<u8>, p: int, n: int) -> Parsed {
    grammar::sequence_entry_rest(s, p, n)
}

/// What is made of a mapping or scalar beside a dash at `n`.
#[verifier::opaque]
pub open spec fn beside_dash(s: Seq<u8>, p: int, n: int) -> Parsed {
    grammar::block_mapping_or_scalar(s, p, n + 2, n as usize)
}

/// What stands beside a dash, part by part.
#[verifier::spinoff_prover]
#[verifier::rlimit(100)]
proof fn lemma_beside_direct(s: Seq<u8>, p: int, n: int)
    requires
        0 <= p,
        p + 1 < s.len(),
        s[p] == 0x20,
        standing::solid(s[p + 1]),
        grammar::inline_trivia(s, p + 1) == grammar::none(),
        !grammar::property_at(s, p + 1),
        grammar::scalar_at(s, p + 1),
        lexer::column_of(s, p) == n + 1,
        ({
            let r = grammar::block_mapping_or_scalar(s, p + 1, n + 2, n as usize);
            &&& r.fault is None
            &&& standing::feed_at(s, p + 1 + r.len)
        }),
    ensures
        grammar::sequence_entry_rest(s, p, n) == grammar::cat(
            space_token(s, p),
            grammar::block_mapping_or_scalar(s, p + 1, n + 2, n as usize),
        ),
{
    let r = grammar::block_mapping_or_scalar(s, p + 1, n + 2, n as usize);
    lemma_column_step(s, p);
    lemma_value_head(s, p);
    standing::lemma_break(s, p + 1 + r.len);
    assert(grammar::sequence_entry_value(s, p + 1, n) == r);
    lemma_behind_none(grammar::cat(space_token(s, p), r));
}

/// What stands behind a dash is a space and what stands beside it.
#[verifier::spinoff_prover]
#[verifier::rlimit(100)]
proof fn lemma_beside_parts(s: Seq<u8>, p: int, n: int)
    requires
        0 <= p,
        p + 1 < s.len(),
        s[p] == 0x20,
        standing::solid(s[p + 1]),
        grammar::inline_trivia(s, p + 1) == grammar::none(),
        !grammar::property_at(s, p + 1),
        grammar::scalar_at(s, p + 1),
        lexer::column_of(s, p) == n + 1,
        beside_dash(s, p + 1, n).fault is None,
        standing::feed_at(s, p + 1 + beside_dash(s, p + 1, n).len),
    ensures
        behind_dash(s, p, n) == grammar::cat(space_token(s, p), beside_dash(s, p + 1, n)),
{
    assert(beside_dash(s, p + 1, n) == grammar::block_mapping_or_scalar(
        s,
        p + 1,
        n + 2,
        n as usize,
    )) by {
        reveal(beside_dash);
    }
    assert(behind_dash(s, p, n) == grammar::sequence_entry_rest(s, p, n)) by {
        reveal(behind_dash);
    }
    lemma_beside_direct(s, p, n);
}

/// What stands beside a dash, behind the space.
#[verifier::spinoff_prover]
#[verifier::rlimit(100)]
proof fn lemma_beside_join(s: Seq<u8>, p: int, n: int, len: int, m: YamlModel, y: Tree)
    requires
        0 <= p,
        p + 1 < s.len(),
        s[p] == 0x20,
        standing::solid(s[p + 1]),
        grammar::inline_trivia(s, p + 1) == grammar::none(),
        !grammar::property_at(s, p + 1),
        grammar::scalar_at(s, p + 1),
        lexer::column_of(s, p) == n + 1,
        gathering::yields(
            beside_dash(s, p + 1, n),
            len,
            m,
        ),
        beside_dash(s, p + 1, n).elems == seq![y],
        standing::feed_at(s, p + 1 + len),
    ensures
        gathering::yields(behind_dash(s, p, n), 1 + len, m),
        behind_dash(s, p, n).elems == seq![shapes::gap(), y],
{
    lemma_beside_parts(s, p, n);
    shapes::lemma_token(s, p, SyntaxKind::WHITESPACE, ' ');
    lemma_behind_one(
        space_token(s, p),
        beside_dash(s, p + 1, n),
        len,
        m,
        shapes::gap(),
        y,
    );
}

/// A mapping that begins in the middle of a line.
#[verifier::spinoff_prover]
#[verifier::rlimit(100)]
proof fn lemma_beside_mapping(l: Layout, s: Seq<u8>, a: int, pairs: Seq<layout::Pair>, n: int)
    requires
        layout::is_sound(l),
        pairs.len() > 0,
        tame_pairs(pairs),
        n >= 0,
        n + 2 + layout::reach(l, builder::dict_depth(pairs)) <= usize::MAX,
        standing::stands(s, a, layout::pairs_body(l, pairs, 0, n + 2)),
        standing::ends_before(
            s,
            a + standing::size(layout::pairs_body(l, pairs, 0, n + 2)),
            n + 1,
        ),
    ensures
        0 <= a < s.len(),
        standing::solid(s[a]),
        grammar::inline_trivia(s, a) == grammar::none(),
        !grammar::property_at(s, a),
        grammar::scalar_at(s, a),
        standing::feed_at(s, a + standing::size(layout::pairs_body(l, pairs, 0, n + 2))),
        gathering::yields(
            beside_dash(s, a, n),
            standing::size(layout::pairs_body(l, pairs, 0, n + 2)),
            YamlModel::Dict(pairs),
        ),
        beside_dash(s, a, n).elems == seq![
            shapes::block_tree(l, YamlModel::Dict(pairs), n + 2, 0),
        ],
    decreases pairs, 3nat, 0int,
{
    let b = layout::pairs_body(l, pairs, 0, n + 2);
    reveal(beside_dash);
    let rest = layout::pairs_rest(l, pairs, 1, n + 2);
    let w = builder::string_text(pairs[0].0);
    let e = a + standing::size(b);
    lemma_key(l, s, a, pairs[0].0, pairs[0].1, n + 2, rest);
    emitting::lemma_first_key(s, a, a, w, n + 2, n as usize);
    lemma_ends_more(s, e, n + 1, n + 2);
    standing::lemma_ends(s, e, n + 1);
    lemma_mapping(l, s, a, 0, pairs, n + 2);
}

/// A mapping beside its dash.
#[verifier::spinoff_prover]
#[verifier::rlimit(80)]
proof fn lemma_beside_value(l: Layout, s: Seq<u8>, p: int, pairs: Seq<layout::Pair>, n: int)
    requires
        layout::is_sound(l),
        pairs.len() > 0,
        tame_pairs(pairs),
        n >= 0,
        n + 2 + layout::reach(l, builder::dict_depth(pairs)) <= usize::MAX,
        lexer::column_of(s, p) == n + 1,
        standing::stands(s, p, seq![' '] + layout::pairs_body(l, pairs, 0, n + 2)),
        standing::ends_before(
            s,
            p + standing::size(seq![' '] + layout::pairs_body(l, pairs, 0, n + 2)),
            n + 1,
        ),
    ensures
        gathering::yields(
            behind_dash(s, p, n),
            standing::size(seq![' '] + layout::pairs_body(l, pairs, 0, n + 2)),
            YamlModel::Dict(pairs),
        ),
        behind_dash(s, p, n).elems == seq![
            shapes::gap(),
            shapes::block_tree(l, YamlModel::Dict(pairs), n + 2, 0),
        ],
    decreases pairs, 3nat, 1int,
{
    let m = YamlModel::Dict(pairs);
    let b = layout::pairs_body(l, pairs, 0, n + 2);
    standing::lemma_first(s, p, ' ', b);
    lemma_beside_mapping(l, s, p + 1, pairs, n);
    lemma_beside_join(s, p, n, standing::size(b), m, shapes::block_tree(l, m, n + 2, 0));
}

/// What stands behind a dash, where that is a space and a dash.
#[verifier::spinoff_prover]
#[verifier::rlimit(100)]
proof fn lemma_dashes_direct(s: Seq<u8>, p: int, n: int)
    requires
        0 <= p,
        p + 1 < s.len(),
        s[p] == 0x20,
        grammar::dash_at(s, p + 1),
        lexer::column_of(s, p) == n + 1,
        grammar::block_sequence(s, p + 1, n + 2).fault is None,
        standing::feed_at(s, p + 1 + grammar::block_sequence(s, p + 1, n + 2).len),
    ensures
        grammar::sequence_entry_rest(s, p, n) == grammar::cat(
            space_token(s, p),
            grammar::block_sequence(s, p + 1, n + 2),
        ),
{
    let r = grammar::block_sequence(s, p + 1, n + 2);
    lemma_column_step(s, p);
    reveal(lexer::hint_of);
    reveal(grammar::inline_trivia);
    assert(grammar::inline_trivia(s, p + 1) == grammar::none());
    lemma_value_head(s, p);
    standing::lemma_break(s, p + 1 + r.len);
    assert(grammar::sequence_entry_value(s, p + 1, n) == r);
    lemma_behind_none(grammar::cat(space_token(s, p), r));
}

/// A list beside the dash of its item.
#[verifier::spinoff_prover]
#[verifier::rlimit(100)]
proof fn lemma_beside_list(l: Layout, s: Seq<u8>, p: int, items: Seq<YamlModel>, n: int)
    requires
        layout::is_sound(l),
        items.len() > 0,
        tame_items(items),
        n >= 0,
        n + 2 + layout::reach(l, builder::list_depth(items)) <= usize::MAX,
        lexer::column_of(s, p) == n + 1,
        untabbed(s, p),
        standing::stands(s, p, seq![' '] + layout::items_body(l, items, 0, n + 2)),
        standing::ends_before(
            s,
            p + standing::size(seq![' '] + layout::items_body(l, items, 0, n + 2)),
            n + 1,
        ),
    ensures
        gathering::yields(
            behind_dash(s, p, n),
            standing::size(seq![' '] + layout::items_body(l, items, 0, n + 2)),
            YamlModel::List(items),
        ),
        behind_dash(s, p, n).elems == seq![
            shapes::gap(),
            shapes::block_tree(l, YamlModel::List(items), n + 2, 0),
        ],
    decreases items, 3nat, 0int,
{
    let m = YamlModel::List(items);
    let b = layout::items_body(l, items, 0, n + 2);
    let e = p + 1 + standing::size(b);
    standing::lemma_first(s, p, ' ', b);
    lemma_dash(l, s, p + 1, items[0], n + 2, layout::items_rest(l, items, 1, n + 2));
    lemma_place_beside(s, p, n);
    lemma_ends_more(s, e, n + 1, n + 2);
    standing::lemma_ends(s, e, n + 1);
    lemma_sequence(l, s, p + 1, 0, items, n + 2);
    assert(list_beside(s, p + 1, n) == grammar::block_sequence(s, p + 1, n + 2)) by {
        reveal(list_beside);
    }
    lemma_dashes_join(s, p, n, standing::size(b), m, shapes::block_tree(l, m, n + 2, 0));
}

/// What is made of a list beside a dash at `n`.
#[verifier::opaque]
pub open spec fn list_beside(s: Seq<u8>, p: int, n: int) -> Parsed {
    grammar::block_sequence(s, p, n + 2)
}

/// A space and a list behind a dash.
#[verifier::spinoff_prover]
#[verifier::rlimit(100)]
proof fn lemma_dashes_parts(s: Seq<u8>, p: int, n: int)
    requires
        0 <= p,
        p + 1 < s.len(),
        s[p] == 0x20,
        grammar::dash_at(s, p + 1),
        lexer::column_of(s, p) == n + 1,
        list_beside(s, p + 1, n).fault is None,
        standing::feed_at(s, p + 1 + list_beside(s, p + 1, n).len),
    ensures
        behind_dash(s, p, n) == grammar::cat(space_token(s, p), list_beside(s, p + 1, n)),
{
    assert(list_beside(s, p + 1, n) == grammar::block_sequence(s, p + 1, n + 2)) by {
        reveal(list_beside);
    }
    assert(behind_dash(s, p, n) == grammar::sequence_entry_rest(s, p, n)) by {
        reveal(behind_dash);
    }
    lemma_dashes_direct(s, p, n);
}

/// What stands for a list behind a dash.
proof fn lemma_dashes_join(s: Seq<u8>, p: int, n: int, len: int, m: YamlModel, y: Tree)
    requires
        0 <= p,
        p + 1 < s.len(),
        s[p] == 0x20,
        grammar::dash_at(s, p + 1),
        lexer::column_of(s, p) == n + 1,
        gathering::yields(list_beside(s, p + 1, n), len, m),
        list_beside(s, p + 1, n).elems == seq![y],
        standing::feed_at(s, p + 1 + len),
    ensures
        gathering::yields(behind_dash(s, p, n), 1 + len, m),
        behind_dash(s, p, n).elems == seq![shapes::gap(), y],
{
    lemma_dashes_parts(s, p, n);
    shapes::lemma_token(s, p, SyntaxKind::WHITESPACE, ' ');
    lemma_behind_one(space_token(s, p), list_beside(s, p + 1, n), len, m, shapes::gap(), y);
}

/// Whether no tab stands on the line before `p`.
pub open spec fn untabbed(s: Seq<u8>, p: int) -> bool {
    grammar::first_tab(s, lexer::line_start(s, p), p) is None
}

/// Whether an entry can begin at `a`, with its mark behind `d` spaces at the column
/// `n`.
pub open spec fn entry_place(s: Seq<u8>, a: int, d: int, n: int) -> bool {
    let lw = grammar::leading_whitespace(s, a);
    &&& 0 <= a && 0 <= d
    &&& lw.fault is None && lw.len == d && lw.elems == shapes::margin_of(d)
    &&& lexer::column_of(s, a + d) == n
    &&& grammar::tab_before(s, a) is None
    &&& untabbed(s, a + d)
}

/// One byte more that is no tab.
proof fn lemma_tab_step(s: Seq<u8>, a: int, p: int)
    requires
        a <= p,
        grammar::first_tab(s, a, p) is None,
        s[p] != 0x09,
    ensures
        grammar::first_tab(s, a, p + 1) is None,
    decreases p - a,
{
    assert(grammar::first_tab(s, p + 1, p + 1) is None);
    if a < p {
        lemma_tab_step(s, a + 1, p);
    }
}

/// A line starts before what is on it.
proof fn lemma_starts_before(s: Seq<u8>, p: int)
    ensures
        lexer::line_start(s, p) <= p,
    decreases p,
{
    if p > 0 {
        lemma_starts_before(s, p - 1);
    }
}

/// Behind a byte that is no tab and no line break there is no tab either.
proof fn lemma_untabbed_step(s: Seq<u8>, p: int)
    requires
        0 <= p < s.len(),
        untabbed(s, p),
        s[p] != 0x09,
        !lexer::is_break(s[p]),
    ensures
        untabbed(s, p + 1),
{
    lemma_starts_before(s, p);
    lemma_tab_step(s, lexer::line_start(s, p), p);
}

/// An entry can begin a line.
proof fn lemma_line_place(s: Seq<u8>, a: int, n: int)
    requires
        standing::line_at(s, a, n),
    ensures
        entry_place(s, a, n, n),
{
    standing::lemma_line(s, a, n);
    standing::lemma_no_tab(s, a, a + n);
    assert forall|j: int| a <= j < a + n implies !lexer::is_break(#[trigger] s[j]) by {}
    standing::lemma_line_start(s, a, a + n);
    if n > 0 {
        shapes::lemma_margin(s, a, n);
    }
    assert(grammar::leading_whitespace(s, a).elems =~= shapes::margin_of(n));
}

/// An entry can begin beside a dash.
proof fn lemma_place_beside(s: Seq<u8>, p: int, n: int)
    requires
        0 <= p,
        p + 1 < s.len(),
        s[p] == 0x20,
        s[p + 1] == 0x2d,
        grammar::dash_at(s, p + 1),
        lexer::column_of(s, p) == n + 1,
        untabbed(s, p),
    ensures
        entry_place(s, p + 1, 0, n + 2),
{
    lemma_column_step(s, p);
    lemma_untabbed_step(s, p);
    reveal(grammar::tab_before);
    reveal(lexer::hint_of);
    assert(lexer::run_end(s, p + 1, ByteClass::Blank) == p + 1);
    assert(grammar::leading_whitespace(s, p + 1) == grammar::none());
    assert(grammar::none().elems =~= shapes::margin_of(0));
}

/// What a collection begins with.
proof fn lemma_body_start(l: Layout, s: Seq<u8>, p: int, m: YamlModel, n: int)
    requires
        layout::is_tall(m),
        is_tame(m),
        standing::stands(s, p, layout::body(l, m, n)),
    ensures
        0 <= p < s.len(),
        standing::solid(s[p]),
{
    match m {
        YamlModel::List(items) => {
            lemma_dash(l, s, p, items[0], n, layout::items_rest(l, items, 1, n));
        },
        YamlModel::Dict(pairs) => {
            assert(tame_pairs(pairs));
            lemma_key(l, s, p, pairs[0].0, pairs[0].1, n, layout::pairs_rest(l, pairs, 1, n));
        },
        _ => {},
    }
}

/// A collection on lines of its own.
#[verifier::spinoff_prover]
#[verifier::rlimit(100)]
proof fn lemma_block(l: Layout, s: Seq<u8>, a: int, m: YamlModel, n: int, min: usize)
    requires
        layout::is_sound(l),
        layout::is_tall(m),
        is_tame(m),
        n >= 0,
        n + layout::reach(l, (builder::depth(m) - 1) as nat) <= usize::MAX,
        0 <= a,
        a == 0 || standing::feed_at(s, a - 1),
        standing::stands(s, a, text::spaces(n) + layout::body(l, m, n)),
        standing::closed(s, a + n + standing::size(layout::body(l, m, n)), n),
    ensures
        gathering::yields(
            grammar::block_node(s, a, n, min),
            n + standing::size(layout::body(l, m, n)) + extra(
                s,
                a + n + standing::size(layout::body(l, m, n)),
                n,
                m,
            ),
            m,
        ),
        extra(s, a + n + standing::size(layout::body(l, m, n)), n, m) == 0
            ==> grammar::block_node(s, a, n, min).elems == seq![shapes::block_tree(l, m, n, n)],
    decreases m, 3nat, 0int,
{
    let b = layout::body(l, m, n);
    standing::lemma_spaces(s, a, n, b);
    lemma_body_start(l, s, a + n, m, n);
    assert(standing::line_at(s, a, n));
    standing::lemma_line(s, a, n);
    let lw = grammar::leading_whitespace(s, a);
    assert(gathering::all_tokens(lw.elems));
    assert(lw.elems =~= shapes::margin_of(n)) by {
        if n > 0 {
            shapes::lemma_margin(s, a, n);
        }
    }
    if n > 0 {
        assert(s[a] == 0x20);
        lexer::lemma_blank_hint(s, a);
    }
    match m {
        YamlModel::List(items) => {
            lemma_dash(l, s, a + n, items[0], n, layout::items_rest(l, items, 1, n));
            assert(!grammar::property_at(s, a));
            lemma_sequence_line(l, s, a, items, n);
            assert(grammar::block_content(s, a, n, min) == grammar::block_sequence(s, a, n));
            let r = grammar::block_sequence(s, a, n);
            assert(r.elems.drop_last() =~= seq![]);
        },
        YamlModel::Dict(pairs) => {
            assert(tame_pairs(pairs));
            lemma_key(l, s, a + n, pairs[0].0, pairs[0].1, n, layout::pairs_rest(l, pairs, 1, n));
            assert(!grammar::property_at(s, a));
            let w = builder::string_text(pairs[0].0);
            emitting::lemma_first_key(s, a, a + n, w, n, min);
            lemma_mapping(l, s, a, n, pairs, n);
            assert(grammar::block_content(s, a, n, min) == grammar::block_mapping_or_scalar(
                s,
                a,
                n,
                min,
            ));
        },
        _ => {},
    }
}

/// What is made of a mapping from its first key on, part by part.
pub proof fn lemma_from_key(s: Seq<u8>, a: int, n: int, w: Seq<char>)
    requires
        a < s.len(),
        ({
            let lw = grammar::leading_whitespace(s, a);
            let q = a + lw.len + standing::size(w);
            let v = grammar::entry_value(s, q + 1, n);
            &&& lw.fault is None
            &&& v.fault is None
            &&& grammar::inline_trivia(s, q) == grammar::none()
            &&& grammar::inline_trivia(s, q + 1 + v.len) == grammar::none()
        }),
    ensures
        ({
            let lw = grammar::leading_whitespace(s, a);
            let k = grammar::cat(lw, emitting::scalar_parsed(w));
            let q = a + lw.len + standing::size(w);
            let v = grammar::entry_value(s, q + 1, n);
            let colon = grammar::token(s, q, SyntaxKind::COLON, 1);
            let tail = grammar::mapping_tail(s, q + 1 + v.len, n);
            grammar::mapping_from_key(s, a, k, n) == (Parsed {
                elems: seq![
                    Tree::Node {
                        kind: SyntaxKind::BLOCK_MAPPING.code(),
                        children: seq![gathering::pair_tree(SyntaxKind::BLOCK_MAPPING_ENTRY, lw.elems, w, colon.elems[0], v)]
                            + tail.elems,
                    },
                ],
                len: lw.len + encode_utf8(w).len() + 1 + v.len + tail.len,
                fault: tail.fault,
            })
        }),
{
    let lw = grammar::leading_whitespace(s, a);
    let q = a + lw.len + standing::size(w);
    let v = grammar::entry_value(s, q + 1, n);
    let colon = grammar::token(s, q, SyntaxKind::COLON, 1);
    let k = grammar::cat(lw, emitting::scalar_parsed(w));
    lemma_behind_none(k);
    let c = grammar::cat(grammar::cat(k, colon), v);
    lemma_behind_none(c);
    let entry = gathering::pair_tree(SyntaxKind::BLOCK_MAPPING_ENTRY, lw.elems, w, colon.elems[0], v);
    assert(c.elems =~= entry.children());
    let ep = grammar::wrap(SyntaxKind::BLOCK_MAPPING_ENTRY, c);
    assert(ep.elems =~= seq![entry]);
    let tail = grammar::mapping_tail(s, q + 1 + v.len, n);
    assert(grammar::mapping_from_key(s, a, k, n) == grammar::wrap(
        SyntaxKind::BLOCK_MAPPING,
        grammar::cat(ep, tail),
    ));
}

/// A mapping from its first key on, which stands behind `d` bytes of whitespace.
#[verifier::spinoff_prover]
#[verifier::rlimit(100)]
proof fn lemma_mapping(l: Layout, s: Seq<u8>, a: int, d: int, pairs: Seq<layout::Pair>, n: int)
    requires
        layout::is_sound(l),
        pairs.len() > 0,
        tame_pairs(pairs),
        n >= 0,
        n + layout::reach(l, builder::dict_depth(pairs)) <= usize::MAX,
        0 <= a,
        d >= 0,
        grammar::leading_whitespace(s, a).fault is None,
        grammar::leading_whitespace(s, a).len == d,
        gathering::all_tokens(grammar::leading_whitespace(s, a).elems),
        grammar::leading_whitespace(s, a).elems == shapes::margin_of(d),
        standing::stands(s, a + d, layout::pairs_body(l, pairs, 0, n)),
        standing::closed(s, a + d + standing::size(layout::pairs_body(l, pairs, 0, n)), n),
    ensures
        gathering::yields(
            grammar::mapping_from_key(
                s,
                a,
                grammar::cat(
                    grammar::leading_whitespace(s, a),
                    emitting::scalar_parsed(builder::string_text(pairs[0].0)),
                ),
                n,
            ),
            d + standing::size(layout::pairs_body(l, pairs, 0, n)) + swallowed(
                s,
                a + d + standing::size(layout::pairs_body(l, pairs, 0, n)),
                n,
            ),
            YamlModel::Dict(pairs),
        ),
        swallowed(s, a + d + standing::size(layout::pairs_body(l, pairs, 0, n)), n) == 0
            ==> grammar::mapping_from_key(
            s,
            a,
            grammar::cat(
                grammar::leading_whitespace(s, a),
                emitting::scalar_parsed(builder::string_text(pairs[0].0)),
            ),
            n,
        ).elems == seq![shapes::block_tree(l, YamlModel::Dict(pairs), n, d)],
    decreases pairs, 2nat, 0int,
{
    let kind = SyntaxKind::BLOCK_MAPPING_ENTRY;
    let x = pairs[0].0;
    let m = pairs[0].1;
    let w = builder::string_text(x);
    let rest = layout::pairs_rest(l, pairs, 1, n);
    let c = layout::child_body(l, m, n);
    lemma_key(l, s, a + d, x, m, n, rest);
    let q = a + d + standing::size(w);
    let e = q + 1 + standing::size(c);
    lemma_pairs_rest(l, s, e, pairs, 1, n);
    builder::lemma_dict_depth(pairs, 0);
    layout::lemma_reach(l, builder::depth(m), builder::dict_depth(pairs));
    lemma_value(l, s, q + 1, m, n, n);
    standing::lemma_ends(s, e, n + 1);
    standing::lemma_break(s, e);
    lemma_pairs_tail(l, s, e, pairs, 1, n);
    leaves::lemma_text(x);
    let lw = grammar::leading_whitespace(s, a);
    let k = grammar::cat(lw, emitting::scalar_parsed(w));
    let v = grammar::entry_value(s, q + 1, n);
    let colon = grammar::token(s, q, SyntaxKind::COLON, 1);
    gathering::lemma_pair(SyntaxKind::BLOCK_MAPPING_ENTRY, lw.elems, w, x, colon.elems[0], v, standing::size(c), m);
    let entry = gathering::pair_tree(SyntaxKind::BLOCK_MAPPING_ENTRY, lw.elems, w, colon.elems[0], v);
    let tail = grammar::mapping_tail(s, e, n);
    shapes::lemma_token(s, q, SyntaxKind::COLON, ':');
    lemma_from_key(s, a, n, w);
    let r = grammar::mapping_from_key(s, a, k, n);
    gathering::lemma_pairs_add(seq![entry], tail.elems, kind, seq![(x, m)], pairs.skip(1));
    assert(seq![(x, m)] + pairs.skip(1) =~= pairs);
    gathering::lemma_dict(SyntaxKind::BLOCK_MAPPING, seq![entry] + tail.elems, pairs);
    assert(r.elems.drop_last() =~= seq![]);
    assert(tail.elems == shapes::pairs_more(l, pairs, 1, n) ==> seq![entry] + tail.elems
        =~= shapes::pairs_trees(l, pairs, 0, n, d));
}

/// What is made of an entry of a mapping, part by part.
proof fn lemma_implicit_entry(s: Seq<u8>, a: int, n: int, w: Seq<char>)
    requires
        ({
            let lw = grammar::leading_whitespace(s, a);
            let q = a + lw.len + standing::size(w);
            let v = grammar::entry_value(s, q + 1, n);
            &&& lw.fault is None
            &&& v.fault is None
            &&& grammar::scalar_node(s, a + lw.len, PlainStop::BlockKey, None)
                == emitting::scalar_parsed(w)
            &&& grammar::inline_trivia(s, q) == grammar::none()
            &&& lexer::block_colon(s, q)
            &&& grammar::inline_trivia(s, q + 1 + v.len) == grammar::none()
        }),
    ensures
        ({
            let lw = grammar::leading_whitespace(s, a);
            let q = a + lw.len + standing::size(w);
            let v = grammar::entry_value(s, q + 1, n);
            let colon = grammar::token(s, q, SyntaxKind::COLON, 1);
            let r = grammar::implicit_entry(s, a, n);
            &&& r.fault is None
            &&& r.len == lw.len + standing::size(w) + 1 + v.len
            &&& r.elems == seq![gathering::pair_tree(SyntaxKind::BLOCK_MAPPING_ENTRY, lw.elems, w, colon.elems[0], v)]
        }),
{
    let lw = grammar::leading_whitespace(s, a);
    let q = a + lw.len + standing::size(w);
    let v = grammar::entry_value(s, q + 1, n);
    let colon = grammar::token(s, q, SyntaxKind::COLON, 1);
    let k = grammar::cat(lw, emitting::scalar_parsed(w));
    lemma_behind_none(k);
    let c = grammar::cat(grammar::cat(k, colon), v);
    lemma_behind_none(c);
    let r = grammar::implicit_entry(s, a, n);
    assert(r == grammar::wrap(SyntaxKind::BLOCK_MAPPING_ENTRY, c));
    let entry = gathering::pair_tree(SyntaxKind::BLOCK_MAPPING_ENTRY, lw.elems, w, colon.elems[0], v);
    assert(c.elems =~= entry.children());
}

/// An entry of a mapping on a line of its own.
#[verifier::spinoff_prover]
#[verifier::rlimit(100)]
proof fn lemma_pair_entry(l: Layout, s: Seq<u8>, a: int, pairs: Seq<layout::Pair>, i: int, n: int)
    requires
        layout::is_sound(l),
        0 <= i < pairs.len(),
        tame_pairs(pairs),
        n >= 0,
        n + layout::reach(l, builder::dict_depth(pairs)) <= usize::MAX,
        standing::line_at(s, a, n),
        standing::stands(s, a + n, layout::pairs_body(l, pairs, i, n)),
        standing::closed(s, a + n + standing::size(layout::pairs_body(l, pairs, i, n)), n),
    ensures
        ({
            let r = grammar::implicit_entry(s, a, n);
            let w = builder::string_text(pairs[i].0);
            let c = layout::child_body(l, pairs[i].1, n);
            let rest = layout::pairs_rest(l, pairs, i + 1, n);
            let e = a + n + standing::size(w) + 1 + standing::size(c);
            &&& r.fault is None
            &&& r.len == n + standing::size(w) + 1 + standing::size(c)
            &&& gathering::pairs_are(r.elems, SyntaxKind::BLOCK_MAPPING_ENTRY, seq![pairs[i]])
            &&& r.elems + shapes::pairs_more(l, pairs, i + 1, n) == shapes::pairs_trees(
                l,
                pairs,
                i,
                n,
                n,
            )
            &&& standing::stands(s, e, rest)
            &&& standing::closed(s, e + standing::size(rest), n)
            &&& standing::size(layout::pairs_body(l, pairs, i, n)) == standing::size(w) + 1
                + standing::size(c) + standing::size(rest)
        }),
    decreases pairs, 0nat, 0int,
{
    let kind = SyntaxKind::BLOCK_MAPPING_ENTRY;
    let x = pairs[i].0;
    let m = pairs[i].1;
    let w = builder::string_text(x);
    let rest = layout::pairs_rest(l, pairs, i + 1, n);
    let c = layout::child_body(l, m, n);
    standing::lemma_line(s, a, n);
    lemma_key(l, s, a + n, x, m, n, rest);
    let q = a + n + standing::size(w);
    let f = q + 1 + standing::size(c);
    lemma_pairs_rest(l, s, f, pairs, i + 1, n);
    builder::lemma_dict_depth(pairs, i);
    layout::lemma_reach(l, builder::depth(m), builder::dict_depth(pairs));
    lemma_value(l, s, q + 1, m, n, n);
    standing::lemma_ends(s, f, n + 1);
    standing::lemma_break(s, f);
    leaves::lemma_text(x);
    emitting::lemma_key_scalar(s, a + n, w);
    let lw = grammar::leading_whitespace(s, a);
    let v = grammar::entry_value(s, q + 1, n);
    let colon = grammar::token(s, q, SyntaxKind::COLON, 1);
    gathering::lemma_pair(SyntaxKind::BLOCK_MAPPING_ENTRY, lw.elems, w, x, colon.elems[0], v, standing::size(c), m);
    lemma_implicit_entry(s, a, n, w);
    shapes::lemma_token(s, q, SyntaxKind::COLON, ':');
    assert(lw.elems =~= shapes::margin_of(n)) by {
        if n > 0 {
            shapes::lemma_margin(s, a, n);
        }
    }
    assert(grammar::implicit_entry(s, a, n).elems + shapes::pairs_more(l, pairs, i + 1, n)
        =~= shapes::pairs_trees(l, pairs, i, n, n));
}

/// The further entries of a mapping.
#[verifier::spinoff_prover]
#[verifier::rlimit(100)]
proof fn lemma_pairs_tail(l: Layout, s: Seq<u8>, e: int, pairs: Seq<layout::Pair>, i: int, n: int)
    requires
        layout::is_sound(l),
        0 <= i <= pairs.len(),
        tame_pairs(pairs),
        n >= 0,
        n + layout::reach(l, builder::dict_depth(pairs)) <= usize::MAX,
        standing::stands(s, e, layout::pairs_rest(l, pairs, i, n)),
        standing::closed(s, e + standing::size(layout::pairs_rest(l, pairs, i, n)), n),
    ensures
        grammar::mapping_tail(s, e, n).fault is None,
        grammar::mapping_tail(s, e, n).len == standing::size(layout::pairs_rest(l, pairs, i, n))
            + swallowed(s, e + standing::size(layout::pairs_rest(l, pairs, i, n)), n),
        gathering::pairs_are(
            grammar::mapping_tail(s, e, n).elems,
            SyntaxKind::BLOCK_MAPPING_ENTRY,
            pairs.skip(i),
        ),
        swallowed(s, e + standing::size(layout::pairs_rest(l, pairs, i, n)), n) == 0
            ==> grammar::mapping_tail(s, e, n).elems == shapes::pairs_more(l, pairs, i, n),
    decreases pairs, 1nat, pairs.len() - i,
{
    let kind = SyntaxKind::BLOCK_MAPPING_ENTRY;
    lemma_pairs_rest(l, s, e, pairs, i, n);
    if i == pairs.len() {
        lemma_mapping_ends(s, e, n);
        assert(pairs.skip(i) =~= seq![]);
    } else {
        let a = e + 1;
        let w = builder::string_text(pairs[i].0);
        standing::lemma_below(s, e, n);
        standing::lemma_line(s, a, n);
        lemma_key(
            l,
            s,
            a + n,
            pairs[i].0,
            pairs[i].1,
            n,
            layout::pairs_rest(l, pairs, i + 1, n),
        );
        lemma_pair_entry(l, s, a, pairs, i, n);
        let r = grammar::implicit_entry(s, a, n);
        let f = a + r.len;
        lemma_pairs_tail(l, s, f, pairs, i + 1, n);
        assert(!grammar::any_marker(s, a)) by {
            if n == 0 {
                lemma_unmarked(s, a, w);
            } else {
                assert(s[a] == 0x20);
                reveal(grammar::line_marker);
            }
        }
        let t = standing::break_token(s, e);
        let tail = grammar::mapping_tail(s, f, n);
        assert(grammar::mapping_tail(s, e, n) == grammar::cat(grammar::cat(t, r), tail));
        lemma_gather_pairs(t, r, tail, pairs, i);
        shapes::lemma_token(s, e, SyntaxKind::NEWLINE, '\n');
        assert(t.elems + r.elems + tail.elems =~= t.elems + (r.elems + tail.elems));
    }
}

/// The pairs of a line break, an entry and the entries behind it.
proof fn lemma_gather_pairs(t: Parsed, r: Parsed, tail: Parsed, pairs: Seq<layout::Pair>, i: int)
    requires
        0 <= i < pairs.len(),
        t.fault is None,
        r.fault is None,
        gathering::all_tokens(t.elems),
        gathering::pairs_are(r.elems, SyntaxKind::BLOCK_MAPPING_ENTRY, seq![pairs[i]]),
        gathering::pairs_are(tail.elems, SyntaxKind::BLOCK_MAPPING_ENTRY, pairs.skip(i + 1)),
    ensures
        gathering::pairs_are(
            grammar::cat(grammar::cat(t, r), tail).elems,
            SyntaxKind::BLOCK_MAPPING_ENTRY,
            pairs.skip(i),
        ),
{
    let kind = SyntaxKind::BLOCK_MAPPING_ENTRY;
    gathering::lemma_tokens(t.elems, kind);
    gathering::lemma_pairs_add(t.elems, r.elems, kind, seq![], seq![pairs[i]]);
    let one = Seq::<layout::Pair>::empty() + seq![pairs[i]];
    gathering::lemma_pairs_add(t.elems + r.elems, tail.elems, kind, one, pairs.skip(i + 1));
    assert(one + pairs.skip(i + 1) =~= pairs.skip(i));
}

/// An entry of a sequence, whose dash stands behind `d` spaces.
#[verifier::spinoff_prover]
#[verifier::rlimit(100)]
proof fn lemma_entry(l: Layout, s: Seq<u8>, a: int, d: int, items: Seq<YamlModel>, i: int, n: int)
    requires
        layout::is_sound(l),
        0 <= i < items.len(),
        tame_items(items),
        n >= 0,
        n + layout::reach(l, builder::list_depth(items)) <= usize::MAX,
        entry_place(s, a, d, n),
        standing::stands(s, a + d, layout::items_body(l, items, i, n)),
        list_closed(s, a + d + standing::size(layout::items_body(l, items, i, n)), n),
    ensures
        ({
            let r = grammar::sequence_entry(s, a, n);
            let c = layout::item_body(l, items[i], n);
            let e = a + d + 1 + standing::size(c);
            &&& r.fault is None
            &&& r.len == d + 1 + standing::size(c)
            &&& gathering::items_are(r.elems, SyntaxKind::BLOCK_SEQUENCE_ENTRY, seq![items[i]])
            &&& r.elems + shapes::items_more(l, items, i + 1, n) == shapes::items_trees(
                l,
                items,
                i,
                n,
                d,
            )
            &&& standing::stands(s, e, layout::items_rest(l, items, i + 1, n))
            &&& list_closed(
                s,
                e + standing::size(layout::items_rest(l, items, i + 1, n)),
                n,
            )
            &&& standing::size(layout::items_body(l, items, i, n)) == 1 + standing::size(c)
                + standing::size(layout::items_rest(l, items, i + 1, n))
            &&& grammar::past_whitespace(s, a, SyntaxKind::DASH)
            &&& grammar::tab_before(s, a) is None
        }),
    decreases items, 0nat, 0int,
{
    let m = items[i];
    let c = layout::item_body(l, m, n);
    let rest = layout::items_rest(l, items, i + 1, n);
    lemma_dash(l, s, a + d, m, n, rest);
    lemma_column_step(s, a + d);
    lemma_untabbed_step(s, a + d);
    let e = a + d + 1 + standing::size(c);
    lemma_items_rest(l, s, e, items, i + 1, n);
    builder::lemma_list_depth(items, i);
    layout::lemma_reach(l, builder::depth(m), builder::list_depth(items));
    lemma_item_value(l, s, a + d + 1, m, n);
    let lw = grammar::leading_whitespace(s, a);
    let dash = grammar::token(s, a + d, SyntaxKind::DASH, 1);
    let v = grammar::sequence_entry_rest(s, a + d + 1, n);
    let head = lw.elems + dash.elems;
    gathering::lemma_item(SyntaxKind::BLOCK_SEQUENCE_ENTRY, head, v, standing::size(c), m);
    let entry = gathering::item_tree(SyntaxKind::BLOCK_SEQUENCE_ENTRY, head, v);
    let r = grammar::sequence_entry(s, a, n);
    assert(grammar::cat(grammar::cat(lw, dash), v).elems =~= entry.children());
    assert(r.elems =~= seq![entry]);
    shapes::lemma_token(s, a + d, SyntaxKind::DASH, '-');
    assert(r.elems + shapes::items_more(l, items, i + 1, n) =~= shapes::items_trees(
        l,
        items,
        i,
        n,
        d,
    ));
}

/// A sequence from its first dash on, which stands behind `d` spaces.
#[verifier::spinoff_prover]
#[verifier::rlimit(100)]
proof fn lemma_sequence(l: Layout, s: Seq<u8>, a: int, d: int, items: Seq<YamlModel>, n: int)
    requires
        layout::is_sound(l),
        items.len() > 0,
        tame_items(items),
        n >= 0,
        n + layout::reach(l, builder::list_depth(items)) <= usize::MAX,
        entry_place(s, a, d, n),
        standing::stands(s, a + d, layout::items_body(l, items, 0, n)),
        list_closed(s, a + d + standing::size(layout::items_body(l, items, 0, n)), n),
    ensures
        gathering::yields(
            grammar::block_sequence(s, a, n),
            d + standing::size(layout::items_body(l, items, 0, n)),
            YamlModel::List(items),
        ),
        grammar::block_sequence(s, a, n).elems == seq![
            shapes::block_tree(l, YamlModel::List(items), n, d),
        ],
    decreases items, 2nat, 0int,
{
    lemma_entry(l, s, a, d, items, 0, n);
    let r = grammar::sequence_entry(s, a, n);
    let e = a + r.len;
    lemma_items_tail(l, s, e, items, 1, n);
    let tail = grammar::sequence_tail(s, e, n);
    let all = grammar::sequence_items(s, a, grammar::none(), n);
    lemma_more_items(s, a, grammar::none(), n);
    lemma_gather_items(grammar::none(), r, tail, items, 0);
    assert(items.skip(0) =~= items);
    let b = grammar::block_sequence(s, a, n);
    assert(b == grammar::wrap(SyntaxKind::BLOCK_SEQUENCE, all));
    gathering::lemma_list(SyntaxKind::BLOCK_SEQUENCE, all.elems, items);
    assert(b.elems.drop_last() =~= seq![]);
    assert(all.elems =~= r.elems + tail.elems);
}

/// A sequence that begins a line.
proof fn lemma_sequence_line(l: Layout, s: Seq<u8>, a: int, items: Seq<YamlModel>, n: int)
    requires
        layout::is_sound(l),
        items.len() > 0,
        tame_items(items),
        n >= 0,
        n + layout::reach(l, builder::list_depth(items)) <= usize::MAX,
        standing::line_at(s, a, n),
        standing::stands(s, a + n, layout::items_body(l, items, 0, n)),
        list_closed(s, a + n + standing::size(layout::items_body(l, items, 0, n)), n),
    ensures
        gathering::yields(
            grammar::block_sequence(s, a, n),
            n + standing::size(layout::items_body(l, items, 0, n)),
            YamlModel::List(items),
        ),
        grammar::block_sequence(s, a, n).elems == seq![
            shapes::block_tree(l, YamlModel::List(items), n, n),
        ],
    decreases items, 2nat, 1int,
{
    lemma_line_place(s, a, n);
    lemma_sequence(l, s, a, n, items, n);
}

/// The further entries of a sequence.
#[verifier::spinoff_prover]
#[verifier::rlimit(100)]
proof fn lemma_items_tail(l: Layout, s: Seq<u8>, e: int, items: Seq<YamlModel>, i: int, n: int)
    requires
        layout::is_sound(l),
        0 <= i <= items.len(),
        tame_items(items),
        n >= 0,
        n + layout::reach(l, builder::list_depth(items)) <= usize::MAX,
        standing::stands(s, e, layout::items_rest(l, items, i, n)),
        list_closed(s, e + standing::size(layout::items_rest(l, items, i, n)), n),
    ensures
        grammar::sequence_tail(s, e, n).fault is None,
        grammar::sequence_tail(s, e, n).len == standing::size(layout::items_rest(l, items, i, n)),
        gathering::items_are(
            grammar::sequence_tail(s, e, n).elems,
            SyntaxKind::BLOCK_SEQUENCE_ENTRY,
            items.skip(i),
        ),
        grammar::sequence_tail(s, e, n).elems == shapes::items_more(l, items, i, n),
    decreases items, 1nat, items.len() - i,
{
    lemma_items_rest(l, s, e, items, i, n);
    if i == items.len() {
        lemma_sequence_ends(s, e, n);
        assert(items.skip(i) =~= seq![]);
    } else {
        standing::lemma_below(s, e, n);
        lemma_dash(l, s, e + 1 + n, items[i], n, layout::items_rest(l, items, i + 1, n));
        lemma_line_place(s, e + 1, n);
        lemma_entry(l, s, e + 1, n, items, i, n);
        let t = standing::break_token(s, e);
        let r = grammar::sequence_entry(s, e + 1, n);
        let f = e + 1 + r.len;
        lemma_items_tail(l, s, f, items, i + 1, n);
        let tail = grammar::sequence_tail(s, f, n);
        assert(grammar::sequence_tail(s, e, n) == grammar::sequence_items(s, e, t, n));
        lemma_more_items(s, e, t, n);
        lemma_gather_items(t, r, tail, items, i);
        shapes::lemma_token(s, e, SyntaxKind::NEWLINE, '\n');
        assert(t.elems + r.elems + tail.elems =~= t.elems + (r.elems + tail.elems));
    }
}

/// What is made of the entries of a sequence, part by part.
proof fn lemma_more_items(s: Seq<u8>, pos: int, t: Parsed, n: int)
    requires
        t.fault is None,
        grammar::past_whitespace(s, pos + t.len, SyntaxKind::DASH),
        grammar::tab_before(s, pos + t.len) is None,
        grammar::sequence_entry(s, pos + t.len, n).len > 0,
    ensures
        ({
            let r = grammar::sequence_entry(s, pos + t.len, n);
            grammar::sequence_items(s, pos, t, n) == grammar::cat(
                grammar::cat(t, r),
                grammar::sequence_tail(s, pos + t.len + r.len, n),
            )
        }),
{
}

/// The items of a line break, an entry and the entries behind it.
proof fn lemma_gather_items(t: Parsed, r: Parsed, tail: Parsed, items: Seq<YamlModel>, i: int)
    requires
        0 <= i < items.len(),
        t.fault is None,
        r.fault is None,
        gathering::all_tokens(t.elems),
        gathering::items_are(r.elems, SyntaxKind::BLOCK_SEQUENCE_ENTRY, seq![items[i]]),
        gathering::items_are(tail.elems, SyntaxKind::BLOCK_SEQUENCE_ENTRY, items.skip(i + 1)),
    ensures
        gathering::items_are(
            grammar::cat(grammar::cat(t, r), tail).elems,
            SyntaxKind::BLOCK_SEQUENCE_ENTRY,
            items.skip(i),
        ),
{
    let kind = SyntaxKind::BLOCK_SEQUENCE_ENTRY;
    gathering::lemma_tokens(t.elems, kind);
    gathering::lemma_items_add(t.elems, r.elems, kind, seq![], seq![items[i]]);
    let one = Seq::<YamlModel>::empty() + seq![items[i]];
    gathering::lemma_items_add(t.elems + r.elems, tail.elems, kind, one, items.skip(i + 1));
    assert(one + items.skip(i + 1) =~= items.skip(i));
}

// ---- Documents ----

/// The text of a value does not end a line.
pub proof fn lemma_body_end(l: Layout, m: YamlModel, n: int)
    requires
        is_tame(m),
    ensures
        layout::body(l, m, n).len() > 0,
        layout::body(l, m, n).last() != '\n',
    decreases m, 3nat, 0int,
{
    match m {
        YamlModel::List(items) if items.len() > 0 => {
            lemma_items_end(l, items, 0, n);
        },
        YamlModel::Dict(pairs) if pairs.len() > 0 => {
            lemma_pairs_end(l, pairs, 0, n);
        },
        _ => {
            lemma_leaf_end(m);
        },
    }
}

/// The text of a value on one line does not end the line.
proof fn lemma_leaf_end(m: YamlModel)
    requires
        is_tame(m),
        !layout::is_tall(m),
    ensures
        layout::leaf_text(m).len() > 0,
        layout::leaf_text(m).last() != '\n',
{
    reveal_strlit("[]");
    reveal_strlit("{}");
    if !(m is List) && !(m is Dict) {
        leaves::lemma_leaf(m);
        emitting::lemma_quotes(layout::leaf_text(m));
    }
}

/// The text of an entry's value does not end a line.
pub proof fn lemma_child_end(l: Layout, m: YamlModel, n: int)
    requires
        is_tame(m),
    ensures
        layout::child_body(l, m, n).len() > 0,
        layout::child_body(l, m, n).last() != '\n',
        layout::item_body(l, m, n).len() > 0,
        layout::item_body(l, m, n).last() != '\n',
    decreases m, 4nat, 0int,
{
    if layout::is_tall(m) {
        lemma_body_end(l, m, n + 2);
        lemma_body_end(l, m, n + l.step);
        lemma_body_end(l, m, layout::column_below(l, m, n));
    } else {
        lemma_leaf_end(m);
    }
}

/// The text of items does not end a line.
proof fn lemma_items_end(l: Layout, items: Seq<YamlModel>, i: int, n: int)
    requires
        0 <= i < items.len(),
        tame_items(items),
    ensures
        layout::items_body(l, items, i, n).len() > 0,
        layout::items_body(l, items, i, n).last() != '\n',
    decreases items, 1nat, items.len() - i,
{
    lemma_child_end(l, items[i], n);
    if i + 1 < items.len() {
        lemma_items_end(l, items, i + 1, n);
    } else {
        assert(layout::items_rest(l, items, i + 1, n).len() == 0);
    }
}

/// The text of pairs does not end a line.
proof fn lemma_pairs_end(l: Layout, pairs: Seq<layout::Pair>, i: int, n: int)
    requires
        0 <= i < pairs.len(),
        tame_pairs(pairs),
    ensures
        layout::pairs_body(l, pairs, i, n).len() > 0,
        layout::pairs_body(l, pairs, i, n).last() != '\n',
    decreases pairs, 1nat, pairs.len() - i,
{
    lemma_child_end(l, pairs[i].1, n);
    if i + 1 < pairs.len() {
        lemma_pairs_end(l, pairs, i + 1, n);
    } else {
        assert(layout::pairs_rest(l, pairs, i + 1, n).len() == 0);
    }
}

/// What a document begins with.
pub proof fn lemma_document_start(l: Layout, s: Seq<u8>, a: int, m: YamlModel)
    requires
        is_tame(m),
        standing::stands(s, a, layout::body(l, m, 0)),
        standing::feed_at(s, a + standing::size(layout::body(l, m, 0))),
    ensures
        0 <= a < s.len(),
        standing::solid(s[a]),
        !grammar::any_marker(s, a),
        !grammar::at(s, a, SyntaxKind::BOM),
        !grammar::at(s, a, SyntaxKind::DIRECTIVE),
        !grammar::property_at(s, a),
        grammar::trivia(s, a) == grammar::none(),
{
    reveal(grammar::trivia);
    match m {
        YamlModel::List(items) => {
            if items.len() > 0 {
                lemma_dash(l, s, a, items[0], 0, layout::items_rest(l, items, 1, 0));
            } else {
                lemma_empty_list(s, a);
                reveal(lexer::hint_of);
                reveal(grammar::line_marker);
                assert(s[a] == 0x5b);
            }
        },
        YamlModel::Dict(pairs) => {
            if pairs.len() > 0 {
                assert(tame_pairs(pairs));
                lemma_key(l, s, a, pairs[0].0, pairs[0].1, 0, layout::pairs_rest(l, pairs, 1, 0));
                lemma_unmarked(s, a, builder::string_text(pairs[0].0));
                emitting::lemma_scalar_hint(s, a, builder::string_text(pairs[0].0));
            } else {
                lemma_empty_dict(s, a);
                reveal(lexer::hint_of);
                reveal(grammar::line_marker);
                assert(s[a] == 0x7b);
            }
        },
        _ => {
            leaves::lemma_leaf(m);
            lemma_unmarked(s, a, layout::leaf_text(m));
            emitting::lemma_scalar_hint(s, a, layout::leaf_text(m));
        },
    }
}

/// The node of a document.
pub proof fn lemma_document_node(l: Layout, s: Seq<u8>, a: int, m: YamlModel)
    requires
        layout::is_sound(l),
        is_tame(m),
        layout::reach(l, builder::depth(m)) <= usize::MAX,
        standing::stands(s, a, layout::body(l, m, 0)),
        standing::closed(s, a + standing::size(layout::body(l, m, 0)), 0),
        a == 0 || standing::feed_at(s, a - 1),
    ensures
        gathering::yields(
            grammar::block_node(s, a, 0, 0),
            standing::size(layout::body(l, m, 0)) + extra(
                s,
                a + standing::size(layout::body(l, m, 0)),
                0,
                m,
            ),
            m,
        ),
        extra(s, a + standing::size(layout::body(l, m, 0)), 0, m) == 0 ==> grammar::block_node(
            s,
            a,
            0,
            0,
        ).elems == seq![shapes::root_tree(l, m)],
{
    let b = layout::body(l, m, 0);
    let e = a + standing::size(b);
    lemma_closed_more(s, e, 0, 1);
    standing::lemma_ends(s, e, 1);
    lemma_document_start(l, s, a, m);
    if layout::is_tall(m) {
        assert(text::spaces(0) + b =~= b);
        let d = (builder::depth(m) - 1) as nat;
        layout::lemma_reach(l, d, d);
        lemma_block(l, s, a, m, 0, 0);
    } else {
        assert(standing::line_at(s, a, 0));
        standing::lemma_line(s, a, 0);
        if m is List {
            assert(m->List_0 =~= seq![]);
            lemma_empty_list(s, a);
            lemma_behind_none(grammar::flow_sequence(s, a));
        } else if m is Dict {
            assert(m->Dict_0 =~= seq![]);
            lemma_empty_dict(s, a);
            lemma_behind_none(grammar::flow_mapping(s, a));
        } else {
            leaves::lemma_leaf(m);
            emitting::lemma_scalar_hint(s, a, b);
            emitting::lemma_value_scalar(s, a, b, 0, 0);
            lemma_scalar_yields(m);
        }
    }
}

/// A value whose text has its collections indented by any number of columns, the
/// lists of mappings among them or at the column of their keys, and lists in lists on
/// lines of their own or beside their dashes, is read back from
/// that text: it has no error, its tree is the one with these parts, and its value is
/// the value.
#[verifier::spinoff_prover]
#[verifier::rlimit(100)]
pub proof fn lemma_layout_survives(l: Layout, m: YamlModel)
    requires
        layout::is_sound(l),
        is_tame(m),
        layout::reach(l, builder::depth(m)) <= usize::MAX,
    ensures
        ({
            let r = grammar::stream(encode_utf8(layout::body(l, m, 0) + seq!['\n']));
            &&& r.fault is None
            &&& r.elems.len() == 1
            &&& r.elems[0] == shapes::stream_tree(l, m)
            &&& read::single_model(r.elems[0]) == Ok::<YamlModel, Seq<char>>(m)
        }),
{
    let b = layout::body(l, m, 0);
    let none = Seq::<char>::empty();
    let s = encode_utf8(b + seq!['\n']);
    assert(s.subrange(0, s.len() as int) =~= s);
    standing::lemma_parts(s, 0, b, seq!['\n']);
    let e = standing::size(b);
    assert(seq!['\n'] =~= seq!['\n'] + none);
    standing::lemma_first(s, e, '\n', none);
    assert(standing::size(none) == 0);
    assert(standing::last_line(s, e));
    lemma_document_start(l, s, 0, m);
    lemma_document_node(l, s, 0, m);
    standing::lemma_last_line(s, e);
    assert(standing::line_at(s, 0, 0));
    standing::lemma_line(s, 0, 0);
    lemma_one_document(s, e, m);
    shapes::lemma_token(s, e, SyntaxKind::NEWLINE, '\n');
    let t = one_document(grammar::block_node(s, 0, 0, 0), standing::break_token(s, e));
    assert(t.children() =~= shapes::stream_tree(l, m).children());
}

/// A value that was written as a text and is read back from it is the same. The
/// text has no error. Left out are numbers that are written in other words.
pub proof fn lemma_value_survives(m: YamlModel)
    requires
        is_tame(m),
        2 * builder::depth(m) <= usize::MAX,
    ensures
        ({
            let r = grammar::stream(encode_utf8(builder::yaml_text(m)));
            &&& r.fault is None
            &&& r.elems.len() == 1
            &&& read::single_model(r.elems[0]) == Ok::<YamlModel, Seq<char>>(m)
        }),
{
    lemma_body_end(layout::two(), m, 0);
    layout::lemma_yaml_text(m);
    lemma_layout_survives(layout::two(), m);
}

/// The tree of a document, and of the line break behind it.
pub open spec fn one_document(r: Parsed, t: Parsed) -> Tree {
    Tree::Node {
        kind: SyntaxKind::STREAM.code(),
        children: seq![
            Tree::Node { kind: SyntaxKind::DOCUMENT.code(), children: r.elems },
        ] + t.elems,
    }
}

/// A text that is one document.
#[verifier::spinoff_prover]
#[verifier::rlimit(80)]
pub proof fn lemma_one_document(s: Seq<u8>, e: int, m: YamlModel)
    requires
        standing::last_line(s, e),
        grammar::trivia(s, e) == standing::break_token(s, e),
        !grammar::any_marker(s, 0),
        !grammar::at(s, 0, SyntaxKind::BOM),
        !grammar::at(s, 0, SyntaxKind::DIRECTIVE),
        grammar::trivia(s, 0) == grammar::none(),
        lexer::column_of(s, 0) == 0,
        gathering::yields(grammar::block_node(s, 0, 0, 0), e, m),
    ensures
        grammar::stream(s).fault is None,
        grammar::stream(s).elems == seq![
            one_document(grammar::block_node(s, 0, 0, 0), standing::break_token(s, e)),
        ],
        read::single_model(grammar::stream(s).elems[0]) == Ok::<YamlModel, Seq<char>>(m),
{
    let r = grammar::block_node(s, 0, 0, 0);
    assert(grammar::document_body(s, 0) == r) by {
        reveal(grammar::document_body);
    }
    let d = grammar::wrap(SyntaxKind::DOCUMENT, r);
    let t = standing::break_token(s, e);
    let all = grammar::cat(d, t);
    assert(!grammar::end_marker(s, e + 1)) by {
        reveal(grammar::line_marker);
    }
    assert(grammar::document_end(s, 0, d) == all);
    lemma_behind_none(all);
    assert(grammar::document(s, 0, true) == all) by {
        reveal(grammar::document);
    }
    assert(grammar::documents(s, 0, true) == all) by {
        reveal(grammar::documents);
        assert(grammar::documents(s, e + 1, false) == grammar::none());
    }
    lemma_behind_none(grammar::none());
    assert(grammar::stream(s) == grammar::wrap(SyntaxKind::STREAM, all));
    lemma_document_model(d.elems[0], t.elems[0], r, e, m);
    let tree = grammar::stream(s).elems[0];
    assert(tree.children() =~= seq![d.elems[0], t.elems[0]]);
}

/// What a document stands for.
proof fn lemma_document_model(d: Tree, t: Tree, r: Parsed, e: int, m: YamlModel)
    requires
        gathering::yields(r, e, m),
        d == (Tree::Node { kind: SyntaxKind::DOCUMENT.code(), children: r.elems }),
        t is Token,
    ensures
        read::single_model(
            Tree::Node { kind: SyntaxKind::STREAM.code(), children: seq![d, t] },
        ) == Ok::<YamlModel, Seq<char>>(m),
{
    let cs = seq![d, t];
    gathering::lemma_one_place(cs, nodes::typed::<Document>(), 0);
    let ds = r.elems;
    assert forall|i: int|
        0 <= i < ds.len() && i != ds.len() - 1 implies !nodes::typed::<Node>()(#[trigger] ds[i]) by {
        assert(r.elems.drop_last()[i] is Token);
    }
    gathering::lemma_one_place(ds, nodes::typed::<Node>(), ds.len() - 1);
}

} // verus!

//! A value that was written in brackets and braces is read back.

use vstd::prelude::*;
use vstd::utf8::*;

use crate::builder;
use crate::builder::read;
use crate::builder::YamlModel;
use crate::grammar;
use crate::grammar::Parsed;
use crate::laws::emitting;
use crate::laws::gathering;
use crate::laws::layout;
use crate::laws::leaves;
use crate::laws::standing;
use crate::laws::surviving;
use crate::lexer;
use crate::lexer::PlainStop;
use crate::syntax::kind::SyntaxKind;

verus! {

broadcast use vstd::utf8::encode_utf8_valid_utf8;

// ---- Texts ----

/// The text of a value on one line, with its collections in brackets and braces.
pub open spec fn flow_text(m: YamlModel) -> Seq<char>
    decreases m, 3nat, 0nat,
{
    match m {
        YamlModel::List(items) if items.len() > 0 => seq!['['] + flow_items(items, 0),
        YamlModel::Dict(pairs) if pairs.len() > 0 => seq!['{'] + flow_pairs(pairs, 0),
        _ => layout::leaf_text(m),
    }
}

/// The items from `i` on, and the bracket that closes them.
pub open spec fn flow_items(items: Seq<YamlModel>, i: int) -> Seq<char>
    decreases items, 1nat, items.len() - i,
{
    if 0 <= i < items.len() - 1 {
        flow_text(items[i]) + (seq![',', ' '] + flow_items(items, i + 1))
    } else if 0 <= i < items.len() {
        flow_text(items[i]) + seq![']']
    } else {
        seq![]
    }
}

/// The pairs from `i` on, and the brace that closes them.
pub open spec fn flow_pairs(pairs: Seq<layout::Pair>, i: int) -> Seq<char>
    decreases pairs, 1nat, pairs.len() - i,
{
    if 0 <= i < pairs.len() - 1 {
        builder::string_text(pairs[i].0) + (seq![':', ' '] + (flow_text(pairs[i].1) + (seq![',', ' ']
            + flow_pairs(pairs, i + 1))))
    } else if 0 <= i < pairs.len() {
        builder::string_text(pairs[i].0) + (seq![':', ' '] + (flow_text(pairs[i].1) + seq!['}']))
    } else {
        seq![]
    }
}

/// Whether the text of a scalar can stand in brackets: it is in quotes, or holds
/// nothing that ends an item.
pub open spec fn flow_scalar(w: Seq<char>) -> bool {
    emitting::in_quotes(w) || emitting::unbroken(w, true)
}

/// Whether a value is read back as it is written in brackets, at all depths.
pub open spec fn flows(m: YamlModel) -> bool
    decreases m,
{
    match m {
        YamlModel::List(items) => forall|i: int| 0 <= i < items.len() ==> flows(#[trigger] items[i]),
        YamlModel::Dict(pairs) => forall|i: int|
            0 <= i < pairs.len() ==> flow_scalar(builder::string_text((#[trigger] pairs[i]).0))
                && flows(pairs[i].1),
        _ => leaves::is_tame_leaf(m) && flow_scalar(layout::leaf_text(m)),
    }
}

// ---- Marks ----

/// The bytes that end an item, a key or a collection are no trivia.
proof fn lemma_mark(s: Seq<u8>, p: int)
    requires
        0 <= p < s.len(),
        s[p] == 0x2c || s[p] == 0x5d || s[p] == 0x7d || s[p] == 0x3a,
    ensures
        grammar::trivia(s, p) == grammar::none(),
        grammar::inline_trivia(s, p) == grammar::none(),
        grammar::at(s, p, SyntaxKind::COMMA) == (s[p] == 0x2c),
        grammar::at(s, p, SyntaxKind::R_BRACKET) == (s[p] == 0x5d),
        grammar::at(s, p, SyntaxKind::R_BRACE) == (s[p] == 0x7d),
{
    reveal(lexer::hint_of);
    reveal(grammar::trivia);
    reveal(grammar::inline_trivia);
}

/// One space before content.
proof fn lemma_space(s: Seq<u8>, p: int)
    requires
        0 <= p,
        p + 1 < s.len(),
        s[p] == 0x20,
        standing::solid(s[p + 1]),
    ensures
        grammar::trivia(s, p) == surviving::space_token(s, p),
{
    reveal(lexer::hint_of);
    reveal(grammar::trivia);
    reveal(grammar::simple);
    assert(standing::blank_between(s, p, p + 1));
    standing::lemma_run(s, p, p + 1);
    assert(grammar::trivia(s, p + 1) == grammar::none());
    surviving::lemma_behind_none(surviving::space_token(s, p));
}

/// What the text of a value begins with.
proof fn lemma_flow_start(s: Seq<u8>, p: int, m: YamlModel)
    requires
        flows(m),
        standing::stands(s, p, flow_text(m)),
        !lexer::byte_is(s, p + standing::size(flow_text(m)), 0x27),
    ensures
        0 <= p < s.len(),
        standing::solid(s[p]),
        s[p] != 0x5d && s[p] != 0x7d,
        grammar::trivia(s, p) == grammar::none(),
        !grammar::property_at(s, p),
        !grammar::at(s, p, SyntaxKind::R_BRACKET),
        !grammar::at(s, p, SyntaxKind::R_BRACE),
        !grammar::at(s, p, SyntaxKind::QUESTION),
        grammar::at(s, p, SyntaxKind::L_BRACKET) == (m is List),
        grammar::at(s, p, SyntaxKind::L_BRACE) == (m is Dict),
        grammar::scalar_at(s, p) == !(m is List || m is Dict),
{
    reveal(lexer::hint_of);
    reveal(grammar::trivia);
    match m {
        YamlModel::List(items) => {
            if items.len() > 0 {
                standing::lemma_first(s, p, '[', flow_items(items, 0));
            } else {
                reveal_strlit("[]");
                assert("[]"@ =~= seq!['['] + seq![']']);
                standing::lemma_first(s, p, '[', seq![']']);
            }
        },
        YamlModel::Dict(pairs) => {
            if pairs.len() > 0 {
                standing::lemma_first(s, p, '{', flow_pairs(pairs, 0));
            } else {
                reveal_strlit("{}");
                assert("{}"@ =~= seq!['{'] + seq!['}']);
                standing::lemma_first(s, p, '{', seq!['}']);
            }
        },
        _ => {
            leaves::lemma_leaf(m);
            emitting::lemma_scalar_hint(s, p, layout::leaf_text(m));
        },
    }
}

// ---- Scalars ----

/// The node of a scalar in brackets.
proof fn lemma_flow_scalar(s: Seq<u8>, p: int, w: Seq<char>, stop: PlainStop)
    requires
        standing::stands(s, p, w),
        emitting::is_scalar_text(w),
        flow_scalar(w),
        stop == PlainStop::FlowKey || stop == PlainStop::FlowValue,
        p + standing::size(w) < s.len(),
        lexer::is_flow_end(s[p + standing::size(w)]) || (stop == PlainStop::FlowKey
            && lexer::flow_colon(s, p + standing::size(w))),
    ensures
        grammar::scalar_node(s, p, stop, None) == emitting::scalar_parsed(w),
        grammar::scalar_at(s, p),
        grammar::quoted_at(s, p) == emitting::in_quotes(w),
        !grammar::property_at(s, p),
{
    reveal(grammar::scalar_node);
    reveal(grammar::quoted_token);
    reveal(grammar::plain_token);
    let e = p + standing::size(w);
    emitting::lemma_scalar_hint(s, p, w);
    emitting::lemma_quotes(w);
    standing::lemma_chars(s, p, w);
    if emitting::in_quotes(w) {
        assert(grammar::wrap(SyntaxKind::SCALAR, grammar::quoted_token(s, p))
            == emitting::scalar_parsed(w));
    } else {
        assert(emitting::unbroken(w, false));
        emitting::lemma_last_byte(s, p, w);
        emitting::lemma_stop_at_end(s, p, w, p, stop, true);
        assert(lexer::trim_end(s, p, e) == e);
        assert(lexer::plain_end(s, p, stop, None) == e);
        assert(grammar::wrap(
            SyntaxKind::SCALAR,
            grammar::token(s, p, SyntaxKind::PLAIN_SCALAR, (e - p) as nat),
        ) == emitting::scalar_parsed(w));
    }
}

/// Whether an item or a collection ends at `e`.
pub open spec fn item_ends(s: Seq<u8>, e: int) -> bool {
    e < s.len() && lexer::is_flow_end(s[e])
}

/// A scalar in brackets stands for its value, as an item and as the value of a pair.
proof fn lemma_leaf_item(s: Seq<u8>, p: int, m: YamlModel)
    requires
        flows(m),
        !(m is List),
        !(m is Dict),
        standing::stands(s, p, layout::leaf_text(m)),
        item_ends(s, p + standing::size(layout::leaf_text(m))),
    ensures
        gathering::yields(
            grammar::flow_sequence_value(s, p),
            standing::size(layout::leaf_text(m)),
            m,
        ),
        gathering::yields(
            grammar::scalar_node(s, p, PlainStop::FlowValue, None),
            standing::size(layout::leaf_text(m)),
            m,
        ),
{
    let w = layout::leaf_text(m);
    let e = p + standing::size(w);
    leaves::lemma_leaf(m);
    lemma_flow_scalar(s, p, w, PlainStop::FlowKey);
    lemma_flow_scalar(s, p, w, PlainStop::FlowValue);
    lemma_mark(s, e);
    let r = emitting::scalar_parsed(w);
    surviving::lemma_behind_none(r);
    surviving::lemma_scalar_yields(m);
    assert(flow_text(m) == w);
    lemma_flow_start(s, p, m);
    assert(grammar::flow_sequence_value(s, p) == r);
}

// ---- Collections ----

/// Whether all items are read back.
pub open spec fn flowing_items(items: Seq<YamlModel>) -> bool {
    forall|i: int| 0 <= i < items.len() ==> flows(#[trigger] items[i])
}

/// Whether all keys and values are read back.
pub open spec fn flowing_pairs(pairs: Seq<layout::Pair>) -> bool {
    forall|i: int|
        0 <= i < pairs.len() ==> flow_scalar(builder::string_text((#[trigger] pairs[i]).0))
            && flows(pairs[i].1)
}

/// A collection in brackets or braces.
proof fn lemma_collection(s: Seq<u8>, p: int, m: YamlModel)
    requires
        flows(m),
        m is List || m is Dict,
        standing::stands(s, p, flow_text(m)),
    ensures
        m is List ==> gathering::yields(
            grammar::flow_sequence(s, p),
            standing::size(flow_text(m)),
            m,
        ),
        m is Dict ==> gathering::yields(
            grammar::flow_mapping(s, p),
            standing::size(flow_text(m)),
            m,
        ),
    decreases m, 3nat, 0int,
{
    match m {
        YamlModel::List(items) => {
            if items.len() > 0 {
                lemma_brackets(s, p, items);
            } else {
                assert(items =~= seq![]);
                surviving::lemma_empty_list(s, p);
            }
        },
        YamlModel::Dict(pairs) => {
            if pairs.len() > 0 {
                lemma_braces(s, p, pairs);
            } else {
                assert(pairs =~= seq![]);
                surviving::lemma_empty_dict(s, p);
            }
        },
        _ => {},
    }
}

/// An item of a sequence in brackets.
proof fn lemma_item_value(s: Seq<u8>, p: int, m: YamlModel)
    requires
        flows(m),
        standing::stands(s, p, flow_text(m)),
        item_ends(s, p + standing::size(flow_text(m))),
    ensures
        gathering::yields(
            grammar::flow_sequence_value(s, p),
            standing::size(flow_text(m)),
            m,
        ),
    decreases m, 4nat, 0int,
{
    lemma_flow_start(s, p, m);
    if m is List || m is Dict {
        lemma_collection(s, p, m);
    } else {
        lemma_leaf_item(s, p, m);
    }
}

/// The value of a pair in braces, behind the colon and a space.
proof fn lemma_pair_value(s: Seq<u8>, p: int, m: YamlModel)
    requires
        flows(m),
        0 <= p < s.len(),
        s[p] == 0x20,
        standing::stands(s, p + 1, flow_text(m)),
        item_ends(s, p + 1 + standing::size(flow_text(m))),
    ensures
        gathering::yields(grammar::flow_value(s, p), 1 + standing::size(flow_text(m)), m),
    decreases m, 4nat, 0int,
{
    lemma_flow_start(s, p + 1, m);
    lemma_space(s, p);
    let a = surviving::space_token(s, p);
    assert(gathering::all_tokens(a.elems));
    let len = standing::size(flow_text(m));
    if m is List {
        lemma_collection(s, p + 1, m);
        surviving::lemma_behind_token(a, grammar::flow_sequence(s, p + 1), len, m);
    } else if m is Dict {
        lemma_collection(s, p + 1, m);
        surviving::lemma_behind_token(a, grammar::flow_mapping(s, p + 1), len, m);
    } else {
        lemma_leaf_item(s, p + 1, m);
        surviving::lemma_behind_token(
            a,
            grammar::scalar_node(s, p + 1, PlainStop::FlowValue, None),
            len,
            m,
        );
    }
    reveal(lexer::hint_of);
    assert(!grammar::at(s, p + 1, SyntaxKind::ALIAS));
}

/// A sequence in brackets.
#[verifier::spinoff_prover]
#[verifier::rlimit(80)]
proof fn lemma_brackets(s: Seq<u8>, p: int, items: Seq<YamlModel>)
    requires
        items.len() > 0,
        flowing_items(items),
        standing::stands(s, p, seq!['['] + flow_items(items, 0)),
    ensures
        gathering::yields(
            grammar::flow_sequence(s, p),
            standing::size(seq!['['] + flow_items(items, 0)),
            YamlModel::List(items),
        ),
    decreases items, 2nat, 0int,
{
    let kind = SyntaxKind::FLOW_SEQUENCE_ENTRY;
    standing::lemma_first(s, p, '[', flow_items(items, 0));
    lemma_items_start(s, p + 1, items, 0);
    lemma_items(s, p + 1, items, 0);
    let a = grammar::token(s, p, SyntaxKind::L_BRACKET, 1);
    surviving::lemma_behind_none(a);
    let rest = grammar::flow_sequence_items(s, p + 1);
    let all = grammar::cat(a, rest);
    let r = grammar::flow_sequence(s, p);
    assert(r == grammar::wrap(SyntaxKind::FLOW_SEQUENCE, all));
    gathering::lemma_tokens(a.elems, kind);
    gathering::lemma_items_add(a.elems, rest.elems, kind, seq![], items.skip(0));
    assert(Seq::<YamlModel>::empty() + items.skip(0) =~= items);
    gathering::lemma_list(SyntaxKind::FLOW_SEQUENCE, all.elems, items);
    assert(r.elems.drop_last() =~= seq![]);
}

/// What items begin with, and what stands behind the first.
proof fn lemma_items_start(s: Seq<u8>, p: int, items: Seq<YamlModel>, i: int)
    requires
        0 <= i < items.len(),
        flowing_items(items),
        standing::stands(s, p, flow_items(items, i)),
    ensures
        ({
            let m = items[i];
            let e = p + standing::size(flow_text(m));
            &&& standing::stands(s, p, flow_text(m))
            &&& item_ends(s, e)
            &&& 0 <= p < s.len()
            &&& standing::solid(s[p])
            &&& grammar::trivia(s, p) == grammar::none()
            &&& !grammar::property_at(s, p)
            &&& !grammar::at(s, p, SyntaxKind::R_BRACKET)
            &&& i + 1 < items.len() ==> s[e] == 0x2c && e + 1 < s.len() && s[e + 1] == 0x20
                && standing::stands(s, e + 2, flow_items(items, i + 1)) && standing::size(
                flow_items(items, i),
            ) == standing::size(flow_text(m)) + 2 + standing::size(flow_items(items, i + 1))
            &&& i + 1 == items.len() ==> s[e] == 0x5d && standing::size(flow_items(items, i))
                == standing::size(flow_text(m)) + 1
        }),
{
    let m = items[i];
    let e = p + standing::size(flow_text(m));
    let none = Seq::<char>::empty();
    assert(standing::size(none) == 0);
    if i + 1 < items.len() {
        let more = flow_items(items, i + 1);
        standing::lemma_parts(s, p, flow_text(m), seq![',', ' '] + more);
        assert(seq![',', ' '] + more =~= seq![','] + (seq![' '] + more));
        standing::lemma_first(s, e, ',', seq![' '] + more);
        standing::lemma_first(s, e + 1, ' ', more);
    } else {
        standing::lemma_parts(s, p, flow_text(m), seq![']']);
        assert(seq![']'] =~= seq![']'] + none);
        standing::lemma_first(s, e, ']', none);
    }
    lemma_flow_start(s, p, m);
}

/// The items of a sequence in brackets, and the bracket that closes them.
#[verifier::spinoff_prover]
#[verifier::rlimit(100)]
proof fn lemma_items(s: Seq<u8>, p: int, items: Seq<YamlModel>, i: int)
    requires
        0 <= i < items.len(),
        flowing_items(items),
        standing::stands(s, p, flow_items(items, i)),
    ensures
        ({
            let r = grammar::flow_sequence_items(s, p);
            &&& r.fault is None
            &&& r.len == standing::size(flow_items(items, i))
            &&& gathering::items_are(r.elems, SyntaxKind::FLOW_SEQUENCE_ENTRY, items.skip(i))
        }),
    decreases items, 1nat, items.len() - i,
{
    let kind = SyntaxKind::FLOW_SEQUENCE_ENTRY;
    let none = Seq::<crate::syntax::green::Tree>::empty();
    let m = items[i];
    let n = standing::size(flow_text(m));
    let e = p + n;
    lemma_items_start(s, p, items, i);
    lemma_item_value(s, p, m);
    lemma_mark(s, e);
    let v = grammar::flow_sequence_value(s, p);
    surviving::lemma_behind_none(v);
    let entry = grammar::flow_sequence_entry(s, p);
    assert(entry == grammar::wrap(kind, v));
    gathering::lemma_item(kind, none, v, n, m);
    assert(gathering::item_tree(kind, none, v).children() =~= v.elems);
    assert(entry.elems =~= seq![gathering::item_tree(kind, none, v)]);
    surviving::lemma_behind_none(entry);
    if i + 1 < items.len() {
        lemma_items_start(s, e + 2, items, i + 1);
        lemma_space(s, e + 1);
        lemma_items(s, e + 2, items, i + 1);
        let c = grammar::token(s, e, SyntaxKind::COMMA, 1);
        let w = surviving::space_token(s, e + 1);
        let rest = grammar::flow_sequence_items(s, e + 2);
        let r = grammar::flow_sequence_items(s, p);
        assert(r == grammar::cat(grammar::cat(grammar::cat(entry, c), w), rest));
        lemma_gather_items(entry, c, w, rest, items, i);
    } else {
        let c = grammar::token(s, e, SyntaxKind::R_BRACKET, 1);
        let r = grammar::flow_sequence_items(s, p);
        assert(r == grammar::cat(entry, c));
        gathering::lemma_tokens(c.elems, kind);
        gathering::lemma_items_add(entry.elems, c.elems, kind, seq![m], seq![]);
        assert(seq![m] + Seq::<YamlModel>::empty() =~= items.skip(i));
    }
}

/// The items of an entry, a comma, a space and the entries behind them.
proof fn lemma_gather_items(
    entry: Parsed,
    c: Parsed,
    w: Parsed,
    rest: Parsed,
    items: Seq<YamlModel>,
    i: int,
)
    requires
        0 <= i < items.len(),
        entry.fault is None && c.fault is None && w.fault is None,
        gathering::all_tokens(c.elems),
        gathering::all_tokens(w.elems),
        gathering::items_are(entry.elems, SyntaxKind::FLOW_SEQUENCE_ENTRY, seq![items[i]]),
        gathering::items_are(rest.elems, SyntaxKind::FLOW_SEQUENCE_ENTRY, items.skip(i + 1)),
    ensures
        gathering::items_are(
            grammar::cat(grammar::cat(grammar::cat(entry, c), w), rest).elems,
            SyntaxKind::FLOW_SEQUENCE_ENTRY,
            items.skip(i),
        ),
{
    let kind = SyntaxKind::FLOW_SEQUENCE_ENTRY;
    let one = seq![items[i]];
    let none = Seq::<YamlModel>::empty();
    gathering::lemma_tokens(c.elems, kind);
    gathering::lemma_tokens(w.elems, kind);
    gathering::lemma_items_add(entry.elems, c.elems, kind, one, none);
    assert(one + none =~= one);
    gathering::lemma_items_add(entry.elems + c.elems, w.elems, kind, one, none);
    gathering::lemma_items_add(
        entry.elems + c.elems + w.elems,
        rest.elems,
        kind,
        one,
        items.skip(i + 1),
    );
    assert(one + items.skip(i + 1) =~= items.skip(i));
}

/// A mapping in braces.
#[verifier::spinoff_prover]
#[verifier::rlimit(80)]
proof fn lemma_braces(s: Seq<u8>, p: int, pairs: Seq<layout::Pair>)
    requires
        pairs.len() > 0,
        flowing_pairs(pairs),
        standing::stands(s, p, seq!['{'] + flow_pairs(pairs, 0)),
    ensures
        gathering::yields(
            grammar::flow_mapping(s, p),
            standing::size(seq!['{'] + flow_pairs(pairs, 0)),
            YamlModel::Dict(pairs),
        ),
    decreases pairs, 2nat, 0int,
{
    let kind = SyntaxKind::FLOW_MAPPING_ENTRY;
    standing::lemma_first(s, p, '{', flow_pairs(pairs, 0));
    lemma_pairs_start(s, p + 1, pairs, 0);
    lemma_pairs(s, p + 1, pairs, 0);
    let a = grammar::token(s, p, SyntaxKind::L_BRACE, 1);
    surviving::lemma_behind_none(a);
    let rest = grammar::flow_mapping_items(s, p + 1);
    let all = grammar::cat(a, rest);
    let r = grammar::flow_mapping(s, p);
    assert(r == grammar::wrap(SyntaxKind::FLOW_MAPPING, all));
    gathering::lemma_tokens(a.elems, kind);
    gathering::lemma_pairs_add(a.elems, rest.elems, kind, seq![], pairs.skip(0));
    assert(Seq::<layout::Pair>::empty() + pairs.skip(0) =~= pairs);
    gathering::lemma_dict(SyntaxKind::FLOW_MAPPING, all.elems, pairs);
    assert(r.elems.drop_last() =~= seq![]);
}

/// What pairs begin with, and what stands behind the first.
proof fn lemma_pairs_start(s: Seq<u8>, p: int, pairs: Seq<layout::Pair>, i: int)
    requires
        0 <= i < pairs.len(),
        flowing_pairs(pairs),
        standing::stands(s, p, flow_pairs(pairs, i)),
    ensures
        ({
            let w = builder::string_text(pairs[i].0);
            let m = pairs[i].1;
            let q = p + standing::size(w);
            let e = q + 2 + standing::size(flow_text(m));
            &&& emitting::is_scalar_text(w)
            &&& standing::stands(s, p, w)
            &&& q + 1 < s.len()
            &&& s[q] == 0x3a
            &&& s[q + 1] == 0x20
            &&& standing::stands(s, q + 2, flow_text(m))
            &&& item_ends(s, e)
            &&& 0 <= p < s.len()
            &&& standing::solid(s[p])
            &&& grammar::trivia(s, p) == grammar::none()
            &&& !grammar::property_at(s, p)
            &&& !grammar::at(s, p, SyntaxKind::R_BRACE)
            &&& !grammar::at(s, p, SyntaxKind::L_BRACE)
            &&& !grammar::at(s, p, SyntaxKind::L_BRACKET)
            &&& !grammar::at(s, p, SyntaxKind::QUESTION)
            &&& i + 1 < pairs.len() ==> s[e] == 0x2c && e + 1 < s.len() && s[e + 1] == 0x20
                && standing::stands(s, e + 2, flow_pairs(pairs, i + 1)) && standing::size(
                flow_pairs(pairs, i),
            ) == standing::size(w) + 2 + standing::size(flow_text(m)) + 2 + standing::size(
                flow_pairs(pairs, i + 1),
            )
            &&& i + 1 == pairs.len() ==> s[e] == 0x7d && standing::size(flow_pairs(pairs, i))
                == standing::size(w) + 2 + standing::size(flow_text(m)) + 1
        }),
{
    let w = builder::string_text(pairs[i].0);
    let m = pairs[i].1;
    let q = p + standing::size(w);
    let e = q + 2 + standing::size(flow_text(m));
    let none = Seq::<char>::empty();
    assert(standing::size(none) == 0);
    leaves::lemma_text(pairs[i].0);
    let tail = if i + 1 < pairs.len() {
        seq![',', ' '] + flow_pairs(pairs, i + 1)
    } else {
        seq!['}']
    };
    let value = flow_text(m) + tail;
    standing::lemma_parts(s, p, w, seq![':', ' '] + value);
    assert(seq![':', ' '] + value =~= seq![':'] + (seq![' '] + value));
    standing::lemma_first(s, q, ':', seq![' '] + value);
    standing::lemma_first(s, q + 1, ' ', value);
    standing::lemma_parts(s, q + 2, flow_text(m), tail);
    if i + 1 < pairs.len() {
        let more = flow_pairs(pairs, i + 1);
        assert(tail =~= seq![','] + (seq![' '] + more));
        standing::lemma_first(s, e, ',', seq![' '] + more);
        standing::lemma_first(s, e + 1, ' ', more);
    } else {
        assert(tail =~= seq!['}'] + none);
        standing::lemma_first(s, e, '}', none);
    }
    emitting::lemma_scalar_hint(s, p, w);
    reveal(lexer::hint_of);
    reveal(grammar::trivia);
}

/// An entry of a mapping in braces.
#[verifier::spinoff_prover]
#[verifier::rlimit(100)]
proof fn lemma_pair_entry(s: Seq<u8>, p: int, pairs: Seq<layout::Pair>, i: int)
    requires
        0 <= i < pairs.len(),
        flowing_pairs(pairs),
        standing::stands(s, p, flow_pairs(pairs, i)),
    ensures
        ({
            let r = grammar::flow_mapping_entry(s, p);
            &&& r.fault is None
            &&& r.len == standing::size(builder::string_text(pairs[i].0)) + 2 + standing::size(
                flow_text(pairs[i].1),
            )
            &&& gathering::pairs_are(r.elems, SyntaxKind::FLOW_MAPPING_ENTRY, seq![pairs[i]])
        }),
    decreases pairs, 0nat, 0int,
{
    let kind = SyntaxKind::FLOW_MAPPING_ENTRY;
    let none = Seq::<crate::syntax::green::Tree>::empty();
    let x = pairs[i].0;
    let m = pairs[i].1;
    let w = builder::string_text(x);
    let q = p + standing::size(w);
    let n = standing::size(flow_text(m));
    lemma_pairs_start(s, p, pairs, i);
    lemma_flow_scalar(s, p, w, PlainStop::FlowKey);
    lemma_mark(s, q);
    lemma_pair_value(s, q + 1, m);
    lemma_mark(s, q + 2 + n);
    leaves::lemma_text(x);
    let k = emitting::scalar_parsed(w);
    surviving::lemma_behind_none(k);
    let colon = grammar::token(s, q, SyntaxKind::COLON, 1);
    let v = grammar::flow_value(s, q + 1);
    let body = grammar::cat(grammar::cat(k, colon), v);
    assert(grammar::flow_pair(s, p) == body);
    surviving::lemma_behind_none(body);
    assert(grammar::flow_entry_body(s, p) == body);
    let r = grammar::flow_mapping_entry(s, p);
    assert(r == grammar::wrap(kind, body));
    gathering::lemma_pair(kind, none, w, x, colon.elems[0], v, 1 + n, m);
    let tree = gathering::pair_tree(kind, none, w, colon.elems[0], v);
    assert(tree.children() =~= body.elems);
    assert(r.elems =~= seq![tree]);
}

/// The entries of a mapping in braces, and the brace that closes them.
#[verifier::spinoff_prover]
#[verifier::rlimit(100)]
proof fn lemma_pairs(s: Seq<u8>, p: int, pairs: Seq<layout::Pair>, i: int)
    requires
        0 <= i < pairs.len(),
        flowing_pairs(pairs),
        standing::stands(s, p, flow_pairs(pairs, i)),
    ensures
        ({
            let r = grammar::flow_mapping_items(s, p);
            &&& r.fault is None
            &&& r.len == standing::size(flow_pairs(pairs, i))
            &&& gathering::pairs_are(r.elems, SyntaxKind::FLOW_MAPPING_ENTRY, pairs.skip(i))
        }),
    decreases pairs, 1nat, pairs.len() - i,
{
    let kind = SyntaxKind::FLOW_MAPPING_ENTRY;
    let w = builder::string_text(pairs[i].0);
    let e = p + standing::size(w) + 2 + standing::size(flow_text(pairs[i].1));
    lemma_pairs_start(s, p, pairs, i);
    lemma_pair_entry(s, p, pairs, i);
    lemma_mark(s, e);
    let entry = grammar::flow_mapping_entry(s, p);
    surviving::lemma_behind_none(entry);
    if i + 1 < pairs.len() {
        lemma_pairs_start(s, e + 2, pairs, i + 1);
        lemma_space(s, e + 1);
        lemma_pairs(s, e + 2, pairs, i + 1);
        let c = grammar::token(s, e, SyntaxKind::COMMA, 1);
        let sp = surviving::space_token(s, e + 1);
        let rest = grammar::flow_mapping_items(s, e + 2);
        let r = grammar::flow_mapping_items(s, p);
        assert(r == grammar::cat(grammar::cat(grammar::cat(entry, c), sp), rest));
        lemma_gather_pairs(entry, c, sp, rest, pairs, i);
    } else {
        let c = grammar::token(s, e, SyntaxKind::R_BRACE, 1);
        let r = grammar::flow_mapping_items(s, p);
        assert(r == grammar::cat(entry, c));
        gathering::lemma_tokens(c.elems, kind);
        gathering::lemma_pairs_add(entry.elems, c.elems, kind, seq![pairs[i]], seq![]);
        assert(seq![pairs[i]] + Seq::<layout::Pair>::empty() =~= pairs.skip(i));
    }
}

/// The pairs of an entry, a comma, a space and the entries behind them.
proof fn lemma_gather_pairs(
    entry: Parsed,
    c: Parsed,
    w: Parsed,
    rest: Parsed,
    pairs: Seq<layout::Pair>,
    i: int,
)
    requires
        0 <= i < pairs.len(),
        entry.fault is None && c.fault is None && w.fault is None,
        gathering::all_tokens(c.elems),
        gathering::all_tokens(w.elems),
        gathering::pairs_are(entry.elems, SyntaxKind::FLOW_MAPPING_ENTRY, seq![pairs[i]]),
        gathering::pairs_are(rest.elems, SyntaxKind::FLOW_MAPPING_ENTRY, pairs.skip(i + 1)),
    ensures
        gathering::pairs_are(
            grammar::cat(grammar::cat(grammar::cat(entry, c), w), rest).elems,
            SyntaxKind::FLOW_MAPPING_ENTRY,
            pairs.skip(i),
        ),
{
    let kind = SyntaxKind::FLOW_MAPPING_ENTRY;
    let one = seq![pairs[i]];
    let none = Seq::<layout::Pair>::empty();
    gathering::lemma_tokens(c.elems, kind);
    gathering::lemma_tokens(w.elems, kind);
    gathering::lemma_pairs_add(entry.elems, c.elems, kind, one, none);
    assert(one + none =~= one);
    gathering::lemma_pairs_add(entry.elems + c.elems, w.elems, kind, one, none);
    gathering::lemma_pairs_add(
        entry.elems + c.elems + w.elems,
        rest.elems,
        kind,
        one,
        pairs.skip(i + 1),
    );
    assert(one + pairs.skip(i + 1) =~= pairs.skip(i));
}

// ---- The laws ----

/// A list or mapping in brackets or braces is read back where it stands as the value
/// of a block mapping's entry, on the line of its key.
pub proof fn lemma_flow_value_of_entry(s: Seq<u8>, p: int, m: YamlModel, n: int)
    requires
        flows(m),
        m is List || m is Dict,
        standing::stands(s, p, seq![' '] + flow_text(m)),
        standing::feed_at(s, p + 1 + standing::size(flow_text(m))),
    ensures
        gathering::yields(grammar::entry_value(s, p, n), 1 + standing::size(flow_text(m)), m),
{
    standing::lemma_first(s, p, ' ', flow_text(m));
    lemma_flow_start(s, p + 1, m);
    lemma_collection(s, p + 1, m);
    reveal(grammar::inline_trivia);
    reveal(lexer::hint_of);
    assert(grammar::inline_trivia(s, p + 1) == grammar::none());
    surviving::lemma_value_head(s, p);
    let a = surviving::space_token(s, p);
    assert(gathering::all_tokens(a.elems));
    let len = standing::size(flow_text(m));
    if m is List {
        surviving::lemma_behind_token(a, grammar::flow_sequence(s, p + 1), len, m);
    } else {
        surviving::lemma_behind_token(a, grammar::flow_mapping(s, p + 1), len, m);
    }
}

/// A text of a list or mapping in brackets or braces, at all depths, is read back: it
/// has no error, and its value is the list or mapping.
pub proof fn lemma_flow_survives(m: YamlModel)
    requires
        flows(m),
        m is List || m is Dict,
    ensures
        ({
            let r = grammar::stream(encode_utf8(flow_text(m) + seq!['\n']));
            &&& r.fault is None
            &&& r.elems.len() == 1
            &&& read::single_model(r.elems[0]) == Ok::<YamlModel, Seq<char>>(m)
        }),
{
    let b = flow_text(m);
    let none = Seq::<char>::empty();
    let s = encode_utf8(b + seq!['\n']);
    assert(s.subrange(0, s.len() as int) =~= s);
    standing::lemma_parts(s, 0, b, seq!['\n']);
    let e = standing::size(b);
    assert(seq!['\n'] =~= seq!['\n'] + none);
    standing::lemma_first(s, e, '\n', none);
    assert(standing::size(none) == 0);
    assert(standing::last_line(s, e));
    lemma_flow_start(s, 0, m);
    lemma_collection(s, 0, m);
    standing::lemma_last_line(s, e);
    assert(standing::line_at(s, 0, 0));
    standing::lemma_line(s, 0, 0);
    reveal(lexer::hint_of);
    reveal(grammar::line_marker);
    assert(s[0] == 0x5b || s[0] == 0x7b);
    surviving::lemma_behind_none(grammar::flow_sequence(s, 0));
    surviving::lemma_behind_none(grammar::flow_mapping(s, 0));
    surviving::lemma_one_document(s, e, m);
}

} // verus!

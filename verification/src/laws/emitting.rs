//! Scalars that were written are found again where they stand.

use vstd::prelude::*;
use vstd::utf8::*;

use crate::ast::decode;
use crate::ast::value;
use crate::builder;
use crate::debug;
use crate::grammar;
use crate::grammar::Parsed;
use crate::laws::escaping;
use crate::laws::standing;
use crate::lexer;
use crate::lexer::{ByteClass, Closing, LexHint, PlainStop};
use crate::scripting::change;
use crate::syntax::green::Tree;
use crate::syntax::kind::SyntaxKind;
use crate::text;

verus! {

broadcast use vstd::utf8::encode_utf8_valid_utf8;

// ---- Plain scalars ----

/// Whether a text can begin a plain scalar.
pub open spec fn opens_plain(w: Seq<char>) -> bool {
    ||| !builder::leading_indicator(w[0]) && w[0] != '\u{feff}'
    ||| w[0] == '-' && w.len() > 1 && (value::is_decimal(w[1]) || w[1] == '.')
}

/// Whether a text is a plain scalar on one line.
pub open spec fn plain_text(w: Seq<char>) -> bool {
    &&& w.len() > 0
    &&& opens_plain(w)
    &&& forall|i: int|
        0 <= i < w.len() ==> #[trigger] w[i] != '\n' && w[i] != '\r' && w[i] != '\t'
    &&& w.last() != ' ' && w.last() != ':'
    &&& !text::has_pair(w, ':', ' ')
    &&& !text::has_pair(w, ' ', '#')
    &&& !builder::ends_document(w)
}

/// Whether nothing in a text ends a plain scalar: no line break, no mapping
/// indicator, no comment, no blank at the end and, in a flow collection, no end of
/// an item.
pub open spec fn unbroken(w: Seq<char>, flow: bool) -> bool {
    &&& w.len() > 0
    &&& !decode::is_blank_char(w.last())
    &&& forall|i: int| 0 <= i < w.len() ==> #[trigger] w[i] != '\n' && w[i] != '\r'
    &&& forall|i: int|
        0 <= i < w.len() && #[trigger] w[i] == ':' ==> i + 1 < w.len() && !lexer::is_white_char(
            w[i + 1],
        )
    &&& forall|i: int|
        0 <= i < w.len() - 1 && decode::is_blank_char(#[trigger] w[i]) ==> w[i + 1] != '#'
    &&& flow ==> forall|i: int|
        0 <= i < w.len() ==> #[trigger] w[i] != ',' && w[i] != '}' && w[i] != ']'
}

/// Nothing in the text of a plain scalar ends it.
pub proof fn lemma_unbroken(w: Seq<char>)
    requires
        plain_text(w),
    ensures
        unbroken(w, false),
{
    assert(w.last() == w[w.len() - 1]);
    assert forall|i: int| 0 <= i < w.len() && #[trigger] w[i] == ':' implies i + 1 < w.len()
        && !lexer::is_white_char(w[i + 1]) by {
        if i + 1 < w.len() {
            assert(w[i + 1] != '\n');
        }
    }
}

/// The bytes of the characters that mean something.
proof fn lemma_marks(c: char)
    ensures
        (c as u32) < 0x80 ==> {
            let b = c as u8;
            &&& b < 0x80
            &&& (b == 0x20) == (c == ' ') && (b == 0x09) == (c == '\t')
            &&& (b == 0x0a) == (c == '\n') && (b == 0x0d) == (c == '\r')
            &&& (b == 0x23) == (c == '#') && (b == 0x3a) == (c == ':')
            &&& (b == 0x2c) == (c == ',') && (b == 0x7b) == (c == '{')
            &&& (b == 0x7d) == (c == '}') && (b == 0x5b) == (c == '[')
            &&& (b == 0x5d) == (c == ']') && (b == 0x2d) == (c == '-')
            &&& (b == 0x3f) == (c == '?') && (b == 0x27) == (c == '\'')
            &&& (b == 0x22) == (c == '"') && (b == 0x26) == (c == '&')
            &&& (b == 0x2a) == (c == '*') && (b == 0x21) == (c == '!')
            &&& (b == 0x7c) == (c == '|') && (b == 0x3e) == (c == '>')
            &&& (b == 0x25) == (c == '%') && (b == 0x2e) == (c == '.')
        },
        (c as u32) >= 0x80 ==> c != ' ' && c != ':' && c != '\'',
{
}

/// Each byte of a text that stands somewhere.
proof fn lemma_bytes(s: Seq<u8>, p: int, w: Seq<char>, j: int)
    requires
        standing::stands(s, p, w),
        p <= j < p + standing::size(w),
    ensures
        s[j] == encode_utf8(w)[j - p],
{
    assert(s.subrange(p, p + standing::size(w))[j - p] == s[j]);
}

/// The character of a text whose first byte stands at `j`, where that is ASCII.
proof fn lemma_char_at(s: Seq<u8>, p: int, w: Seq<char>, j: int) -> (k: int)
    requires
        standing::stands(s, p, w),
        p <= j < p + standing::size(w),
        s[j] < 0x80,
    ensures
        0 <= k < w.len(),
        p + standing::size(w.take(k)) == j,
        (w[k] as u32) < 0x80,
        w[k] as u8 == s[j],
{
    lemma_bytes(s, p, w, j);
    let k = standing::lemma_ascii_place(w, j - p);
    k
}

/// The first byte of the character behind an ASCII character.
proof fn lemma_next_char(s: Seq<u8>, p: int, w: Seq<char>, k: int)
    requires
        standing::stands(s, p, w),
        0 <= k < w.len() - 1,
        (w[k] as u32) < 0x80,
    ensures
        p + standing::size(w.take(k)) + 1 == p + standing::size(w.take(k + 1)) < p
            + standing::size(w),
        (w[k + 1] as u32) < 0x80 ==> s[p + standing::size(w.take(k)) + 1] == w[k + 1] as u8,
        (w[k + 1] as u32) >= 0x80 ==> s[p + standing::size(w.take(k)) + 1] >= 0x80,
{
    standing::lemma_byte(w, k);
    standing::lemma_byte(w, k + 1);
    lemma_bytes(s, p, w, p + standing::size(w.take(k + 1)));
}

/// Blanks in a plain scalar are followed by more of it.
proof fn lemma_gap_in_plain(s: Seq<u8>, p: int, w: Seq<char>, k: int)
    requires
        standing::stands(s, p, w),
        unbroken(w, false),
        0 <= k < w.len(),
        decode::is_blank_char(w[k]),
    ensures
        ({
            let e = lexer::run_end(s, p + standing::size(w.take(k)), ByteClass::Blank);
            e < s.len() && !lexer::is_break(s[e]) && s[e] != 0x23
        }),
    decreases w.len() - k,
{
    let j = p + standing::size(w.take(k));
    assert(k < w.len() - 1);
    lemma_marks(w[k]);
    lemma_marks(w[k + 1]);
    standing::lemma_byte(w, k);
    lemma_bytes(s, p, w, j);
    assert(lexer::is_blank(s[j]));
    lemma_next_char(s, p, w, k);
    assert(lexer::run_end(s, j, ByteClass::Blank) == lexer::run_end(s, j + 1, ByteClass::Blank));
    assert(w[k + 1] != '#');
    assert(w[k + 1] != '\n' && w[k + 1] != '\r');
    if decode::is_blank_char(w[k + 1]) {
        lemma_gap_in_plain(s, p, w, k + 1);
    }
}

/// A plain scalar does not stop before its end.
proof fn lemma_no_stop(s: Seq<u8>, p: int, w: Seq<char>, j: int, stop: PlainStop, flow: bool)
    requires
        standing::stands(s, p, w),
        unbroken(w, flow),
        p <= j < p + standing::size(w),
        flow || stop == PlainStop::BlockKey || stop == PlainStop::BlockValue,
    ensures
        !lexer::plain_stops(s, j, stop),
{
    if s[j] < 0x80 {
        let k = lemma_char_at(s, p, w, j);
        lemma_marks(w[k]);
        assert(w[k] != '\n' && w[k] != '\r');
        if decode::is_blank_char(w[k]) {
            lemma_gap_in_plain(s, p, w, k);
        }
        if w[k] == ':' {
            assert(k < w.len() - 1);
            lemma_next_char(s, p, w, k);
            lemma_marks(w[k + 1]);
            assert(!lexer::is_white_char(w[k + 1]));
        }
    }
}

/// The line of a plain scalar stops at its end.
pub proof fn lemma_stop_at_end(
    s: Seq<u8>,
    p: int,
    w: Seq<char>,
    j: int,
    stop: PlainStop,
    flow: bool,
)
    requires
        standing::stands(s, p, w),
        unbroken(w, flow),
        p <= j <= p + standing::size(w),
        flow || stop == PlainStop::BlockKey || stop == PlainStop::BlockValue,
        lexer::plain_stops(s, p + standing::size(w), stop),
    ensures
        lexer::plain_line_stop(s, j, stop) == p + standing::size(w),
    decreases p + standing::size(w) - j,
{
    if j < p + standing::size(w) {
        lemma_no_stop(s, p, w, j, stop, flow);
        lemma_stop_at_end(s, p, w, j + 1, stop, flow);
    }
}

/// The last byte of a plain scalar is no blank.
pub proof fn lemma_last_byte(s: Seq<u8>, p: int, w: Seq<char>)
    requires
        standing::stands(s, p, w),
        unbroken(w, false),
    ensures
        standing::size(w) > 0,
        !lexer::is_blank(s[p + standing::size(w) - 1]),
{
    let n = w.len() - 1;
    standing::lemma_byte(w, n as int);
    let j = p + standing::size(w) - 1;
    if s[j] < 0x80 {
        let k = lemma_char_at(s, p, w, j);
        lemma_marks(w[k]);
        if k < n {
            standing::lemma_byte(w, k);
            standing::lemma_byte(w, k + 1);
        }
        assert(w[k] != '\n');
    }
}

/// A plain scalar ends where it was written to end.
proof fn lemma_plain_end(s: Seq<u8>, p: int, w: Seq<char>)
    requires
        standing::stands(s, p, w),
        plain_text(w),
    ensures
        lexer::block_colon(s, p + standing::size(w)) ==> lexer::plain_end(
            s,
            p,
            PlainStop::BlockKey,
            None,
        ) == p + standing::size(w),
        standing::feed_at(s, p + standing::size(w)) ==> lexer::plain_end(
            s,
            p,
            PlainStop::BlockKey,
            None,
        ) == p + standing::size(w),
        forall|min: usize|
            standing::ends_before(s, p + standing::size(w), min + 1)
                ==> #[trigger] lexer::plain_end(s, p, PlainStop::BlockValue, Some(min)) == p
                + standing::size(w),
{
    let e = p + standing::size(w);
    lemma_unbroken(w);
    lemma_last_byte(s, p, w);
    assert(lexer::trim_end(s, p, e) == e);
    if lexer::block_colon(s, e) || standing::feed_at(s, e) {
        lemma_stop_at_end(s, p, w, p, PlainStop::BlockKey, false);
        lemma_stop_at_end(s, p, w, p, PlainStop::BlockValue, false);
    }
    assert forall|min: usize|
        standing::ends_before(s, e, min + 1) implies #[trigger] lexer::plain_end(
        s,
        p,
        PlainStop::BlockValue,
        Some(min),
    ) == e by {
        standing::lemma_ends(s, e, min + 1);
    }
}

/// The number of the byte order mark is its own.
proof fn lemma_bom_number(c: char)
    ensures
        (c as u32 == 0xfeff) == (c == '\u{feff}'),
{
}

/// The byte order mark is not how another character begins.
proof fn lemma_no_bom(w: Seq<char>)
    requires
        w.len() > 0,
        w[0] != '\u{feff}',
        encode_utf8(w)[0] == 0xef,
    ensures
        standing::size(w) >= 3,
        !(encode_utf8(w)[1] == 0xbb && encode_utf8(w)[2] == 0xbf),
{
    broadcast use vstd::utf8::utf8_byte_ranges_bitwise;

    let b = encode_utf8(w);
    encode_utf8_first_scalar(w);
    assert(is_leading_byte_width_3(0xef)) by (bit_vector);
    assert(codepoint_width_3(0xef, 0xbb, 0xbf) == 0xfeff) by (bit_vector);
    lemma_bom_number(w[0]);
}

/// A plain scalar is taken for one.
proof fn lemma_plain_hint(s: Seq<u8>, p: int, w: Seq<char>)
    requires
        standing::stands(s, p, w),
        plain_text(w),
    ensures
        lexer::hint_at(s, p) == Some(LexHint::PlainStart),
        standing::solid(s[p]),
{
    reveal(lexer::hint_of);
    lemma_unbroken(w);
    lemma_last_byte(s, p, w);
    assert(w.take(0) =~= seq![]);
    standing::lemma_byte(w, 0);
    lemma_bytes(s, p, w, p);
    assert(w[0] != '\n' && w[0] != '\r' && w[0] != '\t');
    lemma_marks(w[0]);
    if w[0] == '-' {
        lemma_next_char(s, p, w, 0);
        lemma_marks(w[1]);
    } else if s[p] == 0xef {
        lemma_no_bom(w);
        lemma_bytes(s, p, w, p + 1);
        lemma_bytes(s, p, w, p + 2);
    }
}

// ---- Quoted scalars ----

/// Bytes that are no quotes are passed over.
proof fn lemma_pass(s: Seq<u8>, p: int, n: int)
    requires
        0 <= p,
        0 <= n,
        p + n <= s.len(),
        forall|j: int| p <= j < p + n ==> #[trigger] s[j] != 0x27,
    ensures
        lexer::single_close(s, p) == lexer::single_close(s, p + n),
    decreases n,
{
    if n > 0 {
        assert(s[p] != 0x27);
        lemma_pass(s, p + 1, n - 1);
    }
}

/// The quote that closes is found behind doubled quotes.
proof fn lemma_close(s: Seq<u8>, p: int, x: Seq<char>, i: int)
    requires
        0 <= i <= x.len(),
        standing::stands(s, p, lexer::doubled_quotes(x, i) + seq!['\'']),
        !lexer::byte_is(s, p + standing::size(lexer::doubled_quotes(x, i) + seq!['\'']), 0x27),
    ensures
        lexer::single_close(s, p) == (Closing {
            closed: true,
            end: p + standing::size(lexer::doubled_quotes(x, i) + seq!['\'']),
        }),
    decreases x.len() - i,
{
    let t = lexer::doubled_quotes(x, i) + seq!['\''];
    let none = Seq::<char>::empty();
    if i == x.len() {
        assert(t =~= seq!['\''] + none);
        standing::lemma_first(s, p, '\'', none);
        assert(standing::size(none) == 0);
    } else {
        let rest = lexer::doubled_quotes(x, i + 1) + seq!['\''];
        if x[i] == '\'' {
            assert(t =~= seq!['\''] + (seq!['\''] + rest));
            standing::lemma_first(s, p, '\'', seq!['\''] + rest);
            standing::lemma_first(s, p + 1, '\'', rest);
            lemma_close(s, p + 2, x, i + 1);
        } else {
            let c = seq![x[i]];
            assert(t =~= c + rest);
            standing::lemma_parts(s, p, c, rest);
            standing::lemma_char(x[i]);
            lemma_marks(x[i]);
            assert forall|j: int| p <= j < p + standing::size(c) implies #[trigger] s[j] != 0x27 by {
                lemma_bytes(s, p, c, j);
            }
            lemma_pass(s, p, standing::size(c));
            lemma_close(s, p + standing::size(c), x, i + 1);
        }
    }
}

/// A quoted scalar is taken for one and ends where it was written to end.
proof fn lemma_quoted(s: Seq<u8>, p: int, x: Seq<char>)
    requires
        standing::stands(s, p, lexer::single_quoted(x)),
        !lexer::byte_is(s, p + standing::size(lexer::single_quoted(x)), 0x27),
    ensures
        lexer::hint_at(s, p) == Some(LexHint::Token(SyntaxKind::SINGLE_QUOTED_SCALAR)),
        s[p] == 0x27,
        p < s.len(),
        lexer::quoted_close(s, p) == (Closing {
            closed: true,
            end: p + standing::size(lexer::single_quoted(x)),
        }),
{
    reveal(lexer::hint_of);
    let rest = lexer::doubled_quotes(x, 0) + seq!['\''];
    assert(lexer::single_quoted(x) =~= seq!['\''] + rest);
    standing::lemma_first(s, p, '\'', rest);
    lemma_close(s, p + 1, x, 0);
}

/// A scalar in double quotes is taken for one and ends where it was written to
/// end.
proof fn lemma_escaped(s: Seq<u8>, p: int, x: Seq<char>)
    requires
        standing::stands(s, p, debug::escaped(x)),
    ensures
        lexer::hint_at(s, p) == Some(LexHint::Token(SyntaxKind::DOUBLE_QUOTED_SCALAR)),
        s[p] == 0x22,
        0 <= p < s.len(),
        lexer::quoted_close(s, p) == (Closing {
            closed: true,
            end: p + standing::size(debug::escaped(x)),
        }),
{
    reveal(lexer::hint_of);
    let rest = debug::escaped_chars(x) + seq!['"'];
    assert(debug::escaped(x) =~= seq!['"'] + rest);
    standing::lemma_first(s, p, '"', rest);
    escaping::lemma_close(s, p + 1, x);
}

// ---- Scalars ----

/// Whether a text is in single quotes.
pub open spec fn in_single(w: Seq<char>) -> bool {
    exists|x: Seq<char>| w == #[trigger] lexer::single_quoted(x)
}

/// Whether a text is in double quotes.
pub open spec fn in_double(w: Seq<char>) -> bool {
    exists|x: Seq<char>| w == #[trigger] debug::escaped(x)
}

/// Whether a text is in quotes.
pub open spec fn in_quotes(w: Seq<char>) -> bool {
    in_single(w) || in_double(w)
}

/// Whether a text is a scalar as the builder writes one.
pub open spec fn is_scalar_text(w: Seq<char>) -> bool {
    in_quotes(w) || plain_text(w)
}

/// The token of a scalar with the text `w`.
pub open spec fn token_of(w: Seq<char>) -> Tree {
    if w.len() > 0 && w[0] == '"' {
        Tree::Token { kind: SyntaxKind::DOUBLE_QUOTED_SCALAR.code(), text: w }
    } else {
        change::token_for(w)
    }
}

/// What is made of a scalar with the text `w`.
pub open spec fn scalar_parsed(w: Seq<char>) -> Parsed {
    Parsed {
        elems: seq![change::scalar_of(token_of(w))],
        len: encode_utf8(w).len(),
        fault: None,
    }
}

/// A token that begins with a quote is in quotes.
pub proof fn lemma_quotes(w: Seq<char>)
    requires
        is_scalar_text(w),
    ensures
        w.len() > 0,
        in_single(w) == (w[0] == '\''),
        in_double(w) == (w[0] == '"'),
        in_quotes(w) ==> w.last() == w[0],
{
    if in_single(w) {
        let x = choose|x: Seq<char>| w == #[trigger] lexer::single_quoted(x);
        assert(w[0] == '\'');
        assert(w.last() == '\'');
    }
    if in_double(w) {
        let x = choose|x: Seq<char>| w == #[trigger] debug::escaped(x);
        assert(w[0] == '"');
        assert(w.last() == '"');
    }
}

/// What stands where a scalar was written.
pub proof fn lemma_scalar_hint(s: Seq<u8>, p: int, w: Seq<char>)
    requires
        standing::stands(s, p, w),
        is_scalar_text(w),
        !lexer::byte_is(s, p + standing::size(w), 0x27),
    ensures
        0 <= p < s.len(),
        standing::solid(s[p]),
        grammar::scalar_at(s, p),
        grammar::quoted_at(s, p) == in_quotes(w),
        in_single(w) ==> s[p] == 0x27,
        in_double(w) ==> s[p] == 0x22,
        !in_quotes(w) ==> lexer::hint_at(s, p) == Some(LexHint::PlainStart),
        grammar::inline_trivia(s, p) == grammar::none(),
        grammar::leading_whitespace(s, p) == grammar::none(),
        in_quotes(w) ==> lexer::quoted_close(s, p) == (Closing {
            closed: true,
            end: p + standing::size(w),
        }),
{
    reveal(grammar::inline_trivia);
    lemma_quotes(w);
    if in_single(w) {
        let x = choose|x: Seq<char>| w == #[trigger] lexer::single_quoted(x);
        lemma_quoted(s, p, x);
    } else if in_double(w) {
        let x = choose|x: Seq<char>| w == #[trigger] debug::escaped(x);
        lemma_escaped(s, p, x);
    } else {
        lemma_unbroken(w);
        lemma_last_byte(s, p, w);
        lemma_plain_hint(s, p, w);
    }
}

/// The node of a scalar that is the value of an entry or a document.
pub proof fn lemma_value_scalar(s: Seq<u8>, p: int, w: Seq<char>, indent: int, min: usize)
    requires
        standing::stands(s, p, w),
        is_scalar_text(w),
        standing::ends_before(s, p + standing::size(w), min + 1),
    ensures
        grammar::scalar_node(s, p, PlainStop::BlockValue, Some(min)) == scalar_parsed(w),
        grammar::block_mapping_or_scalar(s, p, indent, min) == scalar_parsed(w),
{
    reveal(grammar::scalar_node);
    reveal(grammar::quoted_token);
    reveal(grammar::plain_token);
    let e = p + standing::size(w);
    standing::lemma_ends(s, e, min + 1);
    standing::lemma_break(s, e);
    lemma_scalar_hint(s, p, w);
    lemma_quotes(w);
    standing::lemma_chars(s, p, w);
    let q = scalar_parsed(w);
    assert(grammar::none().elems + q.elems =~= q.elems);
    if in_quotes(w) {
        assert(grammar::wrap(SyntaxKind::SCALAR, grammar::quoted_token(s, p)) == q);
    } else {
        lemma_unbroken(w);
        lemma_last_byte(s, p, w);
        lemma_plain_end(s, p, w);
        assert(grammar::wrap(
            SyntaxKind::SCALAR,
            grammar::token(s, p, SyntaxKind::PLAIN_SCALAR, (e - p) as nat),
        ) == q);
    }
}

/// The node of a scalar that is a key.
pub proof fn lemma_key_scalar(s: Seq<u8>, p: int, w: Seq<char>)
    requires
        standing::stands(s, p, w),
        is_scalar_text(w),
        lexer::block_colon(s, p + standing::size(w)),
    ensures
        grammar::scalar_node(s, p, PlainStop::BlockKey, None) == scalar_parsed(w),
{
    reveal(grammar::scalar_node);
    reveal(grammar::quoted_token);
    reveal(grammar::plain_token);
    lemma_scalar_hint(s, p, w);
    lemma_quotes(w);
    standing::lemma_chars(s, p, w);
    if !in_quotes(w) {
        lemma_unbroken(w);
        lemma_last_byte(s, p, w);
        lemma_plain_end(s, p, w);
    }
}

/// A mapping begins with a key.
pub proof fn lemma_first_key(s: Seq<u8>, pos: int, p: int, w: Seq<char>, indent: int, min: usize)
    requires
        standing::stands(s, p, w),
        is_scalar_text(w),
        lexer::block_colon(s, p + standing::size(w)),
        p == pos + grammar::leading_whitespace(s, pos).len,
    ensures
        grammar::block_mapping_or_scalar(s, pos, indent, min) == grammar::mapping_from_key(
            s,
            pos,
            grammar::cat(grammar::leading_whitespace(s, pos), scalar_parsed(w)),
            indent,
        ),
{
    reveal(grammar::quoted_token);
    let e = p + standing::size(w);
    lemma_scalar_hint(s, p, w);
    lemma_quotes(w);
    standing::lemma_chars(s, p, w);
    assert(lexer::run_end(s, e, ByteClass::Blank) == e);
    if in_quotes(w) {
        assert(grammar::wrap(SyntaxKind::SCALAR, grammar::quoted_token(s, p)) == scalar_parsed(w));
    } else {
        lemma_unbroken(w);
        lemma_last_byte(s, p, w);
        lemma_plain_end(s, p, w);
        assert(grammar::wrap(
            SyntaxKind::SCALAR,
            grammar::token(s, p, SyntaxKind::PLAIN_SCALAR, (e - p) as nat),
        ) == scalar_parsed(w));
    }
}

/// The first bytes of a scalar are not those of a marker.
pub proof fn lemma_marker_bytes(s: Seq<u8>, p: int, w: Seq<char>)
    requires
        standing::stands(s, p, w),
        is_scalar_text(w),
        standing::feed_at(s, p + standing::size(w)) || lexer::byte_is(
            s,
            p + standing::size(w),
            0x3a,
        ),
    ensures
        !(lexer::byte_is(s, p, 0x2d) && lexer::byte_is(s, p + 1, 0x2d)),
        !(lexer::byte_is(s, p, 0x2e) && lexer::byte_is(s, p + 1, 0x2e) && lexer::byte_is(
            s,
            p + 2,
            0x2e,
        ) && lexer::gap_at(s, p + 3)),
{
    lemma_scalar_hint(s, p, w);
    lemma_quotes(w);
    if !in_quotes(w) {
        assert(w.take(0) =~= seq![]);
        assert(w.take(w.len() as int) =~= w);
        standing::lemma_byte(w, 0);
        lemma_bytes(s, p, w, p);
        lemma_marks(w[0]);
        if w[0] == '-' {
            lemma_next_char(s, p, w, 0);
            lemma_marks(w[1]);
        } else if w[0] == '.' && w.len() > 1 {
            lemma_next_char(s, p, w, 0);
            lemma_marks(w[1]);
            if w[1] == '.' && w.len() > 2 {
                lemma_next_char(s, p, w, 1);
                lemma_marks(w[2]);
                standing::lemma_byte(w, 1);
                standing::lemma_byte(w, 2);
                if w[2] == '.' && w.len() > 3 {
                    lemma_next_char(s, p, w, 2);
                    lemma_marks(w[3]);
                    assert(w[3] != '\n' && w[3] != '\r' && w[3] != '\t');
                }
            } else if w[1] == '.' {
                standing::lemma_byte(w, 1);
            }
        }
    }
}

} // verus!

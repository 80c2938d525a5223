//! Plain scalars on several lines, and before comments.

use vstd::prelude::*;
use vstd::utf8::*;

use crate::ast::decode;
use crate::ast::decode::DecodeFault;
use crate::ast::scalar;
use crate::ast::value;
use crate::ast::value::ValueModel;
use crate::grammar;
use crate::laws::decoding;
use crate::laws::emitting;
use crate::laws::standing;
use crate::lexer;
use crate::lexer::{ByteClass, LexHint, PlainStop};
use crate::syntax::kind::SyntaxKind;
use crate::syntax::node;
use crate::text;

verus! {

broadcast use vstd::utf8::encode_utf8_valid_utf8;

// ---- Comments ----

/// A comment behind a scalar, set off by blanks, is no part of it.
pub proof fn lemma_comment_ends_scalar(s: Seq<u8>, p: int, w: Seq<char>, min: usize)
    requires
        standing::stands(s, p, w),
        emitting::is_scalar_text(w),
        p + standing::size(w) < s.len(),
        lexer::is_blank(s[p + standing::size(w)]),
        lexer::byte_is(s, lexer::run_end(s, p + standing::size(w), ByteClass::Blank), 0x23),
    ensures
        grammar::scalar_node(s, p, PlainStop::BlockValue, Some(min)) == emitting::scalar_parsed(w),
        grammar::scalar_node(s, p, PlainStop::BlockKey, None) == emitting::scalar_parsed(w),
{
    reveal(grammar::scalar_node);
    reveal(grammar::quoted_token);
    reveal(grammar::plain_token);
    let e = p + standing::size(w);
    emitting::lemma_scalar_hint(s, p, w);
    emitting::lemma_quotes(w);
    standing::lemma_chars(s, p, w);
    if emitting::in_quotes(w) {
        assert(grammar::wrap(SyntaxKind::SCALAR, grammar::quoted_token(s, p))
            == emitting::scalar_parsed(w));
    } else {
        emitting::lemma_unbroken(w);
        emitting::lemma_last_byte(s, p, w);
        emitting::lemma_stop_at_end(s, p, w, p, PlainStop::BlockValue, false);
        emitting::lemma_stop_at_end(s, p, w, p, PlainStop::BlockKey, false);
        assert(lexer::trim_end(s, p, e) == e);
        assert(lexer::next_content(s, e) is None);
        assert(grammar::wrap(
            SyntaxKind::SCALAR,
            grammar::token(s, p, SyntaxKind::PLAIN_SCALAR, (e - p) as nat),
        ) == emitting::scalar_parsed(w));
    }
}

// ---- Several lines ----

/// The lines from `i` on: each behind the line feeds of the empty lines before it,
/// and behind `c` spaces.
pub open spec fn going_on(lines: Seq<Seq<char>>, gaps: Seq<nat>, i: int, c: int) -> Seq<char>
    decreases lines.len() - i,
{
    if 0 <= i < lines.len() - 1 {
        lines[i] + (text::newlines(gaps[i] as int + 1) + (text::spaces(c) + going_on(
            lines,
            gaps,
            i + 1,
            c,
        )))
    } else if i == lines.len() - 1 {
        lines[i]
    } else {
        seq![]
    }
}

/// Whether lines can be those of a plain scalar: nothing in them ends one, none but
/// the first begins with what opens a block or a comment.
pub open spec fn plain_lines(lines: Seq<Seq<char>>) -> bool {
    &&& lines.len() > 0
    &&& emitting::plain_text(lines[0])
    &&& forall|i: int| 0 <= i < lines.len() ==> emitting::plain_text(#[trigger] lines[i])
}

/// The line feeds before a line with content.
proof fn lemma_next_line(s: Seq<u8>, e: int, g: int, c: int, more: Seq<char>)
    requires
        0 <= e,
        g >= 0,
        c >= 0,
        standing::stands(s, e, text::newlines(g + 1) + (text::spaces(c) + more)),
        e + g + 1 + c < s.len(),
        standing::solid(s[e + g + 1 + c]),
    ensures
        lexer::next_content(s, e) == Some((e + g + 1 + c, c)),
        standing::stands(s, e + g + 1 + c, more),
        standing::size(text::newlines(g + 1) + (text::spaces(c) + more)) == g + 1 + c
            + standing::size(more),
        standing::feed_at(s, e),
        lexer::column_of(s, e + g + 1 + c) == c,
    decreases g,
{
    let rest = text::spaces(c) + more;
    assert(text::newlines(g + 1) + rest =~= seq!['\n'] + (text::newlines(g) + rest));
    standing::lemma_first(s, e, '\n', text::newlines(g) + rest);
    if g > 0 {
        lemma_next_line(s, e + 1, g - 1, c, more);
        assert(lexer::run_end(s, e + 1, ByteClass::Blank) == e + 1);
    } else {
        assert(text::newlines(0) + rest =~= rest);
        standing::lemma_spaces(s, e + 1, c, more);
        assert(standing::line_below(s, e, c));
        standing::lemma_below(s, e, c);
    }
}

/// A line that goes on a plain scalar opens no block.
proof fn lemma_goes_on(s: Seq<u8>, at: int, w: Seq<char>)
    requires
        standing::stands(s, at, w),
        emitting::plain_text(w),
        standing::feed_at(s, at + standing::size(w)),
        lexer::column_of(s, at) > 0,
    ensures
        0 <= at < s.len(),
        standing::solid(s[at]),
        !lexer::opens_block(s, at),
        !lexer::byte_is(s, at, 0x23),
        lexer::plain_line_stop(s, at, PlainStop::BlockValue) == at + standing::size(w),
        lexer::trim_end(s, at, at + standing::size(w)) == at + standing::size(w),
        standing::size(w) > 0,
{
    let e = at + standing::size(w);
    assert(emitting::is_scalar_text(w));
    emitting::lemma_scalar_hint(s, at, w);
    emitting::lemma_unbroken(w);
    emitting::lemma_last_byte(s, at, w);
    emitting::lemma_stop_at_end(s, at, w, at, PlainStop::BlockValue, false);
    emitting::lemma_stop_at_end(s, at, w, at, PlainStop::BlockKey, false);
    emitting::lemma_quotes(w);
    assert(!emitting::in_quotes(w)) by {
        if emitting::in_quotes(w) {
            assert(w[0] == '\'' || w[0] == '"');
        }
    }
    assert(lexer::hint_at(s, at) == Some(LexHint::PlainStart));
    reveal(lexer::hint_of);
    standing::lemma_break(s, e);
}

/// The further lines of a plain scalar go up to its end.
proof fn lemma_continues(
    s: Seq<u8>,
    p: int,
    lines: Seq<Seq<char>>,
    gaps: Seq<nat>,
    i: int,
    c: int,
    min: usize,
)
    requires
        0 <= i < lines.len(),
        gaps.len() == lines.len(),
        plain_lines(lines),
        c > min,
        standing::stands(s, p, going_on(lines, gaps, i, c)),
        standing::ends_before(s, p + standing::size(going_on(lines, gaps, i, c)), min + 1),
    ensures
        lexer::plain_continuation(
            s,
            p + standing::size(lines[i]),
            p + standing::size(lines[i]),
            PlainStop::BlockValue,
            min as int,
        ) == p + standing::size(going_on(lines, gaps, i, c)),
        standing::stands(s, p, lines[i]),
        standing::feed_at(s, p + standing::size(lines[i])),
    decreases lines.len() - i,
{
    let e = p + standing::size(lines[i]);
    assert(emitting::plain_text(lines[i]));
    if i + 1 < lines.len() {
        let more = going_on(lines, gaps, i + 1, c);
        let g = gaps[i] as int;
        let tail = text::newlines(g + 1) + (text::spaces(c) + more);
        let at = e + g + 1 + c;
        standing::lemma_parts(s, p, lines[i], tail);
        lemma_tail_stands(s, e, g, c, more);
        lemma_continues(s, at, lines, gaps, i + 1, c, min);
        assert(emitting::plain_text(lines[i + 1]));
        lemma_first_solid(s, at, lines[i + 1]);
        lemma_next_line(s, e, g, c, more);
        lemma_goes_on(s, at, lines[i + 1]);
    } else {
        standing::lemma_ends(s, e, min + 1);
    }
}

/// Where a text stands behind line feeds and spaces.
proof fn lemma_tail_stands(s: Seq<u8>, e: int, g: int, c: int, more: Seq<char>)
    requires
        g >= 0,
        c >= 0,
        standing::stands(s, e, text::newlines(g + 1) + (text::spaces(c) + more)),
    ensures
        standing::stands(s, e + g + 1 + c, more),
        standing::size(text::newlines(g + 1) + (text::spaces(c) + more)) == g + 1 + c
            + standing::size(more),
    decreases g,
{
    let rest = text::spaces(c) + more;
    assert(text::newlines(g + 1) + rest =~= seq!['\n'] + (text::newlines(g) + rest));
    standing::lemma_first(s, e, '\n', text::newlines(g) + rest);
    if g > 0 {
        lemma_tail_stands(s, e + 1, g - 1, c, more);
    } else {
        assert(text::newlines(0) + rest =~= rest);
        standing::lemma_spaces(s, e + 1, c, more);
    }
}

/// A plain scalar begins with content.
proof fn lemma_first_solid(s: Seq<u8>, p: int, w: Seq<char>)
    requires
        standing::stands(s, p, w),
        emitting::plain_text(w),
        standing::feed_at(s, p + standing::size(w)),
    ensures
        0 <= p < s.len(),
        standing::solid(s[p]),
{
    assert(emitting::is_scalar_text(w));
    emitting::lemma_scalar_hint(s, p, w);
}

/// The lines as rows.
proof fn lemma_rows_text(lines: Seq<Seq<char>>, gaps: Seq<nat>, i: int, c: int, padded: Seq<Seq<char>>)
    requires
        0 <= i < lines.len(),
        gaps.len() == lines.len(),
        gaps.last() == 0,
        padded.len() == lines.len(),
        forall|k: int| i < k < lines.len() ==> #[trigger] padded[k] == text::spaces(c) + lines[k],
    ensures
        decoding::joined(decoding::rows(padded, gaps, i)) == padded[i] + (going_on(lines, gaps, i, c)).skip(
            lines[i].len() as int,
        ),
    decreases lines.len() - i,
{
    let rest = decoding::rows(padded, gaps, i + 1);
    let empties = decoding::empty_lines(gaps[i]);
    if i + 1 < lines.len() {
        let more = going_on(lines, gaps, i + 1, c);
        lemma_rows_text(lines, gaps, i + 1, c, padded);
        decoding::lemma_rows_len(padded, gaps, i + 1);
        assert(padded[i + 1] + more.skip(lines[i + 1].len() as int) =~= text::spaces(c) + more) by {
            lemma_begins_with(lines, gaps, i + 1, c);
        }
        lemma_joined_gap(padded[i], gaps[i], rest);
        assert(going_on(lines, gaps, i, c).skip(lines[i].len() as int) =~= text::newlines(
            gaps[i] as int + 1,
        ) + (text::spaces(c) + more));
    } else {
        assert(rest =~= seq![]);
        assert(empties =~= seq![]);
        assert(decoding::rows(padded, gaps, i) =~= seq![padded[i]]);
        assert(going_on(lines, gaps, i, c).skip(lines[i].len() as int) =~= seq![]);
        assert(padded[i] + Seq::<char>::empty() =~= padded[i]);
    }
}

/// Lines begin with the first of them.
proof fn lemma_begins_with(lines: Seq<Seq<char>>, gaps: Seq<nat>, i: int, c: int)
    requires
        0 <= i < lines.len(),
    ensures
        going_on(lines, gaps, i, c) == lines[i] + going_on(lines, gaps, i, c).skip(
            lines[i].len() as int,
        ),
{
    let all = going_on(lines, gaps, i, c);
    assert(all =~= lines[i] + all.skip(lines[i].len() as int));
}

/// A line, empty lines and further lines.
proof fn lemma_joined_gap(line: Seq<char>, g: nat, rest: Seq<Seq<char>>)
    requires
        rest.len() > 0,
    ensures
        decoding::joined(seq![line] + (decoding::empty_lines(g) + rest)) == line + (text::newlines(
            g as int + 1,
        ) + decoding::joined(rest)),
    decreases g,
{
    let none = Seq::<char>::empty();
    let all = seq![line] + (decoding::empty_lines(g) + rest);
    let more = decoding::joined(rest);
    if g > 0 {
        let less = (g - 1) as nat;
        lemma_joined_gap(none, less, rest);
        assert(all.skip(1) =~= seq![none] + (decoding::empty_lines(less) + rest));
        assert(decoding::joined(all) =~= line + (text::newlines(g as int + 1) + more));
    } else {
        assert(all.skip(1) =~= rest);
        assert(decoding::joined(all) =~= line + (text::newlines(1) + more));
    }
}

/// A plain scalar whose further lines are indented by more than the node that holds
/// it is read whole as one scalar, and stands for its lines with a space between two
/// of them, or as many line feeds as there are empty lines.
pub proof fn lemma_plain_lines_are_found(
    s: Seq<u8>,
    p: int,
    lines: Seq<Seq<char>>,
    gaps: Seq<nat>,
    c: int,
    min: usize,
)
    requires
        plain_lines(lines),
        gaps.len() == lines.len(),
        gaps.last() == 0,
        c > min,
        standing::stands(s, p, going_on(lines, gaps, 0, c)),
        standing::ends_before(s, p + standing::size(going_on(lines, gaps, 0, c)), min + 1),
    ensures
        ({
            let r = grammar::scalar_node(s, p, PlainStop::BlockValue, Some(min));
            &&& r.fault is None
            &&& r.len == standing::size(going_on(lines, gaps, 0, c))
            &&& r.elems.len() == 1
            &&& scalar::scalar_value(r.elems[0]) == Ok::<ValueModel, DecodeFault>(
                value::inferred(decoding::flowing(lines, gaps, 0)),
            )
        }),
{
    reveal(grammar::scalar_node);
    reveal(grammar::plain_token);
    let all = going_on(lines, gaps, 0, c);
    let w = lines[0];
    let e = p + standing::size(w);
    lemma_continues(s, p, lines, gaps, 0, c, min);
    assert(emitting::is_scalar_text(w));
    emitting::lemma_scalar_hint(s, p, w);
    emitting::lemma_quotes(w);
    emitting::lemma_unbroken(w);
    emitting::lemma_last_byte(s, p, w);
    emitting::lemma_stop_at_end(s, p, w, p, PlainStop::BlockValue, false);
    assert(lexer::trim_end(s, p, e) == e);
    standing::lemma_chars(s, p, all);
    let r = grammar::scalar_node(s, p, PlainStop::BlockValue, Some(min));
    let t = r.elems[0].children()[0];
    assert(r.elems[0].children() =~= seq![t]);
    assert(t.text() == all);
    let f = scalar::value_tokens();
    assert(f(t));
    assert(node::place_from(seq![t], 0, f) == Some(0int));
    lemma_folded(lines, gaps, c);
}

/// What the text of a plain scalar on several lines stands for.
proof fn lemma_folded(lines: Seq<Seq<char>>, gaps: Seq<nat>, c: int)
    requires
        plain_lines(lines),
        gaps.len() == lines.len(),
        gaps.last() == 0,
        c >= 0,
    ensures
        decode::folded_text(going_on(lines, gaps, 0, c)) == decoding::flowing(lines, gaps, 0),
{
    let none = Seq::<char>::empty();
    let heads = Seq::new(
        lines.len(),
        |i: int|
            if i == 0 {
                none
            } else {
                text::spaces(c)
            },
    );
    let tails = Seq::new(lines.len(), |i: int| none);
    let padded = Seq::new(lines.len(), |i: int| heads[i] + lines[i] + tails[i]);
    assert forall|i: int| 0 <= i < lines.len() implies decoding::is_content(#[trigger] lines[i])
        && decoding::is_blank_text(heads[i]) && decoding::is_blank_text(tails[i])
        && !lines[i].contains('\n') by {
        let w = lines[i];
        assert(emitting::plain_text(w));
        emitting::lemma_unbroken(w);
        assert(w[0] != '\t');
        assert(w.last() == w[w.len() - 1]);
    }
    assert forall|k: int| 0 < k < lines.len() implies #[trigger] padded[k] == text::spaces(c)
        + lines[k] by {
        assert(padded[k] =~= text::spaces(c) + lines[k]);
    }
    assert(padded[0] =~= lines[0]);
    lemma_rows_text(lines, gaps, 0, c, padded);
    lemma_begins_with(lines, gaps, 0, c);
    decoding::lemma_lines_are_folded(lines, gaps, heads, tails);
}

// ---- Lines in double quotes ----

/// The bytes of a line feed and of a backslash.
proof fn lemma_byte_of(c: char)
    ensures
        (c as u32) < 0x80 ==> {
            let b = c as u8;
            &&& (b == 0x0a) == (c == '\n')
            &&& (b == 0x5c) == (c == '\\')
            &&& (b == 0x20) == (c == ' ')
            &&& (b == 0x09) == (c == '\t')
        },
{
}

/// The bytes of a text without line feeds and backslashes.
proof fn lemma_content_byte(b: Seq<u8>, p: int, w: Seq<char>, j: int)
    requires
        standing::stands(b, p, w),
        !w.contains('\n'),
        !w.contains('\\'),
        p <= j < p + standing::size(w),
    ensures
        lexer::in_class(ByteClass::Content, b[j]),
{
    assert(b.subrange(p, p + standing::size(w))[j - p] == b[j]);
    if b[j] < 0x80 {
        let k = standing::lemma_ascii_place(w, j - p);
        lemma_byte_of(w[k]);
        assert(w.contains(w[k]));
    }
}

/// The first byte of a text that begins with content.
proof fn lemma_first_byte(b: Seq<u8>, p: int, w: Seq<char>)
    requires
        standing::stands(b, p, w),
        decoding::is_content(w),
    ensures
        0 <= p < b.len(),
        !lexer::is_blank(b[p]),
        standing::size(w) > 0,
{
    standing::lemma_byte(w, 0);
    assert(w.take(0) =~= seq![]);
    assert(b.subrange(p, p + standing::size(w))[0] == b[p]);
    lemma_byte_of(w[0]);
}

/// A run ends where its class does.
proof fn lemma_run_is(s: Seq<u8>, a: int, b: int, c: ByteClass)
    requires
        0 <= a <= b <= s.len(),
        forall|j: int| a <= j < b ==> lexer::in_class(c, #[trigger] s[j]),
        b < s.len() ==> !lexer::in_class(c, s[b]),
    ensures
        lexer::run_end(s, a, c) == b,
    decreases b - a,
{
    if a < b {
        lemma_run_is(s, a + 1, b, c);
    }
}

/// Line feeds and the spaces behind them are counted.
proof fn lemma_breaks(b: Seq<u8>, e: int, g: int, c: int, more: Seq<char>, pending: int)
    requires
        0 <= e,
        g >= 0,
        c >= 0,
        standing::stands(b, e, text::newlines(g + 1) + (text::spaces(c) + more)),
        e + g + 1 + c < b.len(),
        !lexer::is_blank(b[e + g + 1 + c]),
    ensures
        decode::double_quoted_from(b, e, pending) == decode::double_quoted_from(
            b,
            e + g + 1 + c,
            pending + g + 1,
        ),
        b[e] == 0x0a,
    decreases g,
{
    let rest = text::spaces(c) + more;
    assert(text::newlines(g + 1) + rest =~= seq!['\n'] + (text::newlines(g) + rest));
    standing::lemma_first(b, e, '\n', text::newlines(g) + rest);
    if g > 0 {
        lemma_breaks(b, e + 1, g - 1, c, more, pending + 1);
        lemma_run_is(b, e + 1, e + 1, ByteClass::Blank);
    } else {
        assert(text::newlines(0) + rest =~= rest);
        standing::lemma_spaces(b, e + 1, c, more);
        lemma_run_is(b, e + 1, e + 1 + c, ByteClass::Blank);
    }
}

/// The lines from `i` on, up to the end of the text.
proof fn lemma_double_lines(
    b: Seq<u8>,
    p: int,
    lines: Seq<Seq<char>>,
    gaps: Seq<nat>,
    i: int,
    c: int,
    pending: int,
)
    requires
        0 <= i < lines.len(),
        gaps.len() == lines.len(),
        c >= 0,
        pending >= 0,
        forall|k: int|
            0 <= k < lines.len() ==> decoding::is_content(#[trigger] lines[k])
                && !lines[k].contains('\n') && !lines[k].contains('\\'),
        standing::stands(b, p, going_on(lines, gaps, i, c)),
        p + standing::size(going_on(lines, gaps, i, c)) == b.len(),
    ensures
        decode::double_quoted_from(b, p, pending) == Ok::<Seq<char>, DecodeFault>(
            decode::fold_breaks(pending) + decoding::flowing(lines, gaps, i),
        ),
        0 <= p < b.len(),
        !lexer::is_blank(b[p]),
    decreases lines.len() - i,
{
    let w = lines[i];
    let e = p + standing::size(w);
    let head = decode::fold_breaks(pending);
    assert(decoding::is_content(w));
    if i + 1 < lines.len() {
        let more = going_on(lines, gaps, i + 1, c);
        let g = gaps[i] as int;
        let tail = text::newlines(g + 1) + (text::spaces(c) + more);
        let at = e + g + 1 + c;
        standing::lemma_parts(b, p, w, tail);
        lemma_tail_stands(b, e, g, c, more);
        lemma_double_lines(b, at, lines, gaps, i + 1, c, g + 1);
        lemma_breaks(b, e, g, c, more, 0);
        let value = decoding::flowing(lines, gaps, i + 1);
        assert(decode::fold_breaks(g + 1) =~= decoding::between(gaps[i]));
        assert(head + w + (decode::fold_breaks(g + 1) + value) =~= head + (w + (decoding::between(
            gaps[i],
        ) + value)));
    } else {
        assert(decode::double_quoted_from(b, e, 0) == Ok::<Seq<char>, DecodeFault>(seq![]));
        assert(head + w + Seq::<char>::empty() =~= head + w);
    }
    lemma_first_byte(b, p, w);
    assert forall|j: int| p <= j < e implies lexer::in_class(
        ByteClass::Content,
        #[trigger] b[j],
    ) by {
        lemma_content_byte(b, p, w, j);
    }
    lemma_run_is(b, p, e, ByteClass::Content);
    standing::lemma_chars(b, p, w);
    assert(b[p] != 0x0a && b[p] != 0x5c);
}

/// Lines between double quotes, without escapes, stand for the lines with a space
/// between two of them, or as many line feeds as there are empty lines; the spaces
/// that further lines are indented by are no part of it.
pub proof fn lemma_double_quoted_lines(lines: Seq<Seq<char>>, gaps: Seq<nat>, c: int)
    requires
        lines.len() > 0,
        gaps.len() == lines.len(),
        c >= 0,
        forall|k: int|
            0 <= k < lines.len() ==> decoding::is_content(#[trigger] lines[k])
                && !lines[k].contains('\n') && !lines[k].contains('\\'),
    ensures
        decode::double_quoted_value(
            encode_utf8(seq!['"'] + going_on(lines, gaps, 0, c) + seq!['"']),
        ) == Ok::<Seq<char>, DecodeFault>(decoding::flowing(lines, gaps, 0)),
{
    let none = Seq::<char>::empty();
    let x = going_on(lines, gaps, 0, c);
    let w = seq!['"'] + x + seq!['"'];
    let raw = encode_utf8(w);
    assert(raw.subrange(0, raw.len() as int) =~= raw);
    assert(w =~= seq!['"'] + (x + (seq!['"'] + none)));
    standing::lemma_first(raw, 0, '"', x + (seq!['"'] + none));
    standing::lemma_parts(raw, 1, x, seq!['"'] + none);
    standing::lemma_first(raw, 1 + standing::size(x), '"', none);
    assert(encode_utf8(none) =~= seq![]);
    let b = encode_utf8(x);
    assert(raw.subrange(1, raw.len() - 1) =~= b);
    assert(b.subrange(0, b.len() as int) =~= b);
    lemma_double_lines(b, 0, lines, gaps, 0, c, 0);
    assert(decode::fold_breaks(0) + decoding::flowing(lines, gaps, 0) =~= decoding::flowing(
        lines,
        gaps,
        0,
    ));
}

} // verus!

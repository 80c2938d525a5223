//! Block scalars are found again where they stand.

use vstd::prelude::*;
use vstd::utf8::*;

use crate::ast::decode;
use crate::ast::decode::{BlockStyle, Chomp, DecodeFault};
use crate::ast::scalar;
use crate::ast::value::ValueModel;
use crate::grammar;
use crate::laws::decoding;
use crate::laws::standing;
use crate::laws::surviving;
use crate::lexer;
use crate::lexer::ByteClass;
use crate::syntax::kind::SyntaxKind;
use crate::syntax::node;
use crate::text;

verus! {

broadcast use vstd::utf8::encode_utf8_valid_utf8;

/// Whether a text holds no line break.
pub open spec fn is_line(row: Seq<char>) -> bool {
    !row.contains('\n') && !row.contains('\r')
}

/// The bytes of the characters that mean something here.
proof fn lemma_byte_of(c: char)
    ensures
        (c as u32) < 0x80 ==> {
            let b = c as u8;
            &&& (b == 0x0a) == (c == '\n')
            &&& (b == 0x0d) == (c == '\r')
            &&& (b == 0x20) == (c == ' ')
        },
{
}

/// A run ends where its class does.
proof fn lemma_run_is(s: Seq<u8>, a: int, b: int, c: ByteClass)
    requires
        0 <= a <= b <= s.len(),
        forall|j: int| a <= j < b ==> lexer::in_class(c, #[trigger] s[j]),
        b < s.len() ==> !lexer::in_class(c, s[b]),
    ensures
        lexer::run_end(s, a, c) == b,
    decreases b - a,
{
    if a < b {
        lemma_run_is(s, a + 1, b, c);
    }
}

/// The bytes of a line are no line breaks.
proof fn lemma_line_bytes(s: Seq<u8>, p: int, row: Seq<char>, j: int)
    requires
        standing::stands(s, p, row),
        is_line(row),
        p <= j < p + standing::size(row),
    ensures
        !lexer::is_break(s[j]),
{
    assert(s.subrange(p, p + standing::size(row))[j - p] == s[j]);
    if s[j] < 0x80 {
        let k = standing::lemma_ascii_place(row, j - p);
        lemma_byte_of(row[k]);
        assert(row.contains(row[k]));
    }
}

/// A line below a line break: its spaces, and its end.
proof fn lemma_row(s: Seq<u8>, i: int, n: int, line: Seq<char>)
    requires
        standing::feed_at(s, i),
        n >= 0,
        is_line(line),
        standing::stands(s, i + 1, text::spaces(n) + line),
        standing::feed_at(s, i + 1 + standing::size(text::spaces(n) + line)),
    ensures
        ({
            let f = i + 1 + standing::size(text::spaces(n) + line);
            let e = lexer::run_end(s, i + 1, ByteClass::Space);
            &&& lexer::after_break(s, i) == i + 1
            &&& i + 1 + n <= e <= f
            &&& line.len() > 0 && line[0] != ' ' ==> e == i + 1 + n
            &&& lexer::is_break(s[e]) ==> e == f
            &&& !lexer::is_break(s[e]) ==> lexer::run_end(s, e, ByteClass::Line) == f
            &&& line.len() > 0 && line[0] != ' ' ==> !lexer::is_break(s[e])
        }),
{
    let f = i + 1 + standing::size(text::spaces(n) + line);
    let e = lexer::run_end(s, i + 1, ByteClass::Space);
    standing::lemma_spaces(s, i + 1, n, line);
    lexer::lemma_run_end(s, i + 1, ByteClass::Space);
    assert(e >= i + 1 + n) by {
        if e < i + 1 + n {
            assert(s[e] == 0x20);
        }
    }
    assert(e <= f) by {
        if e > f {
            assert(lexer::in_class(ByteClass::Space, s[f]));
        }
    }
    if line.len() > 0 && line[0] != ' ' {
        standing::lemma_byte(line, 0);
        assert(line.take(0) =~= seq![]);
        assert(s.subrange(i + 1 + n, f)[0] == s[i + 1 + n]);
        lemma_byte_of(line[0]);
        assert(s[i + 1 + n] != 0x20);
        lemma_line_bytes(s, i + 1 + n, line, i + 1 + n);
        if e > i + 1 + n {
            assert(lexer::in_class(ByteClass::Space, s[i + 1 + n]));
        }
    }
    if lexer::is_break(s[e]) {
        if e < f {
            lemma_line_bytes(s, i + 1 + n, line, e);
        }
    } else {
        assert forall|j: int| e <= j < f implies lexer::in_class(
            ByteClass::Line,
            #[trigger] s[j],
        ) by {
            lemma_line_bytes(s, i + 1 + n, line, j);
        }
        lemma_run_is(s, e, f, ByteClass::Line);
    }
}

/// Whether rows are lines of a block scalar at `n`: each is empty, or indented by `n`
/// at least.
pub open spec fn block_rows(rows: Seq<Seq<char>>, n: int) -> bool {
    forall|i: int|
        0 <= i < rows.len() ==> is_line(#[trigger] rows[i]) && (rows[i].len() == 0 || is_indented(
            rows[i],
            n,
        ))
}

/// Whether a row is indented by `n`.
pub open spec fn is_indented(row: Seq<char>, n: int) -> bool {
    row.len() >= n && row.take(n) == text::spaces(n)
}

/// The lines of a block scalar whose indentation is known go up to its end.
proof fn lemma_body(s: Seq<u8>, i: int, rows: Seq<Seq<char>>, n: int, parent: int)
    requires
        0 <= i,
        rows.len() > 0,
        block_rows(rows, n),
        0 <= parent < n,
        standing::feed_at(s, i),
        standing::stands(s, i + 1, decoding::joined(rows)),
        exists|k: int|
            k <= parent && #[trigger] standing::line_below(
                s,
                i + 1 + standing::size(decoding::joined(rows)),
                k,
            ),
    ensures
        lexer::block_body_end(s, i, Some(n), parent) == i + 1 + standing::size(
            decoding::joined(rows),
        ),
    decreases rows.len(),
{
    let row = rows[0];
    let all = i + 1 + standing::size(decoding::joined(rows));
    let f = i + 1 + standing::size(row);
    lemma_first_row(s, i, rows);
    assert(is_line(row));
    if row.len() > 0 {
        let line = row.skip(n);
        assert(row =~= text::spaces(n) + line);
        assert(is_line(line)) by {
            if line.contains('\n') {
                let k = choose|k: int| 0 <= k < line.len() && line[k] == '\n';
                assert(row[k + n] == '\n');
            }
            if line.contains('\r') {
                let k = choose|k: int| 0 <= k < line.len() && line[k] == '\r';
                assert(row[k + n] == '\r');
            }
        }
        lemma_row(s, i, n, line);
    } else {
        assert(row =~= text::spaces(0) + row);
        lemma_row(s, i, 0, row);
    }
    assert(lexer::block_body_end(s, i, Some(n), parent) == lexer::block_body_end(
        s,
        f,
        Some(n),
        parent,
    ));
    if rows.len() == 1 {
        lemma_body_ends(s, f, n, parent);
    } else {
        let more = rows.skip(1);
        assert forall|j: int| 0 <= j < more.len() implies is_line(#[trigger] more[j]) && (
        more[j].len() == 0 || is_indented(more[j], n)) by {
            assert(more[j] == rows[j + 1]);
        }
        lemma_body(s, f, more, n, parent);
    }
}

/// The first of rows, and what stands behind it.
proof fn lemma_first_row(s: Seq<u8>, i: int, rows: Seq<Seq<char>>)
    requires
        0 <= i,
        rows.len() > 0,
        standing::stands(s, i + 1, decoding::joined(rows)),
        standing::feed_at(s, i + 1 + standing::size(decoding::joined(rows))),
    ensures
        ({
            let f = i + 1 + standing::size(rows[0]);
            &&& standing::stands(s, i + 1, rows[0])
            &&& standing::feed_at(s, f)
            &&& rows.len() == 1 ==> standing::size(decoding::joined(rows)) == standing::size(
                rows[0],
            )
            &&& rows.len() > 1 ==> {
                &&& standing::stands(s, f + 1, decoding::joined(rows.skip(1)))
                &&& standing::size(decoding::joined(rows)) == standing::size(rows[0]) + 1
                    + standing::size(decoding::joined(rows.skip(1)))
            }
        }),
{
    if rows.len() > 1 {
        let more = decoding::joined(rows.skip(1));
        standing::lemma_parts(s, i + 1, rows[0], seq!['\n'] + more);
        standing::lemma_first(s, i + 1 + standing::size(rows[0]), '\n', more);
    }
}

/// Before content that is indented by less a block scalar ends.
proof fn lemma_body_ends(s: Seq<u8>, f: int, n: int, parent: int)
    requires
        0 <= parent < n,
        exists|k: int| k <= parent && #[trigger] standing::line_below(s, f, k),
    ensures
        lexer::block_body_end(s, f, Some(n), parent) == f,
{
    let k = choose|k: int| k <= parent && #[trigger] standing::line_below(s, f, k);
    assert forall|j: int| f + 1 <= j < f + 1 + k implies lexer::in_class(
        ByteClass::Space,
        #[trigger] s[j],
    ) by {}
    lemma_run_is(s, f + 1, f + 1 + k, ByteClass::Space);
    assert(lexer::after_break(s, f) == f + 1);
}

/// The value that a block scalar stands for, with the line break behind it.
pub open spec fn block_result(
    style: BlockStyle,
    chomp: Chomp,
    lines: Seq<Seq<char>>,
    gaps: Seq<nat>,
) -> Seq<char> {
    decoding::ended(
        match style {
            BlockStyle::Literal => decoding::verbatim(lines, gaps, 0),
            BlockStyle::Folded => decoding::folding(lines, gaps, 0),
        },
        gaps.last() + 1,
        chomp,
    )
}

/// Each row of indented lines is empty or indented.
proof fn lemma_rows_indented(lines: Seq<Seq<char>>, gaps: Seq<nat>, i: int, n: int)
    requires
        0 <= i <= lines.len(),
        gaps.len() == lines.len(),
        n >= 0,
        forall|k: int| 0 <= k < lines.len() ==> is_line(#[trigger] lines[k]),
    ensures
        block_rows(decoding::rows(decoding::all_indented(lines, n), gaps, i), n),
    decreases lines.len() - i,
{
    let raw = decoding::all_indented(lines, n);
    let r = decoding::rows(raw, gaps, i);
    if i < lines.len() {
        lemma_rows_indented(lines, gaps, i + 1, n);
        let rest = decoding::rows(raw, gaps, i + 1);
        assert(is_line(lines[i]));
        assert forall|k: int| 0 <= k < r.len() implies is_line(#[trigger] r[k]) && (r[k].len() == 0
            || is_indented(r[k], n)) by {
            if k == 0 {
                let row = decoding::indented(lines[i], n);
                assert(r[k] == row);
                if lines[i].len() > 0 {
                    assert(row.take(n) =~= text::spaces(n));
                    if row.contains('\n') {
                        let j = choose|j: int| 0 <= j < row.len() && row[j] == '\n';
                        assert(lines[i].contains(lines[i][j - n]));
                    }
                    if row.contains('\r') {
                        let j = choose|j: int| 0 <= j < row.len() && row[j] == '\r';
                        assert(lines[i].contains(lines[i][j - n]));
                    }
                }
            } else if k <= gaps[i] {
                assert(r[k] == decoding::empty_lines(gaps[i])[k - 1]);
                assert(r[k] =~= Seq::<char>::empty());
            } else {
                assert(r[k] == rest[k - 1 - gaps[i]]);
            }
        }
    }
}

/// One more empty line at the end.
pub open spec fn one_more(gaps: Seq<nat>) -> Seq<nat> {
    gaps.update(gaps.len() - 1, gaps.last() + 1)
}

/// One more empty line is one more row.
proof fn lemma_rows_more(lines: Seq<Seq<char>>, gaps: Seq<nat>, i: int)
    requires
        0 <= i < lines.len(),
        gaps.len() == lines.len(),
    ensures
        decoding::rows(lines, one_more(gaps), i) == decoding::rows(lines, gaps, i).push(
            Seq::<char>::empty(),
        ),
    decreases lines.len() - i,
{
    let more = one_more(gaps);
    let none = Seq::<char>::empty();
    let a = decoding::rows(lines, gaps, i + 1);
    let b = decoding::rows(lines, more, i + 1);
    if i + 1 < lines.len() {
        lemma_rows_more(lines, gaps, i + 1);
        assert(more[i] == gaps[i]);
        let head = decoding::empty_lines(gaps[i]);
        assert(seq![lines[i]] + (head + a.push(none)) =~= (seq![lines[i]] + (head + a)).push(none));
    } else {
        assert(a =~= seq![]);
        assert(b =~= seq![]);
        assert(decoding::empty_lines(more[i]) + b =~= (decoding::empty_lines(gaps[i]) + a).push(
            none,
        ));
        assert(seq![lines[i]] + (decoding::empty_lines(gaps[i]) + a).push(none) =~= (seq![lines[i]]
            + (decoding::empty_lines(gaps[i]) + a)).push(none));
    }
}

/// One more empty row is one more line feed.
proof fn lemma_joined_more(rows: Seq<Seq<char>>)
    requires
        rows.len() > 0,
    ensures
        decoding::joined(rows.push(Seq::<char>::empty())) == decoding::joined(rows).push('\n'),
    decreases rows.len(),
{
    let none = Seq::<char>::empty();
    let all = rows.push(none);
    assert(all[0] == rows[0]);
    if rows.len() == 1 {
        assert(all.skip(1) =~= seq![none]);
        assert(decoding::joined(all.skip(1)) =~= none);
        assert(decoding::joined(all) =~= rows[0].push('\n'));
    } else {
        lemma_joined_more(rows.skip(1));
        assert(all.skip(1) =~= rows.skip(1).push(none));
        assert(decoding::joined(all) =~= decoding::joined(rows).push('\n'));
    }
}

/// What stands between lines does not depend on what is behind them.
proof fn lemma_lines_alike(lines: Seq<Seq<char>>, gaps: Seq<nat>, i: int)
    requires
        0 <= i < lines.len(),
        gaps.len() == lines.len(),
    ensures
        decoding::verbatim(lines, one_more(gaps), i) == decoding::verbatim(lines, gaps, i),
        decoding::folding(lines, one_more(gaps), i) == decoding::folding(lines, gaps, i),
    decreases lines.len() - i,
{
    if i + 1 < lines.len() {
        lemma_lines_alike(lines, gaps, i + 1);
        assert(one_more(gaps)[i] == gaps[i]);
    }
}

/// The style that a mark stands for.
pub open spec fn style_of(mark: char) -> BlockStyle {
    if mark == '|' {
        BlockStyle::Literal
    } else {
        BlockStyle::Folded
    }
}

/// What a block scalar token stands for, with a line break behind it.
proof fn lemma_token_value(
    mark: char,
    n: int,
    chomp: Chomp,
    lines: Seq<Seq<char>>,
    gaps: Seq<nat>,
)
    requires
        mark == '|' || mark == '>',
        n >= 0,
        lines.len() > 0,
        gaps.len() == lines.len(),
        forall|k: int| 0 <= k < lines.len() ==> is_line(#[trigger] lines[k]) && lines[k].len() > 0,
        lines[0][0] != ' ',
    ensures
        ({
            let raw = decoding::block_text(mark, n, false, chomp, lines, gaps);
            let kept = if decode::keeps_breaks(raw) {
                raw.push('\n')
            } else {
                raw
            };
            decode::block_value(kept, style_of(mark)) == Ok::<Seq<char>, DecodeFault>(
                block_result(style_of(mark), chomp, lines, gaps),
            )
        }),
{
    let raw = decoding::block_text(mark, n, false, chomp, lines, gaps);
    let indented = decoding::all_indented(lines, n);
    let rows = decoding::rows(indented, gaps, 0);
    assert forall|k: int| 0 <= k < lines.len() implies !(#[trigger] lines[k]).contains('\n') by {
        assert(is_line(lines[k]));
    }
    decoding::lemma_header(mark, n, false, chomp, decoding::joined(rows));
    if chomp is Keep {
        lemma_rows_more(indented, gaps, 0);
        decoding::lemma_rows_len(indented, gaps, 0);
        lemma_joined_more(rows);
        assert(raw.push('\n') =~= decoding::block_text(
            mark,
            n,
            false,
            chomp,
            lines,
            one_more(gaps),
        ));
        decoding::lemma_block_scalar_value(
            mark,
            style_of(mark),
            n,
            false,
            chomp,
            lines,
            one_more(gaps),
        );
        lemma_lines_alike(lines, gaps, 0);
    } else {
        decoding::lemma_block_scalar_value(mark, style_of(mark), n, false, chomp, lines, gaps);
    }
}

/// Where a block scalar ends.
#[verifier::spinoff_prover]
#[verifier::rlimit(80)]
proof fn lemma_block_end(
    s: Seq<u8>,
    p: int,
    mark: char,
    n: int,
    chomp: Chomp,
    lines: Seq<Seq<char>>,
    gaps: Seq<nat>,
    parent: int,
)
    requires
        mark == '|' || mark == '>',
        0 <= parent < n,
        lines.len() > 0,
        gaps.len() == lines.len(),
        forall|k: int| 0 <= k < lines.len() ==> is_line(#[trigger] lines[k]) && lines[k].len() > 0,
        lines[0][0] != ' ',
        standing::stands(s, p, decoding::block_text(mark, n, false, chomp, lines, gaps)),
        exists|k: int|
            k <= parent && #[trigger] standing::line_below(
                s,
                p + standing::size(decoding::block_text(mark, n, false, chomp, lines, gaps)),
                k,
            ),
    ensures
        0 <= p < s.len(),
        s[p] == mark as u8,
        lexer::block_scalar_end(s, p, parent) == Some(
            p + standing::size(decoding::block_text(mark, n, false, chomp, lines, gaps)),
        ),
{
    let raw = decoding::block_text(mark, n, false, chomp, lines, gaps);
    let all = p + standing::size(raw);
    let rows = decoding::rows(decoding::all_indented(lines, n), gaps, 0);
    let body = decoding::joined(rows);
    let sign = decoding::chomp_mark(chomp);
    let tail = seq!['\n'] + body;
    assert(raw =~= seq![mark] + (sign + tail));
    standing::lemma_first(s, p, mark, sign + tail);
    let h: int = p + 1 + sign.len();
    if chomp is Clip {
        assert(sign + tail =~= tail);
    } else {
        let c = sign[0];
        assert(sign =~= seq![c]);
        standing::lemma_first(s, p + 1, c, tail);
    }
    standing::lemma_first(s, h, '\n', body);
    assert(all == h + 1 + standing::size(body));
    assert(lexer::header_at(s, p).end == h);
    assert(lexer::header_at(s, p).indent is None);
    assert(lexer::run_end(s, h, ByteClass::Blank) == h);
    assert(lexer::header_line_end(s, p) == h);
    assert(lexer::block_scalar_end(s, p, parent) == Some(
        lexer::block_body_end(s, h, None, parent),
    ));
    assert forall|k: int| 0 <= k < lines.len() implies is_line(#[trigger] lines[k]) by {}
    lemma_rows_indented(lines, gaps, 0, n);
    decoding::lemma_rows_len(decoding::all_indented(lines, n), gaps, 0);
    lemma_first_row(s, h, rows);
    assert(rows[0] == text::spaces(n) + lines[0]);
    lemma_row(s, h, n, lines[0]);
    let f = h + 1 + standing::size(rows[0]);
    assert(lexer::block_body_end(s, h, None, parent) == lexer::block_body_end(
        s,
        f,
        Some(n),
        parent,
    ));
    if rows.len() == 1 {
        lemma_body_ends(s, f, n, parent);
    } else {
        let more = rows.skip(1);
        assert forall|j: int| 0 <= j < more.len() implies is_line(#[trigger] more[j]) && (
        more[j].len() == 0 || is_indented(more[j], n)) by {
            assert(more[j] == rows[j + 1]);
        }
        lemma_body(s, f, more, n, parent);
    }
}

/// A block scalar with lines that are indented by more than the node that holds it,
/// wherever it stands before a line that is not, is read as one scalar, and stands for
/// its lines: as they are where its mark is `|`, folded where it is `>`, and with no
/// line feed, one or all at the end, as its header says.
pub proof fn lemma_block_scalar_is_found(
    s: Seq<u8>,
    p: int,
    mark: char,
    n: int,
    chomp: Chomp,
    lines: Seq<Seq<char>>,
    gaps: Seq<nat>,
    parent: int,
)
    requires
        mark == '|' || mark == '>',
        0 <= parent < n,
        lines.len() > 0,
        gaps.len() == lines.len(),
        forall|k: int| 0 <= k < lines.len() ==> is_line(#[trigger] lines[k]) && lines[k].len() > 0,
        lines[0][0] != ' ',
        standing::stands(s, p, decoding::block_text(mark, n, false, chomp, lines, gaps)),
        exists|k: int|
            k <= parent && #[trigger] standing::line_below(
                s,
                p + standing::size(decoding::block_text(mark, n, false, chomp, lines, gaps)),
                k,
            ),
    ensures
        ({
            let r = grammar::block_scalar(s, p, parent);
            &&& grammar::block_scalar_at(s, p)
            &&& r.fault is None
            &&& r.len == standing::size(
                decoding::block_text(mark, n, false, chomp, lines, gaps),
            )
            &&& r.elems.len() == 1
            &&& scalar::scalar_value_in(r.elems[0], true) == Ok::<ValueModel, DecodeFault>(
                ValueModel::Text(block_result(style_of(mark), chomp, lines, gaps)),
            )
        }),
{
    reveal(grammar::block_scalar);
    reveal(lexer::hint_of);
    let raw = decoding::block_text(mark, n, false, chomp, lines, gaps);
    lemma_block_end(s, p, mark, n, chomp, lines, gaps, parent);
    standing::lemma_chars(s, p, raw);
    lemma_token_value(mark, n, chomp, lines, gaps);
    let r = grammar::block_scalar(s, p, parent);
    let t = r.elems[0].children()[0];
    assert(r.elems[0].children() =~= seq![t]);
    let f = scalar::value_tokens();
    assert(t.text() == raw);
    assert(f(t));
    assert(node::place_from(seq![t], 0, f) == Some(0int));
}

/// A block scalar is the value of the entry whose colon it stands behind, with a
/// space before it.
pub proof fn lemma_block_scalar_of_entry(s: Seq<u8>, p: int, n: int)
    requires
        0 <= p,
        p + 1 < s.len(),
        s[p] == 0x20,
        s[p + 1] == 0x7c || s[p + 1] == 0x3e,
    ensures
        grammar::entry_value(s, p, n) == grammar::cat(
            surviving::space_token(s, p),
            grammar::block_scalar(s, p + 1, n),
        ),
{
    reveal(lexer::hint_of);
    reveal(grammar::inline_trivia);
    assert(grammar::inline_trivia(s, p + 1) == grammar::none());
    surviving::lemma_value_head(s, p);
    assert(grammar::block_scalar_at(s, p + 1));
}

} // verus!

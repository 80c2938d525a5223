//! From the raw text of a scalar to the string it stands for.
//!
//! Covers plain, single-quoted, double-quoted, literal (`|`) and folded (`>`)
//! scalars. Purely syntactic: no tags, no type inference.

use vstd::prelude::*;
use vstd::string::*;
use vstd::utf8::*;

use crate::lexer;
use crate::lexer::{run, ByteClass};
use crate::text;
use crate::text::{
    chars_of, chars_slice, debug_text, decimal_chars, push_chars, push_newlines, slice,
    split_chars, string_of,
};

verus! {

broadcast use vstd::utf8::encode_utf8_valid_utf8;

/// Why the text of a scalar stands for nothing.
#[derive(Debug, Clone, PartialEq, Eq)]
pub enum DecodeError {
    /// The scalar has no value token.
    Empty,
    /// A quoted scalar lacks its quotes.
    MalformedQuoted,
    /// An unknown escape sequence in a double-quoted scalar.
    InvalidEscape { at: usize, text: String },
    /// A malformed payload of a numeric escape.
    InvalidHex { at: usize, text: String },
    /// A block scalar does not begin with `|` or `>`.
    MalformedBlockHeader,
    /// The indentation indicator conflicts with the body.
    BlockIndentMismatch,
}

/// A decoding error, as a mathematical value.
pub enum DecodeFault {
    Empty,
    MalformedQuoted,
    InvalidEscape { at: int, text: Seq<char> },
    InvalidHex { at: int, text: Seq<char> },
    MalformedBlockHeader,
    BlockIndentMismatch,
}

impl View for DecodeError {
    type V = DecodeFault;

    open spec fn view(&self) -> DecodeFault {
        match self {
            DecodeError::Empty => DecodeFault::Empty,
            DecodeError::MalformedQuoted => DecodeFault::MalformedQuoted,
            DecodeError::InvalidEscape { at, text } => DecodeFault::InvalidEscape {
                at: *at as int,
                text: text@,
            },
            DecodeError::InvalidHex { at, text } => DecodeFault::InvalidHex {
                at: *at as int,
                text: text@,
            },
            DecodeError::MalformedBlockHeader => DecodeFault::MalformedBlockHeader,
            DecodeError::BlockIndentMismatch => DecodeFault::BlockIndentMismatch,
        }
    }
}

/// Whether a result is the one that the mathematical value says.
pub open spec fn decodes_to(
    r: Result<String, DecodeError>,
    v: Result<Seq<char>, DecodeFault>,
) -> bool {
    match (r, v) {
        (Ok(s), Ok(t)) => s@ == t,
        (Err(e), Err(f)) => e@ == f,
        _ => false,
    }
}

/// How the lines of a block scalar are joined.
#[derive(Debug, Clone, Copy, PartialEq, Eq, Structural)]
pub enum BlockStyle {
    Literal,
    Folded,
}

/// What becomes of the line feeds at the end of a block scalar.
#[derive(Debug, Clone, Copy, PartialEq, Eq, Structural)]
pub enum Chomp {
    /// `-`: all are removed.
    Strip,
    /// The default: one is kept.
    Clip,
    /// `+`: all are kept.
    Keep,
}

// ---- Lines ----

/// Where the run of empty lines at `i` ends.
pub open spec fn blank_run(lines: Seq<Seq<char>>, i: int) -> int
    decreases lines.len() - i,
{
    if 0 <= i < lines.len() && lines[i].len() == 0 {
        blank_run(lines, i + 1)
    } else {
        i
    }
}

pub proof fn lemma_blank_run(lines: Seq<Seq<char>>, i: int)
    ensures
        i <= blank_run(lines, i),
        0 <= i <= lines.len() ==> blank_run(lines, i) <= lines.len(),
        0 <= i && blank_run(lines, i) < lines.len() ==> lines[blank_run(lines, i)].len() > 0,
    decreases lines.len() - i,
{
    if 0 <= i < lines.len() && lines[i].len() == 0 {
        lemma_blank_run(lines, i + 1);
    }
}

/// What `n` empty lines between two lines with content fold to: a space for
/// none, else a line feed each.
pub open spec fn fold_separator(n: int) -> Seq<char> {
    if n == 0 {
        seq![' ']
    } else {
        text::newlines(n)
    }
}

/// The lines from `i` on, folded onto a line with content before them. Empty
/// lines at the end are dropped.
pub open spec fn fold_rest(lines: Seq<Seq<char>>, i: int) -> Seq<char>
    decreases lines.len() - i,
{
    let e = blank_run(lines, i);
    proof {
        lemma_blank_run(lines, i);
    }
    if i < 0 || e >= lines.len() {
        seq![]
    } else {
        fold_separator(e - i) + lines[e] + fold_rest(lines, e + 1)
    }
}

/// Lines folded to one text. Empty lines at the start and the end are dropped.
pub open spec fn folded(lines: Seq<Seq<char>>) -> Seq<char> {
    let e = blank_run(lines, 0);
    if e >= lines.len() {
        seq![]
    } else {
        lines[e] + fold_rest(lines, e + 1)
    }
}

/// A space or a tab.
pub open spec fn is_blank_char(c: char) -> bool {
    c == ' ' || c == '\t'
}

/// `line` without the blanks at its start.
pub open spec fn trim_start(line: Seq<char>) -> Seq<char>
    decreases line.len(),
{
    if line.len() > 0 && is_blank_char(line[0]) {
        trim_start(line.drop_first())
    } else {
        line
    }
}

/// `line` without the blanks at its end.
pub open spec fn trim_tail(line: Seq<char>) -> Seq<char>
    decreases line.len(),
{
    if line.len() > 0 && is_blank_char(line.last()) {
        trim_tail(line.drop_last())
    } else {
        line
    }
}

/// `line` without the blanks at both ends.
pub open spec fn trimmed(line: Seq<char>) -> Seq<char> {
    trim_tail(trim_start(line))
}

/// Each line without the blanks at its ends.
pub open spec fn trimmed_lines(lines: Seq<Seq<char>>) -> Seq<Seq<char>> {
    Seq::new(lines.len(), |i: int| trimmed(lines[i]))
}

/// The lines of `s`, trimmed and folded.
pub open spec fn folded_text(s: Seq<char>) -> Seq<char> {
    folded(trimmed_lines(text::split_on(s, '\n')))
}

/// `line` without the blanks at both ends.
pub fn trim_line_spaces(line: &Vec<char>) -> (r: Vec<char>)
    ensures
        r@ == trimmed(line@),
{
    let mut a: usize = 0;
    assert(line@.subrange(0, line@.len() as int) =~= line@);
    while a < line.len() && (line[a] == ' ' || line[a] == '\t')
        invariant
            a <= line@.len(),
            trim_start(line@) == trim_start(line@.subrange(a as int, line@.len() as int)),
        decreases line@.len() - a,
    {
        assert(line@.subrange(a as int, line@.len() as int).drop_first() =~= line@.subrange(
            a + 1,
            line@.len() as int,
        ));
        a = a + 1;
    }
    let ghost mid = trim_start(line@);
    assert(mid == line@.subrange(a as int, line@.len() as int));
    let mut b: usize = line.len();
    while a < b && (line[b - 1] == ' ' || line[b - 1] == '\t')
        invariant
            a <= b <= line@.len(),
            trim_tail(mid) == trim_tail(line@.subrange(a as int, b as int)),
        decreases b,
    {
        assert(line@.subrange(a as int, b as int).drop_last() =~= line@.subrange(a as int, b - 1));
        b = b - 1;
    }
    chars_slice(line, a, b)
}

/// Folds lines to one text.
pub fn fold_lines(lines: &Vec<Vec<char>>) -> (r: Vec<char>)
    ensures
        r@ == folded(text::views(lines@)),
{
    let ghost ls = text::views(lines@);
    let mut out: Vec<char> = Vec::new();
    let mut i: usize = 0;
    while i < lines.len() && lines[i].len() == 0
        invariant
            i <= lines@.len(),
            ls == text::views(lines@),
            blank_run(ls, 0) == blank_run(ls, i as int),
        decreases lines@.len() - i,
    {
        assert(ls[i as int] == lines@[i as int]@);
        i = i + 1;
    }
    if i >= lines.len() {
        return out;
    }
    assert(ls[i as int] == lines@[i as int]@);
    push_chars(&mut out, &lines[i]);
    i = i + 1;
    assert(out@ + fold_rest(ls, i as int) =~= folded(ls));
    while i < lines.len()
        invariant
            i <= lines@.len(),
            ls == text::views(lines@),
            out@ + fold_rest(ls, i as int) == folded(ls),
        decreases lines@.len() - i,
    {
        let start = i;
        let mut e: usize = i;
        while e < lines.len() && lines[e].len() == 0
            invariant
                start <= e <= lines@.len(),
                ls == text::views(lines@),
                blank_run(ls, start as int) == blank_run(ls, e as int),
            decreases lines@.len() - e,
        {
            assert(ls[e as int] == lines@[e as int]@);
            e = e + 1;
        }
        if e >= lines.len() {
            assert(out@ =~= folded(ls));
            return out;
        }
        assert(ls[e as int] == lines@[e as int]@);
        let ghost before = out@;
        if e == start {
            out.push(' ');
        } else {
            push_newlines(&mut out, e - start);
        }
        assert(out@ =~= before + fold_separator(e - start));
        push_chars(&mut out, &lines[e]);
        i = e + 1;
        assert(out@ + fold_rest(ls, i as int) =~= before + fold_rest(ls, start as int));
    }
    assert(fold_rest(ls, i as int) =~= seq![]);
    assert(out@ =~= folded(ls));
    out
}

/// The lines of `s`, trimmed and folded.
fn fold_text(s: &Vec<char>) -> (r: Vec<char>)
    ensures
        r@ == folded_text(s@),
{
    let lines = split_chars(s, '\n');
    let mut out: Vec<Vec<char>> = Vec::new();
    let mut i: usize = 0;
    let ghost ls = text::views(lines@);
    while i < lines.len()
        invariant
            i <= lines@.len(),
            ls == text::views(lines@),
            text::views(out@) == trimmed_lines(ls).take(i as int),
        decreases lines@.len() - i,
    {
        let ghost before = out@;
        out.push(trim_line_spaces(&lines[i]));
        assert(ls[i as int] == lines@[i as int]@);
        assert(text::views(out@) =~= text::views(before).push(trimmed(ls[i as int])));
        assert(trimmed_lines(ls).take(i + 1) =~= trimmed_lines(ls).take(i as int).push(
            trimmed(ls[i as int]),
        ));
        i = i + 1;
    }
    assert(text::views(out@) =~= trimmed_lines(ls));
    fold_lines(&out)
}

// ---- Plain and single-quoted scalars ----

/// What a plain scalar stands for: its lines, trimmed and folded.
pub fn decode_plain(raw: &str) -> (r: String)
    ensures
        r@ == folded_text(raw@),
{
    string_of(&fold_text(&chars_of(raw)))
}

/// `s` from `i` on, with each pair of quotes turned into one.
pub open spec fn pair_quotes(s: Seq<char>, i: int) -> Seq<char>
    decreases s.len() - i,
{
    if !(0 <= i < s.len()) {
        seq![]
    } else if s[i] == '\'' && i + 1 < s.len() && s[i + 1] == '\'' {
        seq!['\''] + pair_quotes(s, i + 2)
    } else {
        seq![s[i]] + pair_quotes(s, i + 1)
    }
}

/// What a single-quoted scalar stands for. The lines are trimmed and folded, and
/// a pair of quotes stands for one.
pub open spec fn single_quoted_value(raw: Seq<char>) -> Result<Seq<char>, DecodeFault> {
    if raw.len() >= 2 && raw[0] == '\'' && raw.last() == '\'' {
        Ok(pair_quotes(folded_text(raw.subrange(1, raw.len() - 1)), 0))
    } else {
        Err(DecodeFault::MalformedQuoted)
    }
}

/// What a single-quoted scalar stands for.
pub fn decode_single_quoted(raw: &str) -> (r: Result<String, DecodeError>)
    ensures
        decodes_to(r, single_quoted_value(raw@)),
{
    let cs = chars_of(raw);
    if !(cs.len() >= 2 && cs[0] == '\'' && cs[cs.len() - 1] == '\'') {
        return Err(DecodeError::MalformedQuoted);
    }
    let inner = fold_text(&chars_slice(&cs, 1, cs.len() - 1));
    let mut paired: Vec<char> = Vec::new();
    let mut i: usize = 0;
    assert(paired@ + pair_quotes(inner@, 0) =~= pair_quotes(inner@, 0));
    while i < inner.len()
        invariant
            i <= inner@.len(),
            paired@ + pair_quotes(inner@, i as int) == pair_quotes(inner@, 0),
        decreases inner@.len() - i,
    {
        let ghost before = paired@;
        let ghost at = i as int;
        let c = inner[i];
        if c == '\'' && i + 1 < inner.len() && inner[i + 1] == '\'' {
            i = i + 2;
        } else {
            i = i + 1;
        }
        paired.push(c);
        assert(paired@ + pair_quotes(inner@, i as int) =~= before + pair_quotes(inner@, at));
    }
    assert(paired@ =~= pair_quotes(inner@, 0));
    Ok(string_of(&paired))
}

/// Pairing quotes from a place on is pairing those of the rest.
pub proof fn lemma_pair_quotes_shift(s: Seq<char>, i: int)
    requires
        0 <= i <= s.len(),
    ensures
        pair_quotes(s, i) == pair_quotes(s.skip(i), 0),
    decreases s.len() - i,
{
    let t = s.skip(i);
    if i < s.len() {
        if s[i] == '\'' && i + 1 < s.len() && s[i + 1] == '\'' {
            lemma_pair_quotes_shift(s, i + 2);
            lemma_pair_quotes_shift(t, 2);
            assert(t.skip(2) =~= s.skip(i + 2));
        } else {
            lemma_pair_quotes_shift(s, i + 1);
            lemma_pair_quotes_shift(t, 1);
            assert(t.skip(1) =~= s.skip(i + 1));
        }
    }
}

/// A text on one line is only trimmed.
pub proof fn lemma_fold_one_line(s: Seq<char>)
    requires
        !s.contains('\n'),
    ensures
        folded_text(s) == trimmed(s),
{
    let e = text::find_from(s, '\n', 0);
    text::lemma_find_from(s, '\n', 0);
    if e < s.len() {
        assert(s.contains(s[e]));
    }
    let lines = text::split_on(s, '\n');
    assert(lines =~= seq![s]) by {
        assert(s.skip(0) =~= s);
    }
    let t = trimmed_lines(lines);
    assert(t =~= seq![trimmed(s)]);
    assert(blank_run(t, 1) == 1);
    if trimmed(s).len() == 0 {
        assert(blank_run(t, 0) == 1);
        assert(trimmed(s) =~= seq![]);
    } else {
        assert(blank_run(t, 0) == 0);
        assert(fold_rest(t, 1) =~= seq![]);
        assert(t[0] + fold_rest(t, 1) =~= trimmed(s));
    }
}

// ---- Double-quoted scalars ----

/// What `n` line breaks fold to: nothing for none, a space for one, else one
/// line feed less than there were.
pub open spec fn fold_breaks(n: int) -> Seq<char> {
    if n <= 0 {
        seq![]
    } else if n == 1 {
        seq![' ']
    } else {
        text::newlines(n - 1)
    }
}

/// The character of an escape sequence of two bytes, by its second byte.
pub open spec fn plain_escape(b: u8) -> Option<char> {
    match b {
        0x30 => Some('\0'),
        0x61 => Some('\x07'),
        0x62 => Some('\x08'),
        0x74 => Some('\t'),
        0x09 => Some('\t'),
        0x6e => Some('\n'),
        0x76 => Some('\x0B'),
        0x66 => Some('\x0C'),
        0x72 => Some('\r'),
        0x65 => Some('\x1B'),
        0x20 => Some(' '),
        0x22 => Some('"'),
        0x2f => Some('/'),
        0x5c => Some('\\'),
        0x4e => Some('\u{85}'),
        0x5f => Some('\u{A0}'),
        0x4c => Some('\u{2028}'),
        0x50 => Some('\u{2029}'),
        _ => None,
    }
}

/// The value of a hexadecimal digit.
pub open spec fn hex_digit(b: u8) -> Option<int> {
    if 0x30 <= b <= 0x39 {
        Some(b - 0x30)
    } else if 0x61 <= b <= 0x66 {
        Some(b - 0x61 + 10)
    } else if 0x41 <= b <= 0x46 {
        Some(b - 0x41 + 10)
    } else {
        None
    }
}

/// The number that hexadecimal digits stand for; `None` if one is no digit.
pub open spec fn hex_digits_value(d: Seq<u8>) -> Option<int>
    decreases d.len(),
{
    if d.len() == 0 {
        Some(0)
    } else {
        match (hex_digits_value(d.drop_last()), hex_digit(d.last())) {
            (Some(h), Some(x)) => Some(16 * h + x),
            _ => None,
        }
    }
}

/// The number that the payload of a numeric escape stands for: at least one
/// digit, and nothing else.
pub open spec fn hex_value(d: Seq<u8>) -> Option<int> {
    if d.len() == 0 {
        None
    } else {
        hex_digits_value(d)
    }
}

/// Whether a character has the number `v`.
pub open spec fn names_char(v: int) -> bool {
    0 <= v <= 0x10ffff && is_scalar(v as u32)
}

/// The numeric escape at `i`, with a payload of `n` bytes: its character and
/// its length.
pub open spec fn hex_escape(s: Seq<u8>, i: int, n: int) -> Result<(char, int), DecodeFault> {
    let a = i + 2;
    let b = a + n;
    if b <= s.len() && is_char_boundary(s, b) {
        match hex_value(s.subrange(a, b)) {
            Some(v) if names_char(v) => Ok((v as char, n + 2)),
            _ => Err(DecodeFault::InvalidHex { at: i, text: text::chars_between(s, a, b) }),
        }
    } else {
        Err(DecodeFault::InvalidHex { at: a, text: text::chars_between(s, a, s.len() as int) })
    }
}

/// The escape sequence at `i`: its character and its length in bytes.
pub open spec fn escape_at(s: Seq<u8>, i: int) -> Result<(char, int), DecodeFault> {
    if i + 1 >= s.len() {
        Err(DecodeFault::InvalidEscape { at: i, text: seq!['\\'] })
    } else {
        match plain_escape(s[i + 1]) {
            Some(c) => Ok((c, 2)),
            None => if s[i + 1] == 0x78 {
                hex_escape(s, i, 2)
            } else if s[i + 1] == 0x75 {
                hex_escape(s, i, 4)
            } else if s[i + 1] == 0x55 {
                hex_escape(s, i, 8)
            } else {
                Err(DecodeFault::InvalidEscape { at: i, text: seq!['\\', s[i + 1] as char] })
            },
        }
    }
}

/// What comes before `v`, then `v`; an error stays one.
pub open spec fn prefixed(
    head: Seq<char>,
    v: Result<Seq<char>, DecodeFault>,
) -> Result<Seq<char>, DecodeFault> {
    match v {
        Ok(t) => Ok(head + t),
        Err(e) => Err(e),
    }
}

/// What the inside of a double-quoted scalar stands for, from byte `i` on, with
/// `pending` line breaks read before it.
///
/// A line break takes the blanks behind it along and is folded with its
/// neighbours; an escaped one vanishes with the spaces behind it. Line breaks
/// at the end are folded as ones between content, but a single one is dropped.
pub open spec fn double_quoted_from(s: Seq<u8>, i: int, pending: int) -> Result<
    Seq<char>,
    DecodeFault,
>
    decreases s.len() - i,
{
    proof {
        lexer::lemma_run_end(s, i + 1, ByteClass::Blank);
        lexer::lemma_run_end(s, i + 2, ByteClass::Space);
        lexer::lemma_run_end(s, i + 1, ByteClass::Content);
    }
    if !(0 <= i < s.len()) {
        Ok(
            if pending <= 1 {
                seq![]
            } else {
                fold_breaks(pending)
            },
        )
    } else if s[i] == 0x0a {
        double_quoted_from(s, lexer::run_end(s, i + 1, ByteClass::Blank), pending + 1)
    } else if s[i] == 0x5c && lexer::byte_is(s, i + 1, 0x0a) {
        prefixed(
            fold_breaks(pending),
            double_quoted_from(s, lexer::run_end(s, i + 2, ByteClass::Space), 0),
        )
    } else if s[i] == 0x5c {
        match escape_at(s, i) {
            Ok((c, n)) => prefixed(
                fold_breaks(pending) + seq![c],
                double_quoted_from(s, i + n, 0),
            ),
            Err(e) => Err(e),
        }
    } else {
        let e = lexer::run_end(s, i, ByteClass::Content);
        prefixed(
            fold_breaks(pending) + text::chars_between(s, i, e),
            double_quoted_from(s, e, 0),
        )
    }
}

/// What a double-quoted scalar stands for.
pub open spec fn double_quoted_value(raw: Seq<u8>) -> Result<Seq<char>, DecodeFault> {
    if raw.len() >= 2 && raw[0] == 0x22 && raw.last() == 0x22 {
        double_quoted_from(raw.subrange(1, raw.len() - 1), 0, 0)
    } else {
        Err(DecodeFault::MalformedQuoted)
    }
}

/// The value of a hexadecimal digit.
fn digit_of(b: u8) -> (r: Option<u32>)
    ensures
        match r {
            Some(v) => hex_digit(b) == Some(v as int) && v < 16,
            None => hex_digit(b) is None,
        },
{
    if 0x30 <= b && b <= 0x39 {
        Some((b - 0x30) as u32)
    } else if 0x61 <= b && b <= 0x66 {
        Some((b - 0x61) as u32 + 10)
    } else if 0x41 <= b && b <= 0x46 {
        Some((b - 0x41) as u32 + 10)
    } else {
        None
    }
}

/// The character whose code the payload `hex` of the escape at `at` gives.
pub fn unicode_from_hex(hex: &str, at: usize) -> (r: Result<char, DecodeError>)
    ensures
        match hex_value(hex.spec_bytes()) {
            Some(v) if names_char(v) => r == Ok::<char, DecodeError>(v as char),
            _ => r is Err && r->Err_0@ == (DecodeFault::InvalidHex { at: at as int, text: hex@ }),
        },
{
    let bytes = hex.as_bytes();
    let ghost d = bytes@;
    let bad = DecodeError::InvalidHex { at, text: string_of(&chars_of(hex)) };
    if bytes.len() == 0 {
        return Err(bad);
    }
    let mut i: usize = 0;
    let mut v: u32 = 0;
    let mut over = false;
    while i < bytes.len()
        invariant
            bytes@ == d,
            i <= d.len(),
            d.len() > 0,
            hex_digits_value(d.take(i as int)) is Some,
            over ==> hex_digits_value(d.take(i as int))->0 > 0x10ffff,
            !over ==> hex_digits_value(d.take(i as int))->0 == v && v <= 0x10ffff,
            d == hex.spec_bytes(),
            bad@ == (DecodeFault::InvalidHex { at: at as int, text: hex@ }),
        decreases d.len() - i,
    {
        assert(d.take(i + 1).drop_last() =~= d.take(i as int));
        match digit_of(bytes[i]) {
            Some(x) => {
                if !over {
                    v = 16 * v + x;
                    if v > 0x10ffff {
                        over = true;
                    }
                }
            },
            None => {
                proof {
                    lemma_bad_digit(d, i as int);
                }
                return Err(bad);
            },
        }
        i = i + 1;
    }
    assert(d.take(i as int) =~= d);
    if over {
        return Err(bad);
    }
    match char::from_u32(v) {
        Some(c) => Ok(c),
        None => Err(bad),
    }
}

/// One byte that is no digit spoils the number.
proof fn lemma_bad_digit(d: Seq<u8>, i: int)
    requires
        0 <= i < d.len(),
        hex_digit(d[i]) is None,
    ensures
        hex_digits_value(d) is None,
    decreases d.len(),
{
    if i < d.len() - 1 {
        lemma_bad_digit(d.drop_last(), i);
    }
}

/// The payload of `len` bytes at `start`, if it is there and whole.
pub fn hex_slice<'a>(src: &'a str, start: usize, len: usize) -> (r: Result<&'a str, DecodeError>)
    requires
        start <= src.spec_bytes().len(),
        is_char_boundary(src.spec_bytes(), start as int),
    ensures
        ({
            let s = src.spec_bytes();
            match r {
                Ok(t) => start + len <= s.len() && is_char_boundary(s, start + len)
                    && t.spec_bytes() == s.subrange(start as int, start + len) && t@
                    == text::chars_between(s, start as int, start + len),
                Err(e) => !(start + len <= s.len() && is_char_boundary(s, start + len)) && e@
                    == (DecodeFault::InvalidHex {
                    at: start as int,
                    text: text::chars_between(s, start as int, s.len() as int),
                }),
            }
        }),
{
    let total = src.as_bytes().len();
    proof {
        is_char_boundary_start_end_of_seq(src.spec_bytes());
    }
    if len <= total - start && src.is_char_boundary(start + len) {
        Ok(slice(src, start, start + len))
    } else {
        let rest = slice(src, start, total);
        Err(DecodeError::InvalidHex { at: start, text: string_of(&chars_of(rest)) })
    }
}

/// The character of an escape sequence of two bytes, by its second byte.
fn plain_escape_of(b: u8) -> (r: Option<char>)
    ensures
        r == plain_escape(b),
{
    match b {
        0x30 => Some('\0'),
        0x61 => Some('\x07'),
        0x62 => Some('\x08'),
        0x74 | 0x09 => Some('\t'),
        0x6e => Some('\n'),
        0x76 => Some('\x0B'),
        0x66 => Some('\x0C'),
        0x72 => Some('\r'),
        0x65 => Some('\x1B'),
        0x20 => Some(' '),
        0x22 => Some('"'),
        0x2f => Some('/'),
        0x5c => Some('\\'),
        0x4e => Some('\u{85}'),
        0x5f => Some('\u{A0}'),
        0x4c => Some('\u{2028}'),
        0x50 => Some('\u{2029}'),
        _ => None,
    }
}

/// Decodes the escape sequence at byte `at` of `src`: its character and the
/// number of bytes it takes, the backslash among them.
pub fn decode_dq_escape(src: &str, at: usize) -> (r: Result<(char, usize), DecodeError>)
    requires
        lexer::byte_is(src.spec_bytes(), at as int, 0x5c),
    ensures
        match r {
            Ok((c, n)) => escape_at(src.spec_bytes(), at as int) == Ok::<(char, int), DecodeFault>(
                (c, n as int),
            ),
            Err(e) => escape_at(src.spec_bytes(), at as int) == Err::<(char, int), DecodeFault>(e@),
        },
{
    let bytes = src.as_bytes();
    let len = bytes.len();
    let ghost s = bytes@;
    if at + 1 >= len {
        let mut t = String::new();
        t.push('\\');
        assert(t@ =~= seq!['\\']);
        return Err(DecodeError::InvalidEscape { at, text: t });
    }
    let next = bytes[at + 1];
    if let Some(c) = plain_escape_of(next) {
        return Ok((c, 2));
    }
    let n: usize = match next {
        0x78 => 2,
        0x75 => 4,
        0x55 => 8,
        other => {
            let mut t = String::new();
            t.push('\\');
            t.push(other as char);
            assert(t@ =~= seq!['\\', s[at + 1] as char]);
            return Err(DecodeError::InvalidEscape { at, text: t });
        },
    };
    proof {
        text::lemma_boundary(s, at + 2);
    }
    match hex_slice(src, at + 2, n) {
        Ok(hex) => match unicode_from_hex(hex, at) {
            Ok(c) => Ok((c, n + 2)),
            Err(e) => Err(e),
        },
        Err(e) => Err(e),
    }
}

/// Appends what `n` line breaks fold to.
fn push_breaks(out: &mut Vec<char>, n: usize)
    ensures
        final(out)@ == old(out)@ + fold_breaks(n as int),
{
    if n == 1 {
        out.push(' ');
        assert(out@ =~= old(out)@ + fold_breaks(n as int));
    } else if n > 1 {
        push_newlines(out, n - 1);
    } else {
        assert(out@ =~= old(out)@ + fold_breaks(n as int));
    }
}

/// What a double-quoted scalar stands for.
pub fn decode_double_quoted(raw: &str) -> (r: Result<String, DecodeError>)
    ensures
        decodes_to(r, double_quoted_value(raw.spec_bytes())),
{
    let raw_bytes = raw.as_bytes();
    let raw_len = raw_bytes.len();
    let ghost rs = raw_bytes@;
    if !(raw_len >= 2 && raw_bytes[0] == 0x22 && raw_bytes[raw_len - 1] == 0x22) {
        return Err(DecodeError::MalformedQuoted);
    }
    proof {
        text::lemma_boundary(rs, 1);
        text::lemma_boundary(rs, raw_len - 1);
    }
    let inner = slice(raw, 1, raw_len - 1);
    let bytes = inner.as_bytes();
    let len = bytes.len();
    let ghost s = bytes@;
    assert(s =~= rs.subrange(1, rs.len() - 1));
    let ghost goal = double_quoted_from(s, 0, 0);
    let mut out: Vec<char> = Vec::new();
    let mut i: usize = 0;
    let mut pending: usize = 0;
    assert(prefixed(out@, goal) == goal) by {
        if let Ok(t) = goal {
            assert(out@ + t =~= t);
        }
    }
    while i < len
        invariant
            bytes@ == s,
            len == s.len(),
            s == inner.spec_bytes(),
            i <= len,
            pending <= i,
            i == 0 || i == len || s[i as int] < 0x80 || s[i - 1] < 0x80,
            goal == double_quoted_value(raw.spec_bytes()),
            prefixed(out@, double_quoted_from(s, i as int, pending as int)) == goal,
        decreases len - i,
    {
        let ghost before = out@;
        let ghost at = i as int;
        let ghost rest = double_quoted_from(s, at, pending as int);
        let b = bytes[i];
        proof {
            lexer::lemma_run_end(s, at + 1, ByteClass::Blank);
            lexer::lemma_run_end(s, at + 2, ByteClass::Space);
            lexer::lemma_run_end(s, at, ByteClass::Content);
            text::lemma_boundary(s, at);
        }
        if b == 0x0a {
            pending = pending + 1;
            i = run(bytes, i + 1, ByteClass::Blank);
            continue ;
        }
        push_breaks(&mut out, pending);
        let ghost folded_before = fold_breaks(pending as int);
        pending = 0;
        if b == 0x5c {
            if i + 1 < len && bytes[i + 1] == 0x0a {
                i = run(bytes, i + 2, ByteClass::Space);
                proof {
                    lemma_prefixed(before, folded_before, double_quoted_from(s, i as int, 0));
                }
                continue ;
            }
            match decode_dq_escape(inner, i) {
                Ok((c, n)) => {
                    proof {
                        lemma_escape_end(s, at);
                    }
                    out.push(c);
                    i = i + n;
                    assert(out@ =~= before + (folded_before + seq![c]));
                    proof {
                        lemma_prefixed(
                            before,
                            folded_before + seq![c],
                            double_quoted_from(s, i as int, 0),
                        );
                    }
                },
                Err(e) => {
                    return Err(e);
                },
            }
            continue ;
        }
        let e = run(bytes, i, ByteClass::Content);
        proof {
            text::lemma_boundary(s, e as int);
        }
        let chunk = chars_of(slice(inner, i, e));
        push_chars(&mut out, &chunk);
        assert(out@ =~= before + (folded_before + text::chars_between(s, at, e as int)));
        i = e;
        proof {
            lemma_prefixed(
                before,
                folded_before + text::chars_between(s, at, e as int),
                double_quoted_from(s, e as int, 0),
            );
        }
    }
    if pending > 1 {
        push_breaks(&mut out, pending);
    } else {
        assert(out@ + Seq::<char>::empty() =~= out@);
    }
    Ok(string_of(&out))
}

/// Two prefixes in a row are one.
proof fn lemma_prefixed(a: Seq<char>, b: Seq<char>, v: Result<Seq<char>, DecodeFault>)
    ensures
        prefixed(a + b, v) == prefixed(a, prefixed(b, v)),
{
    if let Ok(t) = v {
        assert(a + b + t =~= a + (b + t));
    }
}

/// A valid escape sequence ends within the text, behind or before an ASCII
/// byte.
proof fn lemma_escape_end(s: Seq<u8>, i: int)
    requires
        valid_utf8(s),
        lexer::byte_is(s, i, 0x5c),
    ensures
        escape_at(s, i) matches Ok((c, n)) ==> {
            &&& 2 <= n
            &&& i + n <= s.len()
            &&& s[i + n - 1] < 0x80
        },
{
    if let Ok((c, n)) = escape_at(s, i) {
        if plain_escape(s[i + 1]) is None {
            let d = s.subrange(i + 2, i + n);
            assert(d.last() == s[i + n - 1]);
        }
    }
}

// ---- Block scalars ----

/// The header of a block scalar read so far.
pub struct BlockHeader {
    pub indent: Option<int>,
    pub chomp: Chomp,
    pub end: int,
}

/// One more header indicator, if one stands there.
pub open spec fn block_header_step(s: Seq<char>, h: BlockHeader) -> BlockHeader {
    if !(0 <= h.end < s.len()) {
        h
    } else if '1' <= s[h.end] <= '9' && h.indent is None {
        BlockHeader { indent: Some(s[h.end] as int - '0' as int), end: h.end + 1, ..h }
    } else if s[h.end] == '+' && h.chomp == Chomp::Clip {
        BlockHeader { chomp: Chomp::Keep, end: h.end + 1, ..h }
    } else if s[h.end] == '-' && h.chomp == Chomp::Clip {
        BlockHeader { chomp: Chomp::Strip, end: h.end + 1, ..h }
    } else {
        h
    }
}

/// The header of the block scalar `s`.
pub open spec fn block_header(s: Seq<char>) -> BlockHeader {
    block_header_step(
        s,
        block_header_step(s, BlockHeader { indent: None, chomp: Chomp::Clip, end: 1 }),
    )
}

/// Where the line that `i` stands on ends.
pub open spec fn line_end_from(s: Seq<char>, i: int) -> int
    decreases s.len() - i,
{
    if 0 <= i < s.len() && s[i] != '\n' && s[i] != '\r' {
        line_end_from(s, i + 1)
    } else {
        i
    }
}

/// Where the body of the block scalar `s` begins: behind the first line break,
/// or at the end of the text where there is none.
pub open spec fn block_body_start(s: Seq<char>) -> int {
    let e = line_end_from(s, block_header(s).end);
    if e >= s.len() {
        s.len() as int
    } else if s[e] == '\r' && e + 1 < s.len() && s[e + 1] == '\n' {
        e + 2
    } else {
        e + 1
    }
}

/// The number of spaces at the start of `line`.
pub open spec fn leading_spaces(line: Seq<char>) -> int
    decreases line.len(),
{
    if line.len() > 0 && line[0] == ' ' {
        1 + leading_spaces(line.drop_first())
    } else {
        0
    }
}

/// The indentation of the first line that holds more than spaces, from `i` on;
/// 0 if there is none.
pub open spec fn indent_from(lines: Seq<Seq<char>>, i: int) -> int
    decreases lines.len() - i,
{
    if !(0 <= i < lines.len()) {
        0
    } else if leading_spaces(lines[i]) < lines[i].len() {
        leading_spaces(lines[i])
    } else {
        indent_from(lines, i + 1)
    }
}

/// `line` without its first `n` spaces, or as many as it has.
pub open spec fn strip_indent(line: Seq<char>, n: int) -> Seq<char> {
    if leading_spaces(line) < n {
        line.skip(leading_spaces(line))
    } else {
        line.skip(n)
    }
}

/// Each line without its indentation by `n`.
pub open spec fn strip_lines(lines: Seq<Seq<char>>, n: int) -> Seq<Seq<char>> {
    Seq::new(lines.len(), |i: int| strip_indent(lines[i], n))
}

/// The lines from `i` on, each behind a line feed.
pub open spec fn literal_rest(lines: Seq<Seq<char>>, i: int) -> Seq<char>
    decreases lines.len() - i,
{
    if 0 <= i < lines.len() {
        seq!['\n'] + lines[i] + literal_rest(lines, i + 1)
    } else {
        seq![]
    }
}

/// The lines, with line feeds between them.
pub open spec fn literal_text(lines: Seq<Seq<char>>) -> Seq<char> {
    if lines.len() == 0 {
        seq![]
    } else {
        lines[0] + literal_rest(lines, 1)
    }
}

/// Whether `line` is indented by more than its block.
pub open spec fn more_indented(line: Seq<char>) -> bool {
    line.len() > 0 && is_blank_char(line[0])
}

/// The lines from `i` on, folded onto the line with content before them.
/// Between two lines with content, `n` empty lines give `n` line feeds; no
/// empty line gives a space, or a line feed beside a more indented line. Empty
/// lines at the end give one line feed each.
pub open spec fn block_fold_rest(lines: Seq<Seq<char>>, i: int) -> Seq<char>
    decreases lines.len() - i,
{
    let e = blank_run(lines, i);
    proof {
        lemma_blank_run(lines, i);
    }
    if !(0 <= i < lines.len()) {
        seq![]
    } else if e >= lines.len() {
        text::newlines(e - i)
    } else {
        let sep = if e > i {
            text::newlines(e - i)
        } else if more_indented(lines[i - 1]) || more_indented(lines[e]) {
            seq!['\n']
        } else {
            seq![' ']
        };
        sep + lines[e] + block_fold_rest(lines, e + 1)
    }
}

/// The lines of a folded block scalar, joined. Empty lines at the start give a
/// line feed each; where there are no others, one less than there are lines.
pub open spec fn block_folded_text(lines: Seq<Seq<char>>) -> Seq<char> {
    let e = blank_run(lines, 0);
    if lines.len() == 0 {
        seq![]
    } else if e >= lines.len() {
        text::newlines(e - 1)
    } else {
        text::newlines(e) + lines[e] + block_fold_rest(lines, e + 1)
    }
}

/// `s` without the line feeds at its end.
pub open spec fn strip_newlines(s: Seq<char>) -> Seq<char>
    decreases s.len(),
{
    if s.len() > 0 && s.last() == '\n' {
        strip_newlines(s.drop_last())
    } else {
        s
    }
}

/// `s` with the line feeds at its end that `chomp` leaves: all there are, none,
/// or one, whether or not the last line was ended.
pub open spec fn chomped(s: Seq<char>, chomp: Chomp) -> Seq<char> {
    match chomp {
        Chomp::Keep => s,
        Chomp::Strip => strip_newlines(s),
        Chomp::Clip => if s.len() > 0 {
            strip_newlines(s).push('\n')
        } else {
            s
        },
    }
}

/// What a block scalar stands for: the lines of its body without their
/// indentation, joined by the style, with the line feeds at the end that the
/// chomping indicator leaves.
pub open spec fn block_value(raw: Seq<char>, style: BlockStyle) -> Result<Seq<char>, DecodeFault> {
    if raw.len() == 0 || !(raw[0] == '|' || raw[0] == '>') {
        Err(DecodeFault::MalformedBlockHeader)
    } else {
        let h = block_header(raw);
        let body = raw.skip(block_body_start(raw));
        if body.len() == 0 {
            Ok(seq![])
        } else {
            let lines = text::split_on(body, '\n');
            let indent = match h.indent {
                Some(n) => n,
                None => indent_from(lines, 0),
            };
            let stripped = strip_lines(lines, indent);
            let joined = match style {
                BlockStyle::Literal => literal_text(stripped),
                BlockStyle::Folded => block_folded_text(stripped),
            };
            Ok(chomped(joined, h.chomp))
        }
    }
}

/// Whether a block scalar keeps all line breaks at its end, and has a body.
pub open spec fn keeps_breaks(raw: Seq<char>) -> bool {
    let h = block_header(raw);
    raw.len() > 0 && h.chomp == Chomp::Keep && line_end_from(raw, h.end) < raw.len()
}

/// Whether a block scalar keeps all line breaks at its end, and has a body.
pub fn keeps_line_breaks(raw: &str) -> (r: bool)
    ensures
        r == keeps_breaks(raw@),
{
    let s = chars_of(raw);
    if s.len() == 0 {
        return false;
    }
    let (_, chomp, header_end) = read_block_header(&s);
    let mut e: usize = header_end;
    while e < s.len() && s[e] != '\n' && s[e] != '\r'
        invariant
            header_end <= e <= s@.len(),
            line_end_from(s@, header_end as int) == line_end_from(s@, e as int),
        decreases s@.len() - e,
    {
        e = e + 1;
    }
    let keep = match chomp {
        Chomp::Keep => true,
        _ => false,
    };
    keep && e < s.len()
}

/// The number of spaces at the start of `line`.
fn count_leading_spaces(line: &Vec<char>) -> (r: usize)
    ensures
        r == leading_spaces(line@),
        r <= line@.len(),
{
    let mut i: usize = 0;
    assert(line@.skip(0) =~= line@);
    while i < line.len() && line[i] == ' '
        invariant
            i <= line@.len(),
            leading_spaces(line@) == i + leading_spaces(line@.skip(i as int)),
        decreases line@.len() - i,
    {
        assert(line@.skip(i as int).drop_first() =~= line@.skip(i + 1));
        i = i + 1;
    }
    i
}

/// The indentation of the first line that holds more than spaces; 0 if there is
/// none.
pub fn detect_indent(lines: &Vec<Vec<char>>) -> (r: usize)
    ensures
        r == indent_from(text::views(lines@), 0),
{
    let ghost ls = text::views(lines@);
    let mut i: usize = 0;
    while i < lines.len()
        invariant
            i <= lines@.len(),
            ls == text::views(lines@),
            indent_from(ls, 0) == indent_from(ls, i as int),
        decreases lines@.len() - i,
    {
        let n = count_leading_spaces(&lines[i]);
        assert(ls[i as int] == lines@[i as int]@);
        if n < lines[i].len() {
            return n;
        }
        i = i + 1;
    }
    0
}

/// The lines, with line feeds between them.
pub fn join_literal(lines: &Vec<Vec<char>>) -> (r: Vec<char>)
    ensures
        r@ == literal_text(text::views(lines@)),
{
    let ghost ls = text::views(lines@);
    let mut out: Vec<char> = Vec::new();
    if lines.len() == 0 {
        return out;
    }
    assert(ls[0] == lines@[0]@);
    push_chars(&mut out, &lines[0]);
    let mut i: usize = 1;
    assert(out@ + literal_rest(ls, 1) =~= literal_text(ls));
    while i < lines.len()
        invariant
            i <= lines@.len(),
            ls == text::views(lines@),
            out@ + literal_rest(ls, i as int) == literal_text(ls),
        decreases lines@.len() - i,
    {
        let ghost before = out@;
        assert(ls[i as int] == lines@[i as int]@);
        out.push('\n');
        push_chars(&mut out, &lines[i]);
        assert(out@ + literal_rest(ls, i + 1) =~= before + literal_rest(ls, i as int));
        i = i + 1;
    }
    assert(out@ =~= literal_text(ls));
    out
}

/// Whether `line` is indented by more than its block.
fn is_more_indented(line: &Vec<char>) -> (r: bool)
    ensures
        r == more_indented(line@),
{
    line.len() > 0 && (line[0] == ' ' || line[0] == '\t')
}

/// Where the run of empty lines at `from` ends.
fn skip_blank_lines(lines: &Vec<Vec<char>>, from: usize) -> (r: usize)
    requires
        from <= lines@.len(),
    ensures
        r == blank_run(text::views(lines@), from as int),
        from <= r <= lines@.len(),
{
    let ghost ls = text::views(lines@);
    let mut i: usize = from;
    while i < lines.len() && lines[i].len() == 0
        invariant
            from <= i <= lines@.len(),
            ls == text::views(lines@),
            blank_run(ls, from as int) == blank_run(ls, i as int),
        decreases lines@.len() - i,
    {
        assert(ls[i as int] == lines@[i as int]@);
        i = i + 1;
    }
    if i < lines.len() {
        assert(ls[i as int] == lines@[i as int]@);
    }
    i
}

/// The lines of a folded block scalar, joined.
pub fn join_folded(lines: &Vec<Vec<char>>) -> (r: Vec<char>)
    ensures
        r@ == block_folded_text(text::views(lines@)),
{
    let ghost ls = text::views(lines@);
    let mut out: Vec<char> = Vec::new();
    if lines.len() == 0 {
        return out;
    }
    let first = skip_blank_lines(lines, 0);
    if first >= lines.len() {
        push_newlines(&mut out, first - 1);
        assert(out@ =~= text::newlines(first - 1));
        return out;
    }
    push_newlines(&mut out, first);
    assert(out@ =~= text::newlines(first as int));
    assert(ls[first as int] == lines@[first as int]@);
    push_chars(&mut out, &lines[first]);
    let mut i: usize = first + 1;
    assert(out@ + block_fold_rest(ls, i as int) =~= block_folded_text(ls));
    while i < lines.len()
        invariant
            0 < i <= lines@.len(),
            ls == text::views(lines@),
            out@ + block_fold_rest(ls, i as int) == block_folded_text(ls),
        decreases lines@.len() - i,
    {
        let ghost before = out@;
        let e = skip_blank_lines(lines, i);
        let blanks = e - i;
        if e >= lines.len() {
            push_newlines(&mut out, blanks);
            assert(out@ =~= block_folded_text(ls));
            return out;
        }
        assert(ls[e as int] == lines@[e as int]@);
        assert(ls[i - 1] == lines@[i - 1]@);
        if blanks > 0 {
            push_newlines(&mut out, blanks);
        } else if is_more_indented(&lines[i - 1]) || is_more_indented(&lines[e]) {
            out.push('\n');
        } else {
            out.push(' ');
        }
        push_chars(&mut out, &lines[e]);
        assert(out@ + block_fold_rest(ls, e + 1) =~= before + block_fold_rest(ls, i as int));
        i = e + 1;
    }
    assert(out@ =~= block_folded_text(ls));
    out
}

/// `s` with the line feeds at its end that `chomp` leaves.
pub fn apply_chomp(s: &Vec<char>, chomp: Chomp) -> (r: Vec<char>)
    ensures
        r@ == chomped(s@, chomp),
{
    let mut e: usize = s.len();
    assert(s@.take(e as int) =~= s@);
    if chomp == Chomp::Keep {
        return chars_slice(s, 0, e);
    }
    while e > 0 && s[e - 1] == '\n'
        invariant
            e <= s@.len(),
            strip_newlines(s@) == strip_newlines(s@.take(e as int)),
        decreases e,
    {
        assert(s@.take(e as int).drop_last() =~= s@.take(e - 1));
        e = e - 1;
    }
    let mut out = chars_slice(s, 0, e);
    if s.len() > 0 && chomp == Chomp::Clip {
        out.push('\n');
    }
    out
}

/// The header of the block scalar `s`: its indentation indicator, its chomping
/// and where it ends.
fn read_block_header(s: &Vec<char>) -> (r: (Option<usize>, Chomp, usize))
    requires
        s@.len() > 0,
    ensures
        r.1 == block_header(s@).chomp,
        r.2 == block_header(s@).end,
        r.2 <= s@.len(),
        match r.0 {
            Some(n) => block_header(s@).indent == Some(n as int),
            None => block_header(s@).indent is None,
        },
{
    let mut indent: Option<usize> = None;
    let mut chomp = Chomp::Clip;
    let mut i: usize = 1;
    let mut round: usize = 0;
    let ghost mut h = BlockHeader { indent: None, chomp: Chomp::Clip, end: 1 };
    while round < 2
        invariant
            round <= 2,
            0 < i <= s@.len(),
            h.end == i,
            h.chomp == chomp,
            match indent {
                Some(n) => h.indent == Some(n as int),
                None => h.indent is None,
            },
            round == 0 ==> block_header_step(s@, block_header_step(s@, h)) == block_header(s@),
            round == 1 ==> block_header_step(s@, h) == block_header(s@),
            round == 2 ==> h == block_header(s@),
        decreases 2 - round,
    {
        proof {
            h = block_header_step(s@, h);
        }
        if i < s.len() {
            let c = s[i];
            if '1' <= c && c <= '9' && indent.is_none() {
                indent = Some((c as u32 - '0' as u32) as usize);
                i = i + 1;
            } else if c == '+' && chomp == Chomp::Clip {
                chomp = Chomp::Keep;
                i = i + 1;
            } else if c == '-' && chomp == Chomp::Clip {
                chomp = Chomp::Strip;
                i = i + 1;
            }
        }
        round = round + 1;
    }
    (indent, chomp, i)
}

/// What a block scalar stands for.
pub fn decode_block(raw: &str, style: BlockStyle) -> (r: Result<String, DecodeError>)
    ensures
        decodes_to(r, block_value(raw@, style)),
{
    let s = chars_of(raw);
    if s.len() == 0 || !(s[0] == '|' || s[0] == '>') {
        return Err(DecodeError::MalformedBlockHeader);
    }
    let (explicit, chomp, header_end) = read_block_header(&s);
    let mut e: usize = header_end;
    while e < s.len() && s[e] != '\n' && s[e] != '\r'
        invariant
            header_end <= e <= s@.len(),
            line_end_from(s@, header_end as int) == line_end_from(s@, e as int),
        decreases s@.len() - e,
    {
        e = e + 1;
    }
    if e >= s.len() {
        assert(s@.skip(s@.len() as int) =~= seq![]);
        return Ok(String::new());
    }
    let start = if s[e] == '\r' && e + 1 < s.len() && s[e + 1] == '\n' {
        e + 2
    } else {
        e + 1
    };
    let body = chars_slice(&s, start, s.len());
    assert(body@ =~= s@.skip(start as int));
    if body.len() == 0 {
        return Ok(String::new());
    }
    let lines = split_chars(&body, '\n');
    let ghost ls = text::views(lines@);
    let indent = match explicit {
        Some(n) => n,
        None => detect_indent(&lines),
    };
    let mut stripped: Vec<Vec<char>> = Vec::new();
    let mut i: usize = 0;
    while i < lines.len()
        invariant
            i <= lines@.len(),
            ls == text::views(lines@),
            text::views(stripped@) == strip_lines(ls, indent as int).take(i as int),
        decreases lines@.len() - i,
    {
        let line = &lines[i];
        let spaces = count_leading_spaces(line);
        assert(ls[i as int] == lines@[i as int]@);
        let cut = if spaces < indent {
            spaces
        } else {
            indent
        };
        let ghost before = stripped@;
        stripped.push(chars_slice(line, cut, line.len()));
        assert(stripped@.last()@ =~= strip_indent(ls[i as int], indent as int));
        assert(text::views(stripped@) =~= text::views(before).push(
            strip_indent(ls[i as int], indent as int),
        ));
        assert(strip_lines(ls, indent as int).take(i + 1) =~= strip_lines(ls, indent as int).take(
            i as int,
        ).push(strip_indent(ls[i as int], indent as int)));
        i = i + 1;
    }
    assert(text::views(stripped@) =~= strip_lines(ls, indent as int));
    let joined = match style {
        BlockStyle::Literal => join_literal(&stripped),
        BlockStyle::Folded => join_folded(&stripped),
    };
    Ok(string_of(&apply_chomp(&joined, chomp)))
}

/// A decoding error in words.
pub open spec fn fault_text(f: DecodeFault) -> Seq<char> {
    match f {
        DecodeFault::Empty => "Empty"@,
        DecodeFault::MalformedQuoted => "MalformedQuoted"@,
        DecodeFault::InvalidEscape { at, text } => "InvalidEscape { at: "@ + text::int_text(at)
            + ", text: "@ + text::debug_of(text) + " }"@,
        DecodeFault::InvalidHex { at, text } => "InvalidHex { at: "@ + text::int_text(at)
            + ", text: "@ + text::debug_of(text) + " }"@,
        DecodeFault::MalformedBlockHeader => "MalformedBlockHeader"@,
        DecodeFault::BlockIndentMismatch => "BlockIndentMismatch"@,
    }
}

impl DecodeError {
    /// The error in words.
    pub fn to_text(&self) -> (r: String)
        ensures
            r@ == fault_text(self@),
    {
        match self {
            DecodeError::Empty => string_of(&chars_of("Empty")),
            DecodeError::MalformedQuoted => string_of(&chars_of("MalformedQuoted")),
            DecodeError::InvalidEscape { at, text } => placed_text(
                "InvalidEscape { at: ",
                *at,
                text.as_str(),
            ),
            DecodeError::InvalidHex { at, text } => placed_text(
                "InvalidHex { at: ",
                *at,
                text.as_str(),
            ),
            DecodeError::MalformedBlockHeader => string_of(&chars_of("MalformedBlockHeader")),
            DecodeError::BlockIndentMismatch => string_of(&chars_of("BlockIndentMismatch")),
        }
    }
}

/// An error with a place and a text, in words.
fn placed_text(head: &str, at: usize, text: &str) -> (r: String)
    ensures
        r@ == head@ + text::int_text(at as int) + ", text: "@ + text::debug_of(text@) + " }"@,
{
    let mut out = string_of(&chars_of(head));
    out.push_str(string_of(&decimal_chars(at as u64)).as_str());
    out.push_str(", text: ");
    out.push_str(debug_text(text).as_str());
    out.push_str(" }");
    out
}

} // verus!

//! The lexer: what stands at a place of a YAML text, and where it ends.
//!
//! The lexer has no modes. `peek` classifies, `bump_simple` consumes. How far a
//! plain scalar goes depends on where it stands, so the parser reads it with
//! `read_plain_with`; quoted scalars are read with `bump_quoted`.

use vstd::prelude::*;
use vstd::string::*;
use vstd::utf8::*;

use crate::ast::decode;
use crate::ast::value;
use crate::ast::value::{infer_plain, Value};
use crate::syntax::kind::SyntaxKind;
use crate::text;
use crate::text::{chars_of, chars_slice, find_char, same_text, slice, split_chars, string_of};

verus! {

broadcast use vstd::utf8::encode_utf8_valid_utf8;


/// What stands at a place of the text.
#[derive(Debug, Clone, Copy, PartialEq, Eq, Structural)]
pub enum LexHint {
    Token(SyntaxKind),
    /// A plain scalar, whose end depends on where it stands: see `PlainStop`.
    PlainStart,
}

/// Where a plain scalar stands, which decides what ends it.
#[derive(Debug, Clone, Copy, PartialEq, Eq, Structural)]
pub enum PlainStop {
    BlockKey,
    BlockValue,
    FlowKey,
    FlowValue,
}

/// Why a token could not be read. `start` is where the token begins.
#[derive(Debug, Clone, Copy, PartialEq, Eq, Structural)]
pub enum LexError {
    UnterminatedSingleQuoted { start: usize },
    UnterminatedDoubleQuoted { start: usize },
    EmptyAnchorName { start: usize },
    EmptyAliasName { start: usize },
    UnterminatedVerbatimTag { start: usize },
    MalformedBlockScalarHeader { start: usize },
}

/// The sets of bytes that runs are made of.
#[derive(Debug, Clone, Copy, PartialEq, Eq, Structural)]
pub enum ByteClass {
    /// Spaces.
    Space,
    /// Spaces and tabs.
    Blank,
    /// Everything but line breaks.
    Line,
    /// Everything but whitespace and flow indicators.
    Name,
    /// As `Name`, without `!`.
    Handle,
    /// Everything but line breaks and `>`.
    Verbatim,
    /// Everything but line feeds and backslashes.
    Content,
}

/// A space or a tab.
pub open spec fn is_blank(b: u8) -> bool {
    b == 0x20 || b == 0x09
}

/// A line feed or a carriage return.
pub open spec fn is_break(b: u8) -> bool {
    b == 0x0a || b == 0x0d
}

/// One of `,` `[` `]` `{` `}`.
pub open spec fn is_flow_indicator(b: u8) -> bool {
    b == 0x2c || b == 0x5b || b == 0x5d || b == 0x7b || b == 0x7d
}

/// One of `,` `}` `]`: what ends an item of a flow collection.
pub open spec fn is_flow_end(b: u8) -> bool {
    b == 0x2c || b == 0x7d || b == 0x5d
}

/// Whether the byte at `i` is `b`.
pub open spec fn byte_is(s: Seq<u8>, i: int, b: u8) -> bool {
    0 <= i < s.len() && s[i] == b
}

/// Whether a line break stands at `i`.
pub open spec fn break_at(s: Seq<u8>, i: int) -> bool {
    0 <= i < s.len() && is_break(s[i])
}

/// Whether whitespace, a line break or the end of the text stands at `i`.
pub open spec fn gap_at(s: Seq<u8>, i: int) -> bool {
    !(0 <= i < s.len()) || is_blank(s[i]) || is_break(s[i])
}

/// Whether `b` is of the class `c`.
pub open spec fn in_class(c: ByteClass, b: u8) -> bool {
    match c {
        ByteClass::Space => b == 0x20,
        ByteClass::Blank => is_blank(b),
        ByteClass::Line => !is_break(b),
        ByteClass::Name => !is_blank(b) && !is_break(b) && !is_flow_indicator(b),
        ByteClass::Handle => !is_blank(b) && !is_break(b) && !is_flow_indicator(b) && b != 0x21,
        ByteClass::Verbatim => !is_break(b) && b != 0x3e,
        ByteClass::Content => b != 0x0a && b != 0x5c,
    }
}

/// Where the run of bytes of class `c` that starts at `i` ends.
pub open spec fn run_end(s: Seq<u8>, i: int, c: ByteClass) -> int
    decreases s.len() - i,
{
    if 0 <= i < s.len() && in_class(c, s[i]) {
        run_end(s, i + 1, c)
    } else {
        i
    }
}

/// The place behind the line break at `i`; `\r\n` is one break.
pub open spec fn after_break(s: Seq<u8>, i: int) -> int {
    if byte_is(s, i, 0x0d) && byte_is(s, i + 1, 0x0a) {
        i + 2
    } else {
        i + 1
    }
}

/// Where the line that `i` stands on begins.
pub open spec fn line_start(s: Seq<u8>, i: int) -> int
    decreases i,
{
    if i <= 0 || (i <= s.len() && is_break(s[i - 1])) {
        i
    } else {
        line_start(s, i - 1)
    }
}

/// The column of `i`, in bytes from the start of its line.
#[verifier::opaque]
pub open spec fn column_of(s: Seq<u8>, i: int) -> int {
    i - line_start(s, i)
}

/// Whether a `#` at `i` opens a comment: it stands at the start of the text or
/// behind whitespace.
pub open spec fn comment_allowed(s: Seq<u8>, i: int) -> bool {
    i == 0 || is_blank(s[i - 1]) || is_break(s[i - 1])
}

/// What stands at `i`, or `None` at the end of the text.
pub open spec fn hint_at(s: Seq<u8>, i: int) -> Option<LexHint> {
    if !(0 <= i < s.len()) {
        None
    } else {
        Some(hint_of(s, i, s[i]))
    }
}

/// What stands at `i`, where the byte is `b`.
#[verifier::opaque]
pub open spec fn hint_of(s: Seq<u8>, i: int, b: u8) -> LexHint {
    if is_blank(b) {
        LexHint::Token(SyntaxKind::WHITESPACE)
    } else if is_break(b) {
        LexHint::Token(SyntaxKind::NEWLINE)
    } else if b == 0x23 && comment_allowed(s, i) {
        LexHint::Token(SyntaxKind::COMMENT)
    } else if b == 0xef && byte_is(s, i + 1, 0xbb) && byte_is(s, i + 2, 0xbf) {
        LexHint::Token(SyntaxKind::BOM)
    } else if b == 0x3a {
        LexHint::Token(SyntaxKind::COLON)
    } else if b == 0x2c {
        LexHint::Token(SyntaxKind::COMMA)
    } else if b == 0x7b {
        LexHint::Token(SyntaxKind::L_BRACE)
    } else if b == 0x7d {
        LexHint::Token(SyntaxKind::R_BRACE)
    } else if b == 0x5b {
        LexHint::Token(SyntaxKind::L_BRACKET)
    } else if b == 0x5d {
        LexHint::Token(SyntaxKind::R_BRACKET)
    } else if b == 0x2d && gap_at(s, i + 1) {
        LexHint::Token(SyntaxKind::DASH)
    } else if b == 0x3f && gap_at(s, i + 1) {
        LexHint::Token(SyntaxKind::QUESTION)
    } else if b == 0x27 {
        LexHint::Token(SyntaxKind::SINGLE_QUOTED_SCALAR)
    } else if b == 0x22 {
        LexHint::Token(SyntaxKind::DOUBLE_QUOTED_SCALAR)
    } else if b == 0x26 {
        LexHint::Token(SyntaxKind::ANCHOR)
    } else if b == 0x2a {
        LexHint::Token(SyntaxKind::ALIAS)
    } else if b == 0x21 {
        LexHint::Token(SyntaxKind::TAG)
    } else if b == 0x7c {
        LexHint::Token(SyntaxKind::LITERAL_SCALAR)
    } else if b == 0x3e {
        LexHint::Token(SyntaxKind::FOLDED_SCALAR)
    } else if b == 0x25 && column_of(s, i) == 0 {
        LexHint::Token(SyntaxKind::DIRECTIVE)
    } else {
        LexHint::PlainStart
    }
}

/// Whether a simple token stands at `i`: one whose end needs no context and
/// that cannot fail to end.
pub open spec fn simple_at(s: Seq<u8>, i: int) -> bool {
    match hint_at(s, i) {
        Some(LexHint::Token(k)) => is_simple(k),
        _ => false,
    }
}

/// The kinds of simple tokens.
pub open spec fn is_simple(k: SyntaxKind) -> bool {
    k == SyntaxKind::WHITESPACE || k == SyntaxKind::NEWLINE || k == SyntaxKind::COMMENT || k
        == SyntaxKind::BOM || k == SyntaxKind::COLON || k == SyntaxKind::COMMA || k
        == SyntaxKind::L_BRACE || k == SyntaxKind::R_BRACE || k == SyntaxKind::L_BRACKET || k
        == SyntaxKind::R_BRACKET || k == SyntaxKind::DASH || k == SyntaxKind::QUESTION || k
        == SyntaxKind::DIRECTIVE
}

/// Where the simple token of kind `k` at `i` ends.
pub open spec fn simple_end(s: Seq<u8>, i: int, k: SyntaxKind) -> int {
    if k == SyntaxKind::WHITESPACE {
        run_end(s, i, ByteClass::Blank)
    } else if k == SyntaxKind::NEWLINE {
        after_break(s, i)
    } else if k == SyntaxKind::COMMENT || k == SyntaxKind::DIRECTIVE {
        run_end(s, i, ByteClass::Line)
    } else if k == SyntaxKind::BOM {
        i + 3
    } else {
        i + 1
    }
}

/// The end of a scan for a closing mark: whether it was found, and where the
/// scan stopped (behind the mark if it was).
pub struct Closing {
    pub closed: bool,
    pub end: int,
}

/// The search, from `i` on, for the quote that closes a single-quoted scalar.
/// Two quotes in a row are content.
pub open spec fn single_close(s: Seq<u8>, i: int) -> Closing
    decreases s.len() - i,
{
    if !(0 <= i < s.len()) {
        Closing { closed: false, end: i }
    } else if s[i] != 0x27 {
        single_close(s, i + 1)
    } else if byte_is(s, i + 1, 0x27) {
        single_close(s, i + 2)
    } else {
        Closing { closed: true, end: i + 1 }
    }
}

/// The search, from `i` on, for the quote that closes a double-quoted scalar.
/// A backslash takes the byte behind it along.
pub open spec fn double_close(s: Seq<u8>, i: int) -> Closing
    decreases s.len() - i,
{
    if !(0 <= i < s.len()) {
        Closing { closed: false, end: i }
    } else if s[i] == 0x5c {
        if i + 1 < s.len() {
            double_close(s, i + 2)
        } else {
            Closing { closed: false, end: i }
        }
    } else if s[i] == 0x22 {
        Closing { closed: true, end: i + 1 }
    } else {
        double_close(s, i + 1)
    }
}

/// The end of the quoted scalar at `i`.
pub open spec fn quoted_close(s: Seq<u8>, i: int) -> Closing {
    if byte_is(s, i, 0x27) {
        single_close(s, i + 1)
    } else {
        double_close(s, i + 1)
    }
}

/// Whether a `:` that acts as a block mapping indicator stands at `i`.
pub open spec fn block_colon(s: Seq<u8>, i: int) -> bool {
    byte_is(s, i, 0x3a) && gap_at(s, i + 1)
}

/// Whether a `:` that acts as a flow mapping indicator behind a plain key
/// stands at `i`.
pub open spec fn flow_colon(s: Seq<u8>, i: int) -> bool {
    byte_is(s, i, 0x3a) && (gap_at(s, i + 1) || is_flow_end(s[i + 1]))
}

/// Whether the content of a plain scalar on its line ends before `i`: at a
/// line break or the end of the text, at blanks that only a comment or the end
/// of the line follows, at a mapping indicator, at the end of a flow item.
pub open spec fn plain_stops(s: Seq<u8>, i: int, stop: PlainStop) -> bool {
    ||| !(0 <= i < s.len())
    ||| is_break(s[i])
    ||| is_blank(s[i]) && {
        let e = run_end(s, i, ByteClass::Blank);
        e >= s.len() || is_break(s[e]) || s[e] == 0x23
    }
    ||| (stop == PlainStop::BlockKey || stop == PlainStop::BlockValue) && block_colon(s, i)
    ||| stop == PlainStop::FlowKey && flow_colon(s, i)
    ||| (stop == PlainStop::FlowKey || stop == PlainStop::FlowValue) && is_flow_end(s[i])
}

/// The first place at or behind `i` where the plain scalar's line stops.
pub open spec fn plain_line_stop(s: Seq<u8>, i: int, stop: PlainStop) -> int
    decreases s.len() - i,
{
    if plain_stops(s, i, stop) {
        i
    } else {
        plain_line_stop(s, i + 1, stop)
    }
}

/// The end of `a..b` without its trailing blanks.
pub open spec fn trim_end(s: Seq<u8>, a: int, b: int) -> int
    decreases b - a,
{
    if a < b && is_blank(s[b - 1]) {
        trim_end(s, a, b - 1)
    } else {
        b
    }
}

/// The next line with content behind the line break at `i`: where its content
/// begins and how far it is indented. `None` where only blank lines follow.
pub open spec fn next_content(s: Seq<u8>, i: int) -> Option<(int, int)>
    decreases s.len() - i,
{
    if !break_at(s, i) {
        None
    } else {
        let start = after_break(s, i);
        let e = run_end(s, start, ByteClass::Blank);
        proof {
            lemma_run_end(s, start, ByteClass::Blank);
        }
        if e >= s.len() {
            None
        } else if is_break(s[e]) {
            next_content(s, e)
        } else {
            Some((e, e - start))
        }
    }
}

/// Whether `---` or `...` stands at `i`, set off from what follows.
pub open spec fn marker_at(s: Seq<u8>, i: int) -> bool {
    &&& (byte_is(s, i, 0x2d) && byte_is(s, i + 1, 0x2d) && byte_is(s, i + 2, 0x2d)) || (byte_is(
        s,
        i,
        0x2e,
    ) && byte_is(s, i + 1, 0x2e) && byte_is(s, i + 2, 0x2e))
    &&& gap_at(s, i + 3)
}

/// Whether the line whose content begins at `i` cannot continue a plain
/// scalar: it opens with a block indicator or a document marker, or holds a
/// mapping key.
pub open spec fn opens_block(s: Seq<u8>, i: int) -> bool {
    ||| (byte_is(s, i, 0x2d) || byte_is(s, i, 0x3f)) && gap_at(s, i + 1)
    ||| column_of(s, i) == 0 && marker_at(s, i)
    ||| block_colon(s, plain_line_stop(s, i, PlainStop::BlockKey))
}

/// The end of a plain scalar whose lines so far stop at `line_end` and hold
/// content up to `content_end`. A further line belongs to it if it is indented
/// by more than `min`, opens neither a block construct nor a comment, and has
/// content.
pub open spec fn plain_continuation(
    s: Seq<u8>,
    line_end: int,
    content_end: int,
    stop: PlainStop,
    min: int,
) -> int
    decreases s.len() - line_end,
{
    match next_content(s, line_end) {
        None => content_end,
        Some((at, indent)) => {
            let next_end = plain_line_stop(s, at, stop);
            let next_content_end = trim_end(s, at, next_end);
            proof {
                lemma_next_content(s, line_end);
                lemma_plain_line_stop(s, at, stop);
            }
            if indent <= min || opens_block(s, at) || byte_is(s, at, 0x23) || next_content_end
                == at {
                content_end
            } else {
                plain_continuation(s, next_end, next_content_end, stop, min)
            }
        },
    }
}

/// The end of the plain scalar at `i`. Only in block context, and only with a
/// minimal indentation, it may go over several lines.
pub open spec fn plain_end(s: Seq<u8>, i: int, stop: PlainStop, min_indent: Option<usize>) -> int {
    let line_end = plain_line_stop(s, i, stop);
    let content_end = trim_end(s, i, line_end);
    match min_indent {
        Some(min) if stop == PlainStop::BlockKey || stop == PlainStop::BlockValue => {
            plain_continuation(s, line_end, content_end, stop, min as int)
        },
        _ => content_end,
    }
}

/// The end of the tag at `i`, and whether a verbatim tag is closed.
pub open spec fn tag_close(s: Seq<u8>, i: int) -> Closing {
    if byte_is(s, i + 1, 0x3c) {
        let e = run_end(s, i + 2, ByteClass::Verbatim);
        if byte_is(s, e, 0x3e) {
            Closing { closed: true, end: e + 1 }
        } else {
            Closing { closed: false, end: e }
        }
    } else {
        let e = run_end(s, i + 1, ByteClass::Handle);
        if byte_is(s, e, 0x21) {
            Closing { closed: true, end: run_end(s, e + 1, ByteClass::Handle) }
        } else {
            Closing { closed: true, end: e }
        }
    }
}

/// The indicators of a block scalar header read so far.
pub struct Header {
    pub indent: Option<int>,
    pub chomp: bool,
    pub end: int,
}

/// One more header indicator, if one stands there: an indentation digit or a
/// chomping sign, each at most once.
pub open spec fn header_step(s: Seq<u8>, h: Header) -> Header {
    if 0 <= h.end < s.len() && 0x31 <= s[h.end] <= 0x39 && h.indent is None {
        Header { indent: Some(s[h.end] - 0x30), end: h.end + 1, ..h }
    } else if (byte_is(s, h.end, 0x2b) || byte_is(s, h.end, 0x2d)) && !h.chomp {
        Header { chomp: true, end: h.end + 1, ..h }
    } else {
        h
    }
}

/// The header indicators of the block scalar at `i`, in either order.
pub open spec fn header_at(s: Seq<u8>, i: int) -> Header {
    header_step(s, header_step(s, Header { indent: None, chomp: false, end: i + 1 }))
}

/// The end of the header line of the block scalar at `i`: blanks and a comment
/// may follow the indicators.
pub open spec fn header_line_end(s: Seq<u8>, i: int) -> int {
    let e = run_end(s, header_at(s, i).end, ByteClass::Blank);
    if byte_is(s, e, 0x23) {
        run_end(s, e, ByteClass::Line)
    } else {
        e
    }
}

/// The end of the block scalar whose lines so far end at `i`. A blank line
/// belongs to it. A line with content belongs to it if it is indented by
/// `indent` at least; while that is not known, by more than `parent`, and it
/// then sets `indent`.
pub open spec fn block_body_end(s: Seq<u8>, i: int, indent: Option<int>, parent: int) -> int
    decreases s.len() - i,
{
    if !(0 <= i < s.len()) {
        i
    } else {
        let start = after_break(s, i);
        let e = run_end(s, start, ByteClass::Space);
        proof {
            lemma_run_end(s, start, ByteClass::Space);
            lemma_run_end(s, e, ByteClass::Line);
        }
        if e >= s.len() {
            start
        } else if is_break(s[e]) {
            block_body_end(s, e, indent, parent)
        } else {
            let width = e - start;
            let belongs = match indent {
                Some(n) => width >= n,
                None => width > parent,
            };
            let line_end = run_end(s, e, ByteClass::Line);
            if !belongs {
                i
            } else {
                let n = match indent {
                    Some(n) => n,
                    None => width,
                };
                block_body_end(s, line_end, Some(n), parent)
            }
        }
    }
}

/// The end of the block scalar at `i`, the value of a node indented by
/// `parent`; `None` where something else follows the header on its line.
pub open spec fn block_scalar_end(s: Seq<u8>, i: int, parent: int) -> Option<int> {
    let e = header_line_end(s, i);
    if e >= s.len() {
        Some(e)
    } else if is_break(s[e]) {
        let indent = match header_at(s, i).indent {
            Some(n) => Some(parent + n),
            None => None,
        };
        Some(block_body_end(s, e, indent, parent))
    } else {
        None
    }
}

/// A run ends at or behind its start, within the text, at a byte that is not of
/// the class.
pub proof fn lemma_run_end(s: Seq<u8>, i: int, c: ByteClass)
    ensures
        i <= run_end(s, i, c),
        0 <= i <= s.len() ==> run_end(s, i, c) <= s.len(),
        i > s.len() ==> run_end(s, i, c) == i,
        0 <= i && run_end(s, i, c) < s.len() ==> !in_class(c, s[run_end(s, i, c)]),
        forall|j: int| i <= j < run_end(s, i, c) ==> in_class(c, #[trigger] s[j]),
    decreases s.len() - i,
{
    if 0 <= i < s.len() && in_class(c, s[i]) {
        lemma_run_end(s, i + 1, c);
    }
}

/// The next content lies behind the break, on a byte that is no whitespace.
pub proof fn lemma_next_content(s: Seq<u8>, i: int)
    ensures
        next_content(s, i) matches Some((at, indent)) ==> {
            &&& i < at < s.len()
            &&& 0 <= indent <= at
            &&& !is_blank(s[at]) && !is_break(s[at])
            &&& at == 0 || s[at - 1] < 0x80
        },
    decreases s.len() - i,
{
    if break_at(s, i) {
        let start = after_break(s, i);
        let e = run_end(s, start, ByteClass::Blank);
        lemma_run_end(s, start, ByteClass::Blank);
        if e < s.len() && is_break(s[e]) {
            lemma_next_content(s, e);
        }
    }
}

/// A plain line stops within the text, at a place where it has to stop.
pub proof fn lemma_plain_line_stop(s: Seq<u8>, i: int, stop: PlainStop)
    requires
        0 <= i <= s.len(),
    ensures
        i <= plain_line_stop(s, i, stop) <= s.len(),
        plain_stops(s, plain_line_stop(s, i, stop), stop),
    decreases s.len() - i,
{
    if !plain_stops(s, i, stop) {
        lemma_plain_line_stop(s, i + 1, stop);
    }
}

/// Trimming stays within its bounds and leaves no blank at the end.
pub proof fn lemma_trim_end(s: Seq<u8>, a: int, b: int)
    requires
        0 <= a <= b <= s.len(),
    ensures
        a <= trim_end(s, a, b) <= b,
        trim_end(s, a, b) < b ==> is_blank(s[trim_end(s, a, b)]),
        trim_end(s, a, b) > a ==> !is_blank(s[trim_end(s, a, b) - 1]),
    decreases b - a,
{
    if a < b && is_blank(s[b - 1]) {
        lemma_trim_end(s, a, b - 1);
    }
}

/// A place in a YAML text.
#[derive(Debug)]
pub struct Lexer<'a> {
    pub src: &'a str,
    pub pos: usize,
}

/// Whether `b` is of the class `c`.
fn class_holds(c: ByteClass, b: u8) -> (r: bool)
    ensures
        r == in_class(c, b),
{
    let blank = b == 0x20 || b == 0x09;
    let brk = b == 0x0a || b == 0x0d;
    let flow = b == 0x2c || b == 0x5b || b == 0x5d || b == 0x7b || b == 0x7d;
    match c {
        ByteClass::Space => b == 0x20,
        ByteClass::Blank => blank,
        ByteClass::Line => !brk,
        ByteClass::Name => !blank && !brk && !flow,
        ByteClass::Handle => !blank && !brk && !flow && b != 0x21,
        ByteClass::Verbatim => !brk && b != 0x3e,
        ByteClass::Content => b != 0x0a && b != 0x5c,
    }
}

/// The end of the run of bytes of class `c` at `from`.
pub fn run(bytes: &[u8], from: usize, c: ByteClass) -> (r: usize)
    requires
        from <= bytes@.len(),
    ensures
        r == run_end(bytes@, from as int, c),
        from <= r <= bytes@.len(),
{
    let mut i: usize = from;
    while i < bytes.len() && class_holds(c, bytes[i])
        invariant
            from <= i <= bytes@.len(),
            run_end(bytes@, from as int, c) == run_end(bytes@, i as int, c),
        decreases bytes@.len() - i,
    {
        i = i + 1;
    }
    i
}

/// Whether the byte at `i` is `b`.
fn is_byte(bytes: &[u8], i: usize, b: u8) -> (r: bool)
    ensures
        r == byte_is(bytes@, i as int, b),
{
    i < bytes.len() && bytes[i] == b
}

/// Whether a line break stands at `i`.
fn is_break_at(bytes: &[u8], i: usize) -> (r: bool)
    ensures
        r == break_at(bytes@, i as int),
{
    i < bytes.len() && (bytes[i] == 0x0a || bytes[i] == 0x0d)
}

/// Whether whitespace, a line break or the end of the text stands at `i`.
fn is_gap(bytes: &[u8], i: usize) -> (r: bool)
    ensures
        r == gap_at(bytes@, i as int),
{
    i >= bytes.len() || bytes[i] == 0x20 || bytes[i] == 0x09 || bytes[i] == 0x0a || bytes[i] == 0x0d
}

/// The place behind the line break at `i`.
fn skip_break(bytes: &[u8], i: usize) -> (r: usize)
    requires
        break_at(bytes@, i as int),
    ensures
        r == after_break(bytes@, i as int),
        i < r <= bytes@.len(),
{
    if bytes[i] == 0x0d && is_byte(bytes, i + 1, 0x0a) {
        i + 2
    } else {
        i + 1
    }
}

/// Whether the content of a plain scalar on its line ends before `i`.
fn plain_stops_at(bytes: &[u8], i: usize, stop: PlainStop) -> (r: bool)
    requires
        i <= bytes@.len(),
    ensures
        r == plain_stops(bytes@, i as int, stop),
{
    if i >= bytes.len() {
        return true;
    }
    let b = bytes[i];
    let block = stop == PlainStop::BlockKey || stop == PlainStop::BlockValue;
    if b == 0x0a || b == 0x0d {
        return true;
    }
    if b == 0x20 || b == 0x09 {
        let e = run(bytes, i, ByteClass::Blank);
        if e >= bytes.len() || is_break_at(bytes, e) || bytes[e] == 0x23 {
            return true;
        }
    }
    if b == 0x3a {
        let gap = is_gap(bytes, i + 1);
        if block && gap {
            return true;
        }
        if stop == PlainStop::FlowKey && (gap || bytes[i + 1] == 0x2c || bytes[i + 1] == 0x7d
            || bytes[i + 1] == 0x5d) {
            return true;
        }
    }
    !block && (b == 0x2c || b == 0x7d || b == 0x5d)
}

/// What the kind of the token at a place says of the bytes there.
pub proof fn lemma_simple_start(s: Seq<u8>, i: int, k: SyntaxKind)
    requires
        0 <= i < s.len(),
        hint_at(s, i) == Some(LexHint::Token(k)),
    ensures
        k == SyntaxKind::BOM ==> i + 3 <= s.len() && s[i] == 0xef,
        k == SyntaxKind::NEWLINE ==> break_at(s, i),
        k == SyntaxKind::WHITESPACE ==> is_blank(s[i]),
        k == SyntaxKind::COMMENT || k == SyntaxKind::DIRECTIVE ==> !is_break(s[i]),
        k != SyntaxKind::BOM ==> s[i] < 0x80,
        k == SyntaxKind::SINGLE_QUOTED_SCALAR <==> s[i] == 0x27,
        k == SyntaxKind::DOUBLE_QUOTED_SCALAR <==> s[i] == 0x22,
        k == SyntaxKind::ANCHOR <==> s[i] == 0x26,
        k == SyntaxKind::ALIAS <==> s[i] == 0x2a,
        k == SyntaxKind::TAG <==> s[i] == 0x21,
        k == SyntaxKind::LITERAL_SCALAR <==> s[i] == 0x7c,
        k == SyntaxKind::FOLDED_SCALAR <==> s[i] == 0x3e,
{
    reveal(hint_of);
}

/// A blank is always the start of whitespace.
pub proof fn lemma_blank_hint(s: Seq<u8>, i: int)
    requires
        0 <= i < s.len(),
        is_blank(s[i]),
    ensures
        hint_at(s, i) == Some(LexHint::Token(SyntaxKind::WHITESPACE)),
{
    reveal(hint_of);
}

/// A colon is always a `COLON` token.
pub proof fn lemma_colon_hint(s: Seq<u8>, i: int)
    requires
        byte_is(s, i, 0x3a),
    ensures
        hint_at(s, i) == Some(LexHint::Token(SyntaxKind::COLON)),
{
    reveal(hint_of);
}

/// The byte order mark is one character: the place behind it is a boundary.
proof fn lemma_bom_boundary(s: Seq<u8>, i: int)
    requires
        valid_utf8(s),
        is_char_boundary(s, i),
        0 <= i,
        i + 3 <= s.len(),
        s[i] == 0xef,
    ensures
        is_char_boundary(s, i + 3),
    decreases s.len(),
{
    let n = length_of_first_scalar(s);
    if i == 0 {
        reveal_with_fuel(is_char_boundary, 2);
    } else {
        reveal_with_fuel(is_char_boundary, 2);
        lemma_bom_boundary(pop_first_scalar(s), i - n);
    }
}

/// Simple tokens are not empty and end at a character boundary.
pub proof fn lemma_simple_end(s: Seq<u8>, i: int, k: SyntaxKind)
    requires
        valid_utf8(s),
        is_char_boundary(s, i),
        0 <= i < s.len(),
        hint_at(s, i) == Some(LexHint::Token(k)),
        is_simple(k),
    ensures
        i < simple_end(s, i, k) <= s.len(),
        is_char_boundary(s, simple_end(s, i, k)),
{
    lemma_simple_start(s, i, k);
    let e = simple_end(s, i, k);
    if k == SyntaxKind::BOM {
        lemma_bom_boundary(s, i);
    } else {
        if k == SyntaxKind::WHITESPACE {
            lemma_run_end(s, i, ByteClass::Blank);
        } else if k == SyntaxKind::COMMENT || k == SyntaxKind::DIRECTIVE {
            lemma_run_end(s, i, ByteClass::Line);
        }
        text::lemma_boundary(s, e);
    }
}

/// The search for a closing quote does not go back, and the place behind the
/// quote is a boundary.
pub proof fn lemma_quoted_close(s: Seq<u8>, i: int)
    requires
        0 <= i <= s.len(),
    ensures
        i <= single_close(s, i).end <= s.len(),
        i <= double_close(s, i).end <= s.len(),
        single_close(s, i).closed ==> i < single_close(s, i).end && s[single_close(s, i).end - 1]
            == 0x27,
        double_close(s, i).closed ==> i < double_close(s, i).end && s[double_close(s, i).end - 1]
            == 0x22,
        !single_close(s, i).closed ==> single_close(s, i).end == s.len(),
    decreases s.len() - i,
{
    if i < s.len() {
        lemma_quoted_close(s, i + 1);
        if i + 2 <= s.len() {
            lemma_quoted_close(s, i + 2);
        }
    }
}

/// The end of a plain scalar lies within the text, at a boundary.
pub proof fn lemma_plain_continuation(
    s: Seq<u8>,
    line_end: int,
    content_end: int,
    stop: PlainStop,
    min: int,
)
    requires
        valid_utf8(s),
        0 <= content_end <= line_end <= s.len(),
        is_char_boundary(s, content_end),
    ensures
        content_end <= plain_continuation(s, line_end, content_end, stop, min) <= s.len(),
        is_char_boundary(s, plain_continuation(s, line_end, content_end, stop, min)),
    decreases s.len() - line_end,
{
    if let Some((at, indent)) = next_content(s, line_end) {
        lemma_next_content(s, line_end);
        let next_end = plain_line_stop(s, at, stop);
        let next_content_end = trim_end(s, at, next_end);
        lemma_plain_line(s, at, stop);
        if !(indent <= min || opens_block(s, at) || byte_is(s, at, 0x23) || next_content_end
            == at) {
            lemma_plain_continuation(s, next_end, next_content_end, stop, min);
        }
    }
}

/// The content of one plain line ends within the line, at a boundary if it is
/// not empty.
pub proof fn lemma_plain_line(s: Seq<u8>, i: int, stop: PlainStop)
    requires
        valid_utf8(s),
        0 <= i <= s.len(),
    ensures
        i <= trim_end(s, i, plain_line_stop(s, i, stop)) <= plain_line_stop(s, i, stop) <= s.len(),
        trim_end(s, i, plain_line_stop(s, i, stop)) > i ==> is_char_boundary(
            s,
            trim_end(s, i, plain_line_stop(s, i, stop)),
        ),
{
    lemma_plain_line_stop(s, i, stop);
    let e = plain_line_stop(s, i, stop);
    lemma_trim_end(s, i, e);
    let t = trim_end(s, i, e);
    if t > i {
        text::lemma_boundary(s, t);
    }
}

/// The end of a plain scalar lies within the text, at a boundary.
pub proof fn lemma_plain_end(s: Seq<u8>, i: int, stop: PlainStop, min_indent: Option<usize>)
    requires
        valid_utf8(s),
        0 <= i <= s.len(),
        is_char_boundary(s, i),
    ensures
        i <= plain_end(s, i, stop, min_indent) <= s.len(),
        is_char_boundary(s, plain_end(s, i, stop, min_indent)),
{
    lemma_plain_line(s, i, stop);
    if let Some(min) = min_indent {
        lemma_plain_continuation(
            s,
            plain_line_stop(s, i, stop),
            trim_end(s, i, plain_line_stop(s, i, stop)),
            stop,
            min as int,
        );
    }
}

/// The end of a tag lies behind its `!`, at a boundary.
pub proof fn lemma_tag_close(s: Seq<u8>, i: int)
    requires
        valid_utf8(s),
        0 <= i < s.len(),
        s[i] == 0x21,
    ensures
        i < tag_close(s, i).end <= s.len(),
        is_char_boundary(s, tag_close(s, i).end),
{
    if byte_is(s, i + 1, 0x3c) {
        lemma_run_end(s, i + 2, ByteClass::Verbatim);
    } else {
        lemma_run_end(s, i + 1, ByteClass::Handle);
        let e = run_end(s, i + 1, ByteClass::Handle);
        lemma_run_end(s, e + 1, ByteClass::Handle);
    }
    text::lemma_boundary(s, tag_close(s, i).end);
}

/// The end of an anchor or alias lies behind its sigil, at a boundary.
pub proof fn lemma_name_end(s: Seq<u8>, i: int)
    requires
        valid_utf8(s),
        0 <= i < s.len(),
    ensures
        i < run_end(s, i + 1, ByteClass::Name) <= s.len(),
        run_end(s, i + 1, ByteClass::Name) > i + 1 ==> is_char_boundary(
            s,
            run_end(s, i + 1, ByteClass::Name),
        ),
{
    lemma_run_end(s, i + 1, ByteClass::Name);
    let e = run_end(s, i + 1, ByteClass::Name);
    if e > i + 1 {
        text::lemma_boundary(s, e);
    }
}

/// The end of a block scalar's body lies within the text, at a boundary.
proof fn lemma_block_body_end(s: Seq<u8>, i: int, indent: Option<int>, parent: int)
    requires
        valid_utf8(s),
        i == s.len() || break_at(s, i),
    ensures
        i <= block_body_end(s, i, indent, parent) <= s.len(),
        is_char_boundary(s, block_body_end(s, i, indent, parent)),
    decreases s.len() - i,
{
    text::lemma_boundary(s, i);
    if i < s.len() {
        let start = after_break(s, i);
        text::lemma_boundary(s, start);
        let e = run_end(s, start, ByteClass::Space);
        lemma_run_end(s, start, ByteClass::Space);
        lemma_run_end(s, e, ByteClass::Line);
        if e < s.len() {
            if is_break(s[e]) {
                lemma_block_body_end(s, e, indent, parent);
            } else {
                let n = match indent {
                    Some(n) => n,
                    None => e - start,
                };
                lemma_block_body_end(s, run_end(s, e, ByteClass::Line), Some(n), parent);
            }
        }
    }
}

/// The header of a block scalar goes over at most two bytes behind the sigil.
proof fn lemma_header(s: Seq<u8>, i: int)
    requires
        0 <= i < s.len(),
    ensures
        i < header_at(s, i).end <= s.len(),
        i < header_line_end(s, i) <= s.len(),
        header_at(s, i).indent matches Some(n) ==> 1 <= n <= 9,
{
    let e = run_end(s, header_at(s, i).end, ByteClass::Blank);
    lemma_run_end(s, header_at(s, i).end, ByteClass::Blank);
    lemma_run_end(s, e, ByteClass::Line);
}

/// The end of a block scalar lies behind its sigil, at a boundary.
pub proof fn lemma_block_scalar_end(s: Seq<u8>, i: int, parent: int)
    requires
        valid_utf8(s),
        0 <= i < s.len(),
    ensures
        block_scalar_end(s, i, parent) matches Some(e) ==> i < e <= s.len() && is_char_boundary(
            s,
            e,
        ),
{
    lemma_header(s, i);
    let e = header_line_end(s, i);
    if e >= s.len() {
        text::lemma_boundary(s, e);
    } else if is_break(s[e]) {
        let indent = match header_at(s, i).indent {
            Some(n) => Some(parent + n),
            None => None,
        };
        lemma_block_body_end(s, e, indent, parent);
    }
}

impl<'a> Lexer<'a> {
    /// The bytes of the text.
    pub open spec fn bytes(&self) -> Seq<u8> {
        self.src.spec_bytes()
    }

    /// Whether the lexer stands on a character boundary of its text.
    pub open spec fn on_boundary(&self) -> bool {
        self.pos <= self.bytes().len() && is_char_boundary(self.bytes(), self.pos as int)
    }

    /// What the characters between two places are.
    pub open spec fn text(&self, from: int, to: int) -> Seq<char> {
        text::chars_between(self.bytes(), from, to)
    }

    /// A lexer at the start of `src`.
    pub fn new(src: &'a str) -> (r: Self)
        ensures
            r.src == src,
            r.pos == 0,
            r.on_boundary(),
    {
        proof {
            is_char_boundary_start_end_of_seq(src.spec_bytes());
        }
        Self { src, pos: 0 }
    }

    /// The text.
    pub fn source(&self) -> (r: &'a str)
        ensures
            r == self.src,
    {
        self.src
    }

    /// The place, in bytes from the start of the text.
    pub fn pos(&self) -> (r: usize)
        ensures
            r == self.pos,
    {
        self.pos
    }

    /// Goes to `pos`.
    pub fn set_pos(&mut self, pos: usize)
        ensures
            final(self).pos == pos,
            final(self).src == old(self).src,
    {
        self.pos = pos;
    }

    /// Whether the whole text is consumed.
    pub fn at_eof(&self) -> (r: bool)
        ensures
            r == (self.pos >= self.bytes().len()),
    {
        self.pos >= self.src.as_bytes().len()
    }

    /// 0-based byte column of `pos` on its current line.
    pub fn column(&self) -> (r: usize)
        requires
            self.pos <= self.bytes().len(),
        ensures
            r == column_of(self.bytes(), self.pos as int),
            r <= self.pos,
    {
        proof {
            reveal(column_of);
        }
        let bytes = self.src.as_bytes();
        let mut i: usize = self.pos;
        while i > 0 && !(bytes[i - 1] == 0x0a || bytes[i - 1] == 0x0d)
            invariant
                bytes@ == self.bytes(),
                i <= self.pos <= bytes@.len(),
                line_start(bytes@, self.pos as int) == line_start(bytes@, i as int),
            decreases i,
        {
            i = i - 1;
        }
        self.pos - i
    }

    /// The byte at `off`.
    fn byte_at(&self, off: usize) -> (r: Option<u8>)
        ensures
            r == if off < self.bytes().len() {
                Some(self.bytes()[off as int])
            } else {
                None
            },
    {
        let bytes = self.src.as_bytes();
        if off < bytes.len() {
            Some(bytes[off])
        } else {
            None
        }
    }

    /// The byte at `pos`.
    pub fn peek_byte(&self) -> (r: Option<u8>)
        ensures
            r == if self.pos < self.bytes().len() {
                Some(self.bytes()[self.pos as int])
            } else {
                None
            },
    {
        self.byte_at(self.pos)
    }

    /// Classifies the token starting at `pos` without consuming it.
    pub fn peek(&self) -> (r: Option<LexHint>)
        ensures
            r == hint_at(self.bytes(), self.pos as int),
    {
        let bytes = self.src.as_bytes();
        let i = self.pos;
        if i >= bytes.len() {
            return None;
        }
        proof {
            reveal(hint_of);
        }
        let b = bytes[i];
        if b == 0x20 || b == 0x09 {
            return Some(LexHint::Token(SyntaxKind::WHITESPACE));
        }
        if b == 0x0a || b == 0x0d {
            return Some(LexHint::Token(SyntaxKind::NEWLINE));
        }
        if b == 0x23 {
            // `#` introduces a comment only at the start of the text or behind
            // whitespace; otherwise it is a character of a plain scalar.
            return if i == 0 || is_gap(bytes, i - 1) {
                Some(LexHint::Token(SyntaxKind::COMMENT))
            } else {
                Some(LexHint::PlainStart)
            };
        }
        if b == 0xef && is_byte(bytes, i + 1, 0xbb) && i + 2 < bytes.len() && bytes[i + 2] == 0xbf {
            return Some(LexHint::Token(SyntaxKind::BOM));
        }
        Some(
            match b {
                0x3a => LexHint::Token(SyntaxKind::COLON),
                0x2c => LexHint::Token(SyntaxKind::COMMA),
                0x7b => LexHint::Token(SyntaxKind::L_BRACE),
                0x7d => LexHint::Token(SyntaxKind::R_BRACE),
                0x5b => LexHint::Token(SyntaxKind::L_BRACKET),
                0x5d => LexHint::Token(SyntaxKind::R_BRACKET),
                0x2d if is_gap(bytes, i + 1) => LexHint::Token(SyntaxKind::DASH),
                0x3f if is_gap(bytes, i + 1) => LexHint::Token(SyntaxKind::QUESTION),
                0x27 => LexHint::Token(SyntaxKind::SINGLE_QUOTED_SCALAR),
                0x22 => LexHint::Token(SyntaxKind::DOUBLE_QUOTED_SCALAR),
                0x26 => LexHint::Token(SyntaxKind::ANCHOR),
                0x2a => LexHint::Token(SyntaxKind::ALIAS),
                0x21 => LexHint::Token(SyntaxKind::TAG),
                0x7c => LexHint::Token(SyntaxKind::LITERAL_SCALAR),
                0x3e => LexHint::Token(SyntaxKind::FOLDED_SCALAR),
                0x25 if self.column() == 0 => LexHint::Token(SyntaxKind::DIRECTIVE),
                _ => LexHint::PlainStart,
            },
        )
    }

    /// Consumes the simple token at `pos`: its kind and its text.
    pub fn bump_simple(&mut self) -> (r: (SyntaxKind, &'a str))
        requires
            old(self).on_boundary(),
            simple_at(old(self).bytes(), old(self).pos as int),
        ensures
            final(self).src == old(self).src,
            final(self).on_boundary(),
            final(self).pos > old(self).pos,
            hint_at(old(self).bytes(), old(self).pos as int) == Some(LexHint::Token(r.0)),
            final(self).pos == simple_end(old(self).bytes(), old(self).pos as int, r.0),
            r.1@ == old(self).text(old(self).pos as int, final(self).pos as int),
    {
        let start = self.pos;
        let bytes = self.src.as_bytes();
        let len = bytes.len();
        let kind = match self.peek() {
            Some(LexHint::Token(k)) => k,
            _ => SyntaxKind::ERROR,
        };
        proof {
            lemma_simple_end(self.bytes(), start as int, kind);
            lemma_simple_start(self.bytes(), start as int, kind);
        }
        let end = match kind {
            SyntaxKind::WHITESPACE => run(bytes, start, ByteClass::Blank),
            SyntaxKind::NEWLINE => skip_break(bytes, start),
            SyntaxKind::COMMENT | SyntaxKind::DIRECTIVE => run(bytes, start, ByteClass::Line),
            SyntaxKind::BOM => start + 3,
            _ => start + 1,
        };
        self.pos = end;
        (kind, slice(self.src, start, end))
    }

    /// Consumes the single- or double-quoted scalar at `pos`, with its quotes.
    ///
    /// In a single-quoted scalar `''` is an escaped quote; in a double-quoted
    /// one a backslash takes the next byte along, whatever it is. Line breaks
    /// are content. The end of the text before the closing quote is an error.
    pub fn bump_quoted(&mut self) -> (r: Result<(SyntaxKind, &'a str), LexError>)
        requires
            old(self).on_boundary(),
            byte_is(old(self).bytes(), old(self).pos as int, 0x27) || byte_is(
                old(self).bytes(),
                old(self).pos as int,
                0x22,
            ),
        ensures
            final(self).src == old(self).src,
            final(self).pos == quoted_close(old(self).bytes(), old(self).pos as int).end,
            final(self).pos > old(self).pos,
            final(self).pos <= old(self).bytes().len(),
            r is Ok <==> quoted_close(old(self).bytes(), old(self).pos as int).closed,
            r matches Ok((k, t)) ==> {
                &&& final(self).on_boundary()
                &&& k == if old(self).bytes()[old(self).pos as int] == 0x27 {
                    SyntaxKind::SINGLE_QUOTED_SCALAR
                } else {
                    SyntaxKind::DOUBLE_QUOTED_SCALAR
                }
                &&& t@ == old(self).text(old(self).pos as int, final(self).pos as int)
            },
            r matches Err(e) ==> e == if old(self).bytes()[old(self).pos as int] == 0x27 {
                LexError::UnterminatedSingleQuoted { start: old(self).pos }
            } else {
                LexError::UnterminatedDoubleQuoted { start: old(self).pos }
            },
    {
        let start = self.pos;
        let bytes = self.src.as_bytes();
        let len = bytes.len();
        let ghost s = bytes@;
        if bytes[start] == 0x27 {
            let mut i: usize = start + 1;
            proof {
                lemma_quoted_close(s, start + 1);
            }
            loop
                invariant
                    bytes@ == s,
                    s == self.bytes(),
                    self.src == old(self).src,
                    self.on_boundary(),
                    self.pos == start,
                    start == old(self).pos,
                    s[start as int] == 0x27,
                    byte_is(s, start as int, 0x27),
                    start < i <= s.len(),
                    single_close(s, start + 1) == single_close(s, i as int),
                    single_close(s, start + 1).end <= s.len(),
                decreases s.len() - i,
            {
                if i >= bytes.len() {
                    self.pos = i;
                    return Err(LexError::UnterminatedSingleQuoted { start });
                }
                if bytes[i] == 0x27 {
                    if is_byte(bytes, i + 1, 0x27) {
                        i = i + 2;
                    } else {
                        self.pos = i + 1;
                        proof {
                            text::lemma_boundary(s, i + 1);
                        }
                        return Ok((SyntaxKind::SINGLE_QUOTED_SCALAR, slice(self.src, start, i + 1)));
                    }
                } else {
                    i = i + 1;
                }
            }
        } else {
            let mut i: usize = start + 1;
            proof {
                lemma_quoted_close(s, start + 1);
            }
            loop
                invariant
                    bytes@ == s,
                    s == self.bytes(),
                    self.src == old(self).src,
                    self.on_boundary(),
                    self.pos == start,
                    start == old(self).pos,
                    s[start as int] == 0x22,
                    !byte_is(s, start as int, 0x27),
                    start < i <= s.len(),
                    double_close(s, start + 1) == double_close(s, i as int),
                    double_close(s, start + 1).end <= s.len(),
                decreases s.len() - i,
            {
                if i >= bytes.len() {
                    self.pos = i;
                    return Err(LexError::UnterminatedDoubleQuoted { start });
                }
                if bytes[i] == 0x5c {
                    if i + 1 < bytes.len() {
                        i = i + 2;
                    } else {
                        self.pos = i;
                        return Err(LexError::UnterminatedDoubleQuoted { start });
                    }
                } else if bytes[i] == 0x22 {
                    self.pos = i + 1;
                    proof {
                        text::lemma_boundary(s, i + 1);
                    }
                    return Ok((SyntaxKind::DOUBLE_QUOTED_SCALAR, slice(self.src, start, i + 1)));
                } else {
                    i = i + 1;
                }
            }
        }
    }

    /// Reads the plain scalar at `pos`, on one line.
    pub fn read_plain(&mut self, stop: PlainStop) -> (r: &'a str)
        requires
            old(self).on_boundary(),
        ensures
            final(self).src == old(self).src,
            final(self).on_boundary(),
            final(self).pos == plain_end(old(self).bytes(), old(self).pos as int, stop, None),
            r@ == old(self).text(old(self).pos as int, final(self).pos as int),
    {
        self.read_plain_with(stop, None)
    }

    /// Reads the plain scalar at `pos`, stopping according to `stop`. With
    /// `Some(n)` it may span several lines: a further line is accepted if it
    /// is indented by more than `n` and opens neither a block indicator, nor a
    /// mapping key, nor a comment.
    ///
    /// What ends the scalar is not consumed, nor are blanks before it.
    pub fn read_plain_with(&mut self, stop: PlainStop, min_indent: Option<usize>) -> (r: &'a str)
        requires
            old(self).on_boundary(),
        ensures
            final(self).src == old(self).src,
            final(self).on_boundary(),
            final(self).pos == plain_end(old(self).bytes(), old(self).pos as int, stop, min_indent),
            final(self).pos >= old(self).pos,
            r@ == old(self).text(old(self).pos as int, final(self).pos as int),
    {
        let start = self.pos;
        let ghost s = self.bytes();
        proof {
            lemma_plain_end(s, start as int, stop, min_indent);
            lemma_plain_line(s, start as int, stop);
        }
        let (first_stop, first_end) = self.scan_plain_line(start, stop);
        let mut line_end: usize = first_stop;
        let mut content_end: usize = first_end;
        let block = stop == PlainStop::BlockKey || stop == PlainStop::BlockValue;
        if let Some(min) = min_indent {
            if block {
                loop
                    invariant_except_break
                        plain_continuation(s, line_end as int, content_end as int, stop, min as int)
                            == plain_end(s, start as int, stop, min_indent),
                    invariant
                        s == self.bytes(),
                        self.src == old(self).src,
                        self.pos == start,
                        line_end <= s.len(),
                        min_indent == Some(min),
                        valid_utf8(s),
                    ensures
                        content_end == plain_end(s, start as int, stop, min_indent),
                    decreases s.len() - line_end,
                {
                    proof {
                        lemma_next_content(s, line_end as int);
                    }
                    match self.skip_blank_lines_for_continuation(line_end) {
                        None => {
                            break;
                        },
                        Some((at, indent)) => {
                            if indent <= min || self.line_starts_with_block_indicator_or_key(at) {
                                break;
                            }
                            if self.src.as_bytes()[at] == 0x23 {
                                break;
                            }
                            let (next_stop, next_end) = self.scan_plain_line(at, stop);
                            if next_end == at {
                                break;
                            }
                            proof {
                                lemma_plain_line(s, at as int, stop);
                            }
                            line_end = next_stop;
                            content_end = next_end;
                        },
                    }
                }
            }
        }
        self.pos = content_end;
        slice(self.src, start, content_end)
    }

    /// Where the plain scalar's line that begins at `from` stops, and where its
    /// content ends.
    fn scan_plain_line(&self, from: usize, stop: PlainStop) -> (r: (usize, usize))
        requires
            from <= self.bytes().len(),
        ensures
            r.0 == plain_line_stop(self.bytes(), from as int, stop),
            r.1 == trim_end(self.bytes(), from as int, r.0 as int),
            from <= r.1 <= r.0 <= self.bytes().len(),
    {
        let bytes = self.src.as_bytes();
        let len = bytes.len();
        let mut i: usize = from;
        while !plain_stops_at(bytes, i, stop)
            invariant
                bytes@ == self.bytes(),
                len == bytes@.len(),
                from <= i <= len,
                plain_line_stop(bytes@, from as int, stop) == plain_line_stop(
                    bytes@,
                    i as int,
                    stop,
                ),
            decreases bytes@.len() - i,
        {
            i = i + 1;
        }
        let mut e: usize = i;
        while from < e && (bytes[e - 1] == 0x20 || bytes[e - 1] == 0x09)
            invariant
                bytes@ == self.bytes(),
                from <= e <= i <= bytes@.len(),
                trim_end(bytes@, from as int, i as int) == trim_end(bytes@, from as int, e as int),
            decreases e,
        {
            e = e - 1;
        }
        (i, e)
    }

    /// The next line with content behind the line break at `from`: where its
    /// content begins, and its indentation.
    fn skip_blank_lines_for_continuation(&self, from: usize) -> (r: Option<(usize, usize)>)
        requires
            from <= self.bytes().len(),
        ensures
            match r {
                Some((at, indent)) => next_content(self.bytes(), from as int) == Some(
                    (at as int, indent as int),
                ),
                None => next_content(self.bytes(), from as int) is None,
            },
    {
        let bytes = self.src.as_bytes();
        let mut i: usize = from;
        loop
            invariant
                bytes@ == self.bytes(),
                i <= bytes@.len(),
                next_content(bytes@, from as int) == next_content(bytes@, i as int),
            decreases bytes@.len() - i,
        {
            if !is_break_at(bytes, i) {
                return None;
            }
            let start = skip_break(bytes, i);
            let e = run(bytes, start, ByteClass::Blank);
            if e >= bytes.len() {
                return None;
            }
            if is_break_at(bytes, e) {
                i = e;
            } else {
                return Some((e, e - start));
            }
        }
    }

    /// Whether the line whose content begins at `at` cannot continue a plain
    /// scalar.
    fn line_starts_with_block_indicator_or_key(&self, at: usize) -> (r: bool)
        requires
            at < self.bytes().len(),
        ensures
            r == opens_block(self.bytes(), at as int),
    {
        let bytes = self.src.as_bytes();
        let b = bytes[at];
        if (b == 0x2d || b == 0x3f) && is_gap(bytes, at + 1) {
            return true;
        }
        let probe = Lexer { src: self.src, pos: at };
        if probe.column() == 0 && is_marker(bytes, at) {
            return true;
        }
        let (stop, _) = self.scan_plain_line(at, PlainStop::BlockKey);
        is_byte(bytes, stop, 0x3a) && is_gap(bytes, stop + 1)
    }

    /// Consumes an anchor, `&name`, with its sigil. The name goes up to
    /// whitespace or a flow indicator; an empty one is an error.
    pub fn bump_anchor(&mut self) -> (r: Result<&'a str, LexError>)
        requires
            old(self).on_boundary(),
            byte_is(old(self).bytes(), old(self).pos as int, 0x26),
        ensures
            final(self).src == old(self).src,
            final(self).on_boundary(),
            ({
                let start = old(self).pos as int;
                let e = run_end(old(self).bytes(), start + 1, ByteClass::Name);
                match r {
                    Ok(t) => e > start + 1 && final(self).pos == e && t@ == old(self).text(start, e),
                    Err(err) => e == start + 1 && final(self).pos == start && err
                        == LexError::EmptyAnchorName { start: old(self).pos },
                }
            }),
    {
        self.bump_named(true)
    }

    /// Consumes an alias, `*name`, with its sigil.
    pub fn bump_alias(&mut self) -> (r: Result<&'a str, LexError>)
        requires
            old(self).on_boundary(),
            byte_is(old(self).bytes(), old(self).pos as int, 0x2a),
        ensures
            final(self).src == old(self).src,
            final(self).on_boundary(),
            ({
                let start = old(self).pos as int;
                let e = run_end(old(self).bytes(), start + 1, ByteClass::Name);
                match r {
                    Ok(t) => e > start + 1 && final(self).pos == e && t@ == old(self).text(start, e),
                    Err(err) => e == start + 1 && final(self).pos == start && err
                        == LexError::EmptyAliasName { start: old(self).pos },
                }
            }),
    {
        self.bump_named(false)
    }

    fn bump_named(&mut self, is_anchor: bool) -> (r: Result<&'a str, LexError>)
        requires
            old(self).on_boundary(),
            old(self).pos < old(self).bytes().len(),
        ensures
            final(self).src == old(self).src,
            final(self).on_boundary(),
            ({
                let start = old(self).pos as int;
                let e = run_end(old(self).bytes(), start + 1, ByteClass::Name);
                match r {
                    Ok(t) => e > start + 1 && final(self).pos == e && t@ == old(self).text(start, e),
                    Err(err) => e == start + 1 && final(self).pos == start && err == if is_anchor {
                        LexError::EmptyAnchorName { start: old(self).pos }
                    } else {
                        LexError::EmptyAliasName { start: old(self).pos }
                    },
                }
            }),
    {
        let start = self.pos;
        let bytes = self.src.as_bytes();
        let len = bytes.len();
        proof {
            lemma_name_end(self.bytes(), start as int);
        }
        let end = run(bytes, start + 1, ByteClass::Name);
        if end == start + 1 {
            return if is_anchor {
                Err(LexError::EmptyAnchorName { start })
            } else {
                Err(LexError::EmptyAliasName { start })
            };
        }
        self.pos = end;
        Ok(slice(self.src, start, end))
    }

    /// Consumes the tag at `pos`: `!`, `!<uri>`, `!!suffix`, `!handle!suffix` or
    /// `!suffix`. Suffixes go up to whitespace, a flow indicator or a third
    /// `!`; only a verbatim tag can fail, by not being closed on its line.
    pub fn bump_tag(&mut self) -> (r: Result<&'a str, LexError>)
        requires
            old(self).on_boundary(),
            byte_is(old(self).bytes(), old(self).pos as int, 0x21),
        ensures
            final(self).src == old(self).src,
            final(self).on_boundary(),
            ({
                let start = old(self).pos as int;
                let c = tag_close(old(self).bytes(), start);
                match r {
                    Ok(t) => c.closed && final(self).pos == c.end && c.end > start && t@ == old(
                        self,
                    ).text(start, c.end),
                    Err(err) => !c.closed && final(self).pos == start && err
                        == LexError::UnterminatedVerbatimTag { start: old(self).pos },
                }
            }),
    {
        let start = self.pos;
        let bytes = self.src.as_bytes();
        let len = bytes.len();
        proof {
            lemma_tag_close(bytes@, start as int);
        }
        if is_byte(bytes, start + 1, 0x3c) {
            let e = run(bytes, start + 2, ByteClass::Verbatim);
            if !is_byte(bytes, e, 0x3e) {
                return Err(LexError::UnterminatedVerbatimTag { start });
            }
            self.pos = e + 1;
            return Ok(slice(self.src, start, e + 1));
        }
        let mut e: usize = run(bytes, start + 1, ByteClass::Handle);
        if is_byte(bytes, e, 0x21) {
            e = run(bytes, e + 1, ByteClass::Handle);
        }
        self.pos = e;
        Ok(slice(self.src, start, e))
    }

    /// The end of the header line of the block scalar at `pos`, and its
    /// indentation digit.
    fn scan_block_header(&self) -> (r: (usize, Option<usize>))
        requires
            self.pos < self.bytes().len(),
        ensures
            r.0 == header_line_end(self.bytes(), self.pos as int),
            self.pos < r.0 <= self.bytes().len(),
            match r.1 {
                Some(n) => header_at(self.bytes(), self.pos as int).indent == Some(n as int) && 1
                    <= n <= 9,
                None => header_at(self.bytes(), self.pos as int).indent is None,
            },
    {
        let bytes = self.src.as_bytes();
        let len = bytes.len();
        let ghost s = bytes@;
        let mut indent: Option<usize> = None;
        let mut chomp = false;
        let mut i: usize = self.pos + 1;
        let ghost mut h = Header { indent: None, chomp: false, end: self.pos + 1 };
        let mut round: usize = 0;
        while round < 2
            invariant
                s == bytes@,
                round <= 2,
                self.pos < i <= s.len(),
                s == self.bytes(),
                h.end == i,
                h.chomp == chomp,
                match indent {
                    Some(n) => h.indent == Some(n as int) && 1 <= n <= 9,
                    None => h.indent is None,
                },
                round == 0 ==> header_step(s, header_step(s, h)) == header_at(s, self.pos as int),
                round == 1 ==> header_step(s, h) == header_at(s, self.pos as int),
                round == 2 ==> h == header_at(s, self.pos as int),
            decreases 2 - round,
        {
            proof {
                h = header_step(s, h);
            }
            if i < bytes.len() {
                let b = bytes[i];
                if 0x31 <= b && b <= 0x39 && indent.is_none() {
                    indent = Some((b - 0x30) as usize);
                    i = i + 1;
                } else if (b == 0x2b || b == 0x2d) && !chomp {
                    chomp = true;
                    i = i + 1;
                }
            }
            round = round + 1;
        }
        let mut e: usize = run(bytes, i, ByteClass::Blank);
        if is_byte(bytes, e, 0x23) {
            e = run(bytes, e, ByteClass::Line);
        }
        (e, indent)
    }

    /// Consumes the block scalar (`|` literal or `>` folded) at `pos`, the
    /// value of a node indented by `parent_indent`. The text goes from the
    /// sigil through the last byte that belongs to the scalar.
    pub fn bump_block_scalar(&mut self, parent_indent: usize) -> (r: Result<
        (SyntaxKind, &'a str),
        LexError,
    >)
        requires
            old(self).on_boundary(),
            byte_is(old(self).bytes(), old(self).pos as int, 0x7c) || byte_is(
                old(self).bytes(),
                old(self).pos as int,
                0x3e,
            ),
        ensures
            final(self).src == old(self).src,
            final(self).on_boundary(),
            match r {
                Ok((k, t)) => {
                    &&& block_scalar_end(
                        old(self).bytes(),
                        old(self).pos as int,
                        parent_indent as int,
                    ) == Some(final(self).pos as int)
                    &&& final(self).pos > old(self).pos
                    &&& k == if old(self).bytes()[old(self).pos as int] == 0x7c {
                        SyntaxKind::LITERAL_SCALAR
                    } else {
                        SyntaxKind::FOLDED_SCALAR
                    }
                    &&& t@ == old(self).text(old(self).pos as int, final(self).pos as int)
                },
                Err(e) => {
                    &&& block_scalar_end(
                        old(self).bytes(),
                        old(self).pos as int,
                        parent_indent as int,
                    ) is None
                    &&& final(self).pos == old(self).pos
                    &&& e == LexError::MalformedBlockScalarHeader { start: old(self).pos }
                },
            },
    {
        let start = self.pos;
        let bytes = self.src.as_bytes();
        let len = bytes.len();
        let ghost s = bytes@;
        let ghost parent = parent_indent as int;
        proof {
            lemma_block_scalar_end(s, start as int, parent);
        }
        let kind = if bytes[start] == 0x7c {
            SyntaxKind::LITERAL_SCALAR
        } else {
            SyntaxKind::FOLDED_SCALAR
        };
        let (header_end, explicit) = self.scan_block_header();
        if header_end >= bytes.len() {
            self.pos = header_end;
            return Ok((kind, slice(self.src, start, header_end)));
        }
        if !is_break_at(bytes, header_end) {
            return Err(LexError::MalformedBlockScalarHeader { start });
        }
        let mut detected: Option<usize> = None;
        let mut i: usize = header_end;
        let ghost goal = block_scalar_end(s, start as int, parent)->0;
        let mut end: usize = header_end;
        loop
            invariant_except_break
                block_body_end(
                    s,
                    i as int,
                    match explicit {
                        Some(n) => Some(parent + n),
                        None => match detected {
                            Some(n) => Some(n as int),
                            None => None,
                        },
                    },
                    parent,
                ) == goal,
            invariant
                bytes@ == s,
                i == s.len() || break_at(s, i as int),
                parent == parent_indent,
            ensures
                end == goal,
            decreases s.len() - i,
        {
            if i >= bytes.len() {
                end = i;
                break;
            }
            let line = skip_break(bytes, i);
            let e = run(bytes, line, ByteClass::Space);
            proof {
                lemma_run_end(s, line as int, ByteClass::Space);
                lemma_run_end(s, e as int, ByteClass::Line);
            }
            if e >= bytes.len() {
                // Only spaces up to the end of the text: they stay outside.
                end = line;
                break;
            }
            if is_break_at(bytes, e) {
                i = e;
                continue ;
            }
            let width = e - line;
            let belongs = match explicit {
                Some(n) => width >= n && width - n >= parent_indent,
                None => match detected {
                    Some(n) => width >= n,
                    None => width > parent_indent,
                },
            };
            if !belongs {
                end = i;
                break;
            }
            if detected.is_none() {
                detected = Some(width);
            }
            i = run(bytes, e, ByteClass::Line);
        }
        self.pos = end;
        Ok((kind, slice(self.src, start, end)))
    }

    /// Whether `src[pos]` is a `:` acting as a block mapping indicator.
    pub fn is_block_colon_indicator(&self) -> (r: bool)
        ensures
            r == block_colon(self.bytes(), self.pos as int),
    {
        let bytes = self.src.as_bytes();
        self.pos < bytes.len() && bytes[self.pos] == 0x3a && is_gap(bytes, self.pos + 1)
    }

    /// Whether `src[pos]` is a `:` acting as a flow mapping indicator behind a
    /// plain key: whitespace, a flow terminator or the end of the text follows.
    pub fn is_flow_colon_indicator(&self) -> (r: bool)
        ensures
            r == flow_colon(self.bytes(), self.pos as int),
    {
        let bytes = self.src.as_bytes();
        let i = self.pos;
        i < bytes.len() && bytes[i] == 0x3a && (is_gap(bytes, i + 1) || bytes[i + 1] == 0x2c || bytes[i + 1]
            == 0x7d || bytes[i + 1] == 0x5d)
    }

    /// Whether a flow mapping indicator behind a quoted key stands at `pos`:
    /// there every `:` counts.
    pub fn is_flow_colon_indicator_after_quoted(&self) -> (r: bool)
        ensures
            r == byte_is(self.bytes(), self.pos as int, 0x3a),
    {
        is_byte(self.src.as_bytes(), self.pos, 0x3a)
    }
}

/// Whether `---` or `...` stands at `i`, set off from what follows.
fn is_marker(bytes: &[u8], i: usize) -> (r: bool)
    requires
        i < bytes@.len(),
    ensures
        r == marker_at(bytes@, i as int),
{
    if bytes.len() - i < 3 {
        return false;
    }
    ((bytes[i] == 0x2d && bytes[i + 1] == 0x2d && bytes[i + 2] == 0x2d) || (bytes[i] == 0x2e
        && bytes[i + 1] == 0x2e && bytes[i + 2] == 0x2e)) && is_gap(bytes, i + 3)
}

// ---- Words and quoting ----

/// What `s` stands for as a YAML 1.1 boolean word.
pub open spec fn yaml_1_1_bool(s: Seq<char>) -> Option<bool> {
    if s == "yes"@ || s == "Yes"@ || s == "YES"@ || s == "on"@ || s == "On"@ || s == "ON"@ {
        Some(true)
    } else if s == "no"@ || s == "No"@ || s == "NO"@ || s == "off"@ || s == "Off"@ || s == "OFF"@ {
        Some(false)
    } else {
        None
    }
}

/// Whether `s` is a YAML 1.1 octal literal: a zero and at least one octal digit.
pub open spec fn yaml_1_1_octal(s: Seq<char>) -> bool {
    &&& s.len() >= 2
    &&& s[0] == '0'
    &&& forall|i: int| 1 <= i < s.len() ==> '0' <= #[trigger] s[i] <= '7'
}

/// Whether `s` is made of decimal digits, at least one.
pub open spec fn decimal_digits(s: Seq<char>) -> bool {
    s.len() > 0 && forall|i: int| 0 <= i < s.len() ==> '0' <= #[trigger] s[i] <= '9'
}

/// Whether `s` is one or two decimal digits that stand for at most 59.
pub open spec fn sixty_digits(s: Seq<char>) -> bool {
    &&& decimal_digits(s)
    &&& s.len() <= 2
    &&& s.len() == 2 ==> s[0] <= '5'
}

/// Whether the segments of a sexagesimal number are well-formed: at least two,
/// of digits, each behind the first at most 59.
pub open spec fn sexagesimal_segments(segments: Seq<Seq<char>>) -> bool {
    &&& segments.len() >= 2
    &&& decimal_digits(segments[0])
    &&& forall|i: int| 1 <= i < segments.len() ==> sixty_digits(#[trigger] segments[i])
}

/// Whether `s` is an unsigned sexagesimal number: segments between colons and
/// an optional fraction.
pub open spec fn unsigned_sexagesimal(s: Seq<char>) -> bool {
    let point = text::find_from(s, '.', 0);
    &&& point < s.len() ==> decimal_digits(s.skip(point + 1))
    &&& sexagesimal_segments(text::split_on(s.take(point), ':'))
}

/// Whether `s` is a YAML 1.1 sexagesimal number, with an optional minus.
pub open spec fn yaml_1_1_sexagesimal(s: Seq<char>) -> bool {
    unsigned_sexagesimal(
        if s.len() > 0 && s[0] == '-' {
            s.skip(1)
        } else {
            s
        },
    )
}

/// Whether `c` is a space, a tab or a line break.
pub open spec fn is_white_char(c: char) -> bool {
    c == ' ' || c == '\t' || c == '\n' || c == '\r'
}

/// The characters that no plain scalar begins with.
pub open spec fn reserved_first(c: char) -> bool {
    c == '\'' || c == '"' || c == '|' || c == '>' || c == '&' || c == '*' || c == '!' || c == '{' || c
        == '}' || c == '[' || c == ']' || c == ',' || c == '@' || c == '`' || c == '#' || c == ':'
}

/// Whether a plain scalar may not hold what stands at `i`: the end of a flow
/// item, a mapping indicator, the start of a comment.
pub open spec fn plain_breaker(s: Seq<char>, i: int) -> bool {
    ||| s[i] == ',' || s[i] == '}' || s[i] == ']'
    ||| s[i] == ':' && (i + 1 >= s.len() || is_white_char(s[i + 1]))
    ||| s[i] == '#' && i > 0 && (s[i - 1] == ' ' || s[i - 1] == '\t')
}

/// Whether `s` can be written as a plain scalar: it neither begins nor ends
/// with a blank, does not begin with an indicator, holds nothing that ends a
/// plain scalar, and is read as a string by YAML 1.2 and YAML 1.1 alike.
pub open spec fn plain_safe(s: Seq<char>) -> bool {
    &&& s.len() > 0
    &&& s[0] != ' ' && s[0] != '\t'
    &&& s.last() != ' ' && s.last() != '\t'
    &&& !reserved_first(s[0])
    &&& !((s[0] == '-' || s[0] == '?') && (s.len() == 1 || is_white_char(s[1])))
    &&& value::inferred(s) is Text
    &&& yaml_1_1_bool(s) is None
    &&& !yaml_1_1_octal(s)
    &&& !yaml_1_1_sexagesimal(s)
    &&& forall|i: int| 0 <= i < s.len() ==> !#[trigger] plain_breaker(s, i)
}

/// Whether `c` is a control character that a single-quoted scalar cannot hold.
pub open spec fn is_control(c: char) -> bool {
    c < ' ' || c == '\x7f'
}

/// `s` from `i` on, with each quote doubled.
pub open spec fn doubled_quotes(s: Seq<char>, i: int) -> Seq<char>
    decreases s.len() - i,
{
    if !(0 <= i < s.len()) {
        seq![]
    } else if s[i] == '\'' {
        seq!['\'', '\''] + doubled_quotes(s, i + 1)
    } else {
        seq![s[i]] + doubled_quotes(s, i + 1)
    }
}

/// `s` as a single-quoted scalar.
pub open spec fn single_quoted(s: Seq<char>) -> Seq<char> {
    seq!['\''] + doubled_quotes(s, 0) + seq!['\'']
}

/// What `s` stands for as a YAML 1.1 boolean word.
pub fn as_yaml_1_1_bool(s: &str) -> (r: Option<bool>)
    ensures
        r == yaml_1_1_bool(s@),
{
    if same_text(s, "yes") || same_text(s, "Yes") || same_text(s, "YES") || same_text(s, "on")
        || same_text(s, "On") || same_text(s, "ON") {
        Some(true)
    } else if same_text(s, "no") || same_text(s, "No") || same_text(s, "NO") || same_text(s, "off")
        || same_text(s, "Off") || same_text(s, "OFF") {
        Some(false)
    } else {
        None
    }
}

/// Whether `s` is a YAML 1.1 octal literal. A lone `0` is none: both versions
/// read it alike.
pub fn is_yaml_1_1_octal(s: &str) -> (r: bool)
    ensures
        r == yaml_1_1_octal(s@),
{
    let cs = chars_of(s);
    if cs.len() < 2 || cs[0] != '0' {
        return false;
    }
    let mut i: usize = 1;
    while i < cs.len()
        invariant
            cs@ == s@,
            1 <= i <= cs@.len(),
            cs@.len() >= 2,
            cs@[0] == '0',
            forall|j: int| 1 <= j < i ==> '0' <= #[trigger] s@[j] <= '7',
        decreases cs@.len() - i,
    {
        let c = cs[i];
        if !('0' <= c && c <= '7') {
            assert(s@[i as int] == c);
            return false;
        }
        i = i + 1;
    }
    true
}

/// Whether `s` is made of decimal digits, at least one.
fn is_decimal_digits(s: &Vec<char>) -> (r: bool)
    ensures
        r == decimal_digits(s@),
{
    if s.len() == 0 {
        return false;
    }
    let mut i: usize = 0;
    while i < s.len()
        invariant
            i <= s@.len(),
            s@.len() > 0,
            forall|j: int| 0 <= j < i ==> '0' <= #[trigger] s@[j] <= '9',
        decreases s@.len() - i,
    {
        let c = s[i];
        if !('0' <= c && c <= '9') {
            assert(s@[i as int] == c);
            return false;
        }
        i = i + 1;
    }
    true
}

/// Whether `s` is a YAML 1.1 sexagesimal number, such as `1:30` or
/// `-12:34:56.78`.
pub fn is_yaml_1_1_sexagesimal(s: &str) -> (r: bool)
    ensures
        r == yaml_1_1_sexagesimal(s@),
{
    let cs = chars_of(s);
    let start: usize = if cs.len() > 0 && cs[0] == '-' {
        1
    } else {
        0
    };
    let body = chars_slice(&cs, start, cs.len());
    assert(body@ =~= if s@.len() > 0 && s@[0] == '-' {
        s@.skip(1)
    } else {
        s@
    });
    let point = find_char(&body, '.', 0);
    if point < body.len() {
        let tail = chars_slice(&body, point + 1, body.len());
        assert(tail@ =~= body@.skip(point + 1));
        if !is_decimal_digits(&tail) {
            return false;
        }
    }
    let head = chars_slice(&body, 0, point);
    assert(head@ =~= body@.take(point as int));
    let segments = split_chars(&head, ':');
    let ghost segs = text::views(segments@);
    if segments.len() < 2 {
        return false;
    }
    assert(segs[0] == segments@[0]@);
    if !is_decimal_digits(&segments[0]) {
        return false;
    }
    let mut i: usize = 1;
    while i < segments.len()
        invariant
            1 <= i <= segments@.len(),
            segs == text::views(segments@),
            segs.len() >= 2,
            decimal_digits(segs[0]),
            yaml_1_1_sexagesimal(s@) == sexagesimal_segments(segs),
            forall|j: int| 1 <= j < i ==> sixty_digits(#[trigger] segs[j]),
        decreases segments@.len() - i,
    {
        let seg = &segments[i];
        assert(segs[i as int] == seg@);
        if !is_decimal_digits(seg) || seg.len() > 2 || (seg.len() == 2 && seg[0] > '5') {
            assert(!sixty_digits(segs[i as int]));
            return false;
        }
        i = i + 1;
    }
    true
}

/// Whether a plain scalar may not hold what stands at `i`.
fn breaks_plain(s: &Vec<char>, i: usize) -> (r: bool)
    requires
        i < s@.len(),
    ensures
        r == plain_breaker(s@, i as int),
{
    let len = s.len();
    let c = s[i];
    if c == ',' || c == '}' || c == ']' {
        return true;
    }
    if c == ':' {
        return i + 1 >= len || s[i + 1] == ' ' || s[i + 1] == '\t' || s[i + 1] == '\n' || s[i
            + 1] == '\r';
    }
    c == '#' && i > 0 && (s[i - 1] == ' ' || s[i - 1] == '\t')
}

/// The plain scalar to write for the content `s`: `s` itself, or `None` if it
/// has to be quoted.
pub fn as_plain_scalar(s: &str) -> (r: Option<&str>)
    ensures
        match r {
            Some(t) => plain_safe(s@) && t@ == s@,
            None => !plain_safe(s@),
        },
{
    let cs = chars_of(s);
    if cs.len() == 0 {
        return None;
    }
    let first = cs[0];
    let last = cs[cs.len() - 1];
    if first == ' ' || first == '\t' || last == ' ' || last == '\t' {
        return None;
    }
    match first {
        '\'' | '"' | '|' | '>' | '&' | '*' | '!' | '{' | '}' | '[' | ']' | ',' | '@' | '`' | '#'
        | ':' => {
            return None;
        },
        _ => {},
    }
    if (first == '-' || first == '?') && (cs.len() == 1 || cs[1] == ' ' || cs[1] == '\t' || cs[1]
        == '\n' || cs[1] == '\r') {
        return None;
    }
    match infer_plain(s) {
        Value::String(_) => {},
        _ => {
            return None;
        },
    }
    if as_yaml_1_1_bool(s).is_some() || is_yaml_1_1_octal(s) || is_yaml_1_1_sexagesimal(s) {
        return None;
    }
    let mut i: usize = 0;
    while i < cs.len()
        invariant
            cs@ == s@,
            i <= cs@.len(),
            forall|j: int| 0 <= j < i ==> !#[trigger] plain_breaker(s@, j),
        decreases cs@.len() - i,
    {
        if breaks_plain(&cs, i) {
            return None;
        }
        i = i + 1;
    }
    Some(s)
}

/// The single-quoted scalar to write for the content `s`, or `None` if `s`
/// holds a control character, for which single quotes have no escape.
pub fn as_single_quoted(s: &str) -> (r: Option<String>)
    ensures
        match r {
            Some(t) => (forall|i: int| 0 <= i < s@.len() ==> !is_control(#[trigger] s@[i])) && t@
                == single_quoted(s@),
            None => exists|i: int| 0 <= i < s@.len() && is_control(#[trigger] s@[i]),
        },
{
    let cs = chars_of(s);
    let mut out: Vec<char> = Vec::new();
    out.push('\'');
    let mut i: usize = 0;
    assert(out@ + doubled_quotes(s@, 0) =~= seq!['\''] + doubled_quotes(s@, 0));
    while i < cs.len()
        invariant
            cs@ == s@,
            i <= cs@.len(),
            forall|j: int| 0 <= j < i ==> !is_control(#[trigger] s@[j]),
            out@ + doubled_quotes(s@, i as int) == seq!['\''] + doubled_quotes(s@, 0),
        decreases cs@.len() - i,
    {
        let c = cs[i];
        assert(s@[i as int] == c);
        if c < ' ' || c == '\x7f' {
            return None;
        }
        let ghost before = out@;
        if c == '\'' {
            out.push('\'');
        }
        out.push(c);
        assert(out@ + doubled_quotes(s@, i + 1) =~= before + doubled_quotes(s@, i as int));
        i = i + 1;
    }
    out.push('\'');
    assert(out@ =~= single_quoted(s@));
    Some(string_of(&out))
}

/// A text without line feeds that can be written as a plain scalar is read
/// back unchanged, and as a string.
pub proof fn lemma_plain_scalar_reads_back(s: Seq<char>)
    requires
        plain_safe(s),
        !s.contains('\n'),
    ensures
        decode::folded_text(s) == s,
        value::inferred(decode::folded_text(s)) == value::ValueModel::Text(s),
{
    decode::lemma_fold_one_line(s);
}

/// A text without line feeds, and without a space or tab at either end, is read
/// back from its single-quoted form unchanged.
pub proof fn lemma_single_quoted_reads_back(s: Seq<char>)
    requires
        !s.contains('\n'),
        s.len() > 0 ==> !decode::is_blank_char(s[0]) && !decode::is_blank_char(s.last()),
    ensures
        decode::single_quoted_value(single_quoted(s)) == Ok::<Seq<char>, decode::DecodeFault>(s),
{
    let raw = single_quoted(s);
    let inner = doubled_quotes(s, 0);
    assert(raw.subrange(1, raw.len() - 1) =~= inner);
    assert(raw.last() == '\'');
    lemma_doubled_ends(s, 0);
    assert(!inner.contains('\n'));
    decode::lemma_fold_one_line(inner);
    assert(decode::folded_text(inner) == inner);
    lemma_pairing_undoes_doubling(s, 0);
    assert(s.skip(0) =~= s);
}

/// A text whose quotes were doubled begins and ends as before, and holds no line
/// feed if there was none.
proof fn lemma_doubled_ends(s: Seq<char>, i: int)
    requires
        0 <= i <= s.len(),
        !s.contains('\n'),
    ensures
        ({
            let d = doubled_quotes(s, i);
            &&& !d.contains('\n')
            &&& i < s.len() ==> d.len() > 0 && d[0] == s[i] && d.last() == s.last()
            &&& i == s.len() ==> d.len() == 0
        }),
    decreases s.len() - i,
{
    if i < s.len() {
        lemma_doubled_ends(s, i + 1);
        let d = doubled_quotes(s, i);
        let rest = doubled_quotes(s, i + 1);
        let head = if s[i] == '\'' {
            seq!['\'', '\'']
        } else {
            seq![s[i]]
        };
        assert(d =~= head + rest);
        assert(s.contains(s[i]));
        assert forall|j: int| 0 <= j < d.len() implies d[j] != '\n' by {
            if j >= head.len() {
                assert(rest.contains(rest[j - head.len()]));
            }
        }
        if i + 1 < s.len() {
            assert(d.last() == rest.last());
        } else {
            assert(d =~= head);
        }
    }
}

/// Pairing the quotes of a text whose quotes were doubled gives the text.
proof fn lemma_pairing_undoes_doubling(s: Seq<char>, i: int)
    requires
        0 <= i <= s.len(),
    ensures
        decode::pair_quotes(doubled_quotes(s, i), 0) == s.skip(i),
    decreases s.len() - i,
{
    let d = doubled_quotes(s, i);
    if i < s.len() {
        lemma_pairing_undoes_doubling(s, i + 1);
        let rest = doubled_quotes(s, i + 1);
        if s[i] == '\'' {
            decode::lemma_pair_quotes_shift(d, 2);
            assert(d.skip(2) =~= rest);
            assert(decode::pair_quotes(d, 0) == seq!['\''] + decode::pair_quotes(d, 2));
        } else {
            decode::lemma_pair_quotes_shift(d, 1);
            assert(d.skip(1) =~= rest);
            assert(decode::pair_quotes(d, 0) == seq![s[i]] + decode::pair_quotes(d, 1));
        }
        assert(s.skip(i) =~= seq![s[i]] + s.skip(i + 1));
    } else {
        assert(s.skip(i) =~= seq![]);
    }
}

} // verus!

//! Where texts stand among bytes, and how lines are read there.

use vstd::prelude::*;
use vstd::utf8::*;

use crate::grammar;
use crate::grammar::Parsed;
use crate::lexer;
use crate::lexer::ByteClass;
use crate::syntax::kind::SyntaxKind;
use crate::text;

verus! {

broadcast use vstd::utf8::encode_utf8_valid_utf8;

// ---- Texts among bytes ----

/// The length of a text, in bytes.
pub open spec fn size(t: Seq<char>) -> int {
    encode_utf8(t).len() as int
}

/// Whether the text `t` stands at `pos`.
pub open spec fn stands(s: Seq<u8>, pos: int, t: Seq<char>) -> bool {
    0 <= pos && pos + size(t) <= s.len() && s.subrange(pos, pos + size(t)) == encode_utf8(t)
}

/// An ASCII character is one byte, its number; the bytes of all others are not
/// ASCII.
pub proof fn lemma_char(c: char)
    ensures
        (c as u32) < 0x80 ==> encode_utf8(seq![c]) == seq![c as u8],
        (c as u32) >= 0x80 ==> size(seq![c]) >= 2 && forall|j: int|
            0 <= j < size(seq![c]) ==> #[trigger] encode_utf8(seq![c])[j] >= 0x80,
        size(seq![c]) >= 1,
{
    broadcast use vstd::utf8::utf8_byte_ranges_bitwise;

    let t = seq![c];
    let b = encode_utf8(t);
    assert(encode_utf8(t.drop_first()) =~= seq![]);
    assert(b =~= encode_scalar(c as u32) + encode_utf8(t.drop_first()));
    assert(b =~= encode_scalar(c as u32));
    if (c as u32) < 0x80 {
        assert(is_ascii_chars(t));
        is_ascii_chars_encode_utf8(t);
        assert(t[0] as u8 == b[0]);
        assert(b =~= seq![c as u8]);
    } else {
        encode_utf8_first_scalar(t);
        assert(!is_leading_byte_width_1(b[0]));
        assert forall|j: int| 0 <= j < b.len() implies #[trigger] b[j] >= 0x80 by {
            assert(j == 0 || is_continuation_byte(b[j]));
        }
    }
}

/// What stands somewhere stands there part by part.
pub proof fn lemma_parts(s: Seq<u8>, pos: int, a: Seq<char>, b: Seq<char>)
    requires
        stands(s, pos, a + b),
    ensures
        stands(s, pos, a),
        stands(s, pos + size(a), b),
        size(a + b) == size(a) + size(b),
{
    text::lemma_encode_add(a, b);
    let w = s.subrange(pos, pos + size(a + b));
    assert(s.subrange(pos, pos + size(a)) =~= w.subrange(0, size(a)));
    assert(w.subrange(0, size(a)) =~= encode_utf8(a));
    assert(s.subrange(pos + size(a), pos + size(a) + size(b)) =~= w.subrange(
        size(a),
        size(a) + size(b),
    ));
    assert(w.subrange(size(a), size(a) + size(b)) =~= encode_utf8(b));
}

/// An ASCII character before a text.
pub proof fn lemma_first(s: Seq<u8>, pos: int, c: char, t: Seq<char>)
    requires
        stands(s, pos, seq![c] + t),
        (c as u32) < 0x80,
    ensures
        pos < s.len(),
        s[pos] == c as u8,
        stands(s, pos + 1, t),
        size(seq![c] + t) == 1 + size(t),
{
    lemma_parts(s, pos, seq![c], t);
    lemma_char(c);
    assert(s.subrange(pos, pos + 1)[0] == c as u8);
}

/// Spaces before a text.
pub proof fn lemma_spaces(s: Seq<u8>, pos: int, n: int, t: Seq<char>)
    requires
        stands(s, pos, text::spaces(n) + t),
        n >= 0,
    ensures
        forall|j: int| pos <= j < pos + n ==> #[trigger] s[j] == 0x20,
        pos + n <= s.len(),
        stands(s, pos + n, t),
        size(text::spaces(n) + t) == n + size(t),
    decreases n,
{
    let u = text::spaces(n);
    if n == 0 {
        assert(u + t =~= t);
    } else {
        assert(u + t =~= seq![' '] + (text::spaces(n - 1) + t));
        lemma_first(s, pos, ' ', text::spaces(n - 1) + t);
        lemma_spaces(s, pos + 1, n - 1, t);
    }
}

/// The characters where a text stands are the text.
pub proof fn lemma_chars(s: Seq<u8>, pos: int, t: Seq<char>)
    requires
        stands(s, pos, t),
    ensures
        text::chars_between(s, pos, pos + size(t)) == t,
{
    encode_utf8_decode_utf8(t);
}

/// The first byte of each character of a text.
pub proof fn lemma_byte(t: Seq<char>, k: int)
    requires
        0 <= k < t.len(),
    ensures
        0 <= size(t.take(k)) < size(t),
        (t[k] as u32) < 0x80 ==> encode_utf8(t)[size(t.take(k))] == t[k] as u8 && size(
            t.take(k + 1),
        ) == size(t.take(k)) + 1,
        (t[k] as u32) >= 0x80 ==> encode_utf8(t)[size(t.take(k))] >= 0x80,
        size(t.take(k + 1)) == size(t.take(k)) + size(seq![t[k]]),
{
    let a = t.take(k);
    let b = seq![t[k]];
    let c = t.skip(k + 1);
    assert(t =~= a + (b + c));
    assert(t.take(k + 1) =~= a + b);
    text::lemma_encode_add(a, b);
    text::lemma_encode_add(b, c);
    text::lemma_encode_add(a, b + c);
    lemma_char(t[k]);
    assert(encode_utf8(t)[size(a)] == encode_utf8(b)[0]);
}

/// Each ASCII byte of a text is one of its characters: the place of that.
pub proof fn lemma_ascii_place(t: Seq<char>, j: int) -> (k: int)
    requires
        0 <= j < size(t),
        encode_utf8(t)[j] < 0x80,
    ensures
        0 <= k < t.len(),
        size(t.take(k)) == j,
        (t[k] as u32) < 0x80,
        t[k] as u8 == encode_utf8(t)[j],
    decreases t.len(),
{
    let u = t.drop_first();
    let n = size(seq![t[0]]);
    assert(t =~= seq![t[0]] + u);
    text::lemma_encode_add(seq![t[0]], u);
    lemma_char(t[0]);
    if j < n {
        assert(encode_utf8(t)[j] == encode_utf8(seq![t[0]])[j]);
        assert(t.take(0) =~= seq![]);
        0
    } else {
        assert(encode_utf8(t)[j] == encode_utf8(u)[j - n]);
        let k = lemma_ascii_place(u, j - n);
        assert(t.take(k + 1) =~= seq![t[0]] + u.take(k));
        text::lemma_encode_add(seq![t[0]], u.take(k));
        k + 1
    }
}

// ---- Lines ----

/// Whether a byte can begin the content of a line.
pub open spec fn solid(b: u8) -> bool {
    !lexer::is_blank(b) && !lexer::is_break(b) && b != 0x23
}

/// Whether the line break at `e` is the last byte.
pub open spec fn last_line(s: Seq<u8>, e: int) -> bool {
    feed_at(s, e) && e + 1 == s.len()
}

/// Whether a line feed stands at `e`.
pub open spec fn feed_at(s: Seq<u8>, e: int) -> bool {
    lexer::byte_is(s, e, 0x0a)
}

/// Whether spaces stand from `a` up to `b`.
pub open spec fn blank_between(s: Seq<u8>, a: int, b: int) -> bool {
    forall|j: int| a <= j < b ==> #[trigger] s[j] == 0x20
}

/// Whether content indented by `n` stands below the line break at `e`.
pub open spec fn line_below(s: Seq<u8>, e: int, n: int) -> bool {
    &&& feed_at(s, e)
    &&& 0 <= n && e + 1 + n < s.len()
    &&& blank_between(s, e + 1, e + 1 + n)
    &&& solid(s[e + 1 + n])
}

/// Whether the text ends with the line break at `e`, or goes on with content that
/// is indented by less than `n`.
pub open spec fn ends_before(s: Seq<u8>, e: int, n: int) -> bool {
    last_line(s, e) || exists|k: int| k < n && #[trigger] line_below(s, e, k)
}

/// A run of spaces ends where content begins.
pub proof fn lemma_run(s: Seq<u8>, a: int, b: int)
    requires
        0 <= a <= b <= s.len(),
        blank_between(s, a, b),
        b < s.len() ==> !lexer::is_blank(s[b]),
    ensures
        lexer::run_end(s, a, ByteClass::Blank) == b,
    decreases b - a,
{
    if a < b {
        assert(s[a] == 0x20);
        lemma_run(s, a + 1, b);
    }
}

/// A line begins behind the break before it.
pub proof fn lemma_line_start(s: Seq<u8>, a: int, p: int)
    requires
        0 <= a <= p <= s.len(),
        a == 0 || lexer::is_break(s[a - 1]),
        forall|j: int| a <= j < p ==> !lexer::is_break(#[trigger] s[j]),
    ensures
        lexer::line_start(s, p) == a,
        lexer::column_of(s, p) == p - a,
    decreases p - a,
{
    reveal(lexer::column_of);
    if a < p {
        lemma_line_start(s, a, p - 1);
    }
}

/// No tab stands among spaces.
pub proof fn lemma_no_tab(s: Seq<u8>, a: int, b: int)
    requires
        blank_between(s, a, b),
    ensures
        grammar::first_tab(s, a, b) is None,
    decreases b - a,
{
    if a < b {
        assert(s[a] == 0x20);
        lemma_no_tab(s, a + 1, b);
    }
}

/// Whether a line begins at `a` and its content, indented by `n`, behind it.
pub open spec fn line_at(s: Seq<u8>, a: int, n: int) -> bool {
    &&& 0 <= n && 0 <= a && a + n < s.len()
    &&& a == 0 || feed_at(s, a - 1)
    &&& blank_between(s, a, a + n)
    &&& solid(s[a + n])
}

/// The indentation of a line.
pub proof fn lemma_line(s: Seq<u8>, a: int, n: int)
    requires
        line_at(s, a, n),
    ensures
        grammar::tab_before(s, a) is None,
        lexer::column_of(s, a + n) == n,
        lexer::column_of(s, a) == 0,
        grammar::leading_whitespace(s, a).len == n,
        grammar::leading_whitespace(s, a).fault is None,
        n == 0 ==> grammar::leading_whitespace(s, a) == grammar::none(),
        n > 0 ==> grammar::leading_whitespace(s, a) == grammar::token(
            s,
            a,
            SyntaxKind::WHITESPACE,
            n as nat,
        ),
{
    reveal(grammar::tab_before);
    reveal(grammar::simple);
    reveal(lexer::hint_of);
    lemma_run(s, a, a + n);
    lemma_line_start(s, a, a);
    assert forall|j: int| a <= j < a + n implies !lexer::is_break(#[trigger] s[j]) by {}
    lemma_line_start(s, a, a + n);
    lemma_no_tab(s, a, a + n);
    if n > 0 {
        assert(s[a] == 0x20);
    }
}

/// What is made of a line break.
pub open spec fn break_token(s: Seq<u8>, e: int) -> Parsed {
    grammar::token(s, e, SyntaxKind::NEWLINE, 1)
}

/// A line feed is a token of its own, and ends what stands on its line.
pub proof fn lemma_break(s: Seq<u8>, e: int)
    requires
        feed_at(s, e),
    ensures
        grammar::at(s, e, SyntaxKind::NEWLINE),
        grammar::simple(s, e) == break_token(s, e),
        grammar::inline_trivia(s, e) == grammar::none(),
        grammar::leading_whitespace(s, e) == grammar::none(),
        lexer::run_end(s, e, ByteClass::Blank) == e,
        !lexer::block_colon(s, e),
        lexer::gap_at(s, e),
{
    reveal(grammar::simple);
    reveal(grammar::inline_trivia);
    reveal(lexer::hint_of);
}

/// Where the text ends with a line break, nothing follows.
pub proof fn lemma_last_line(s: Seq<u8>, e: int)
    requires
        last_line(s, e),
    ensures
        grammar::content_after(s, e) is None,
        lexer::next_content(s, e) is None,
        grammar::trivia(s, e) == break_token(s, e),
{
    reveal(grammar::content_after);
    reveal(grammar::trivia);
    lemma_break(s, e);
    assert(grammar::content_after(s, e + 1) is None);
    assert(lexer::run_end(s, e + 1, ByteClass::Blank) == e + 1);
    assert(grammar::trivia(s, e + 1) == grammar::none());
    assert(break_token(s, e).elems + grammar::none().elems =~= break_token(s, e).elems);
}

/// Behind spaces comes the content.
proof fn lemma_content_behind(s: Seq<u8>, a: int, b: int)
    requires
        0 <= a <= b < s.len(),
        blank_between(s, a, b),
        solid(s[b]),
    ensures
        grammar::content_after(s, a) == Some(b),
    decreases b - a,
{
    reveal(grammar::content_after);
    if a < b {
        assert(s[a] == 0x20);
        lemma_content_behind(s, a + 1, b);
    }
}

/// The content below a line break.
pub proof fn lemma_below(s: Seq<u8>, e: int, n: int)
    requires
        line_below(s, e, n),
    ensures
        line_at(s, e + 1, n),
        grammar::content_after(s, e) == Some(e + 1 + n),
        lexer::next_content(s, e) == Some((e + 1 + n, n)),
        grammar::entry_trivia(s, e) == break_token(s, e),
        lexer::column_of(s, e + 1 + n) == n,
{
    reveal(grammar::content_after);
    lemma_break(s, e);
    lemma_content_behind(s, e + 1, e + 1 + n);
    lemma_run(s, e + 1, e + 1 + n);
    lemma_line(s, e + 1, n);
    reveal(grammar::entry_trivia);
    reveal(grammar::simple);
    reveal(lexer::hint_of);
    let a = grammar::leading_whitespace(s, e + 1);
    assert(grammar::entry_trivia(s, e + 1) == grammar::none());
    assert(break_token(s, e).elems + grammar::none().elems =~= break_token(s, e).elems);
}

/// What follows a node that ends: nothing, or content indented by less.
pub proof fn lemma_ends(s: Seq<u8>, e: int, n: int)
    requires
        ends_before(s, e, n),
    ensures
        feed_at(s, e),
        match grammar::content_after(s, e) {
            None => true,
            Some(c) => lexer::column_of(s, c) < n,
        },
        match lexer::next_content(s, e) {
            None => true,
            Some((at, k)) => k < n,
        },
{
    if last_line(s, e) {
        lemma_last_line(s, e);
    } else {
        let k = choose|k: int| k < n && #[trigger] line_below(s, e, k);
        lemma_below(s, e, k);
    }
}

/// Whether the next document begins below the line break at `e`.
pub open spec fn marker_below(s: Seq<u8>, e: int) -> bool {
    &&& feed_at(s, e)
    &&& lexer::byte_is(s, e + 1, 0x2d)
    &&& lexer::byte_is(s, e + 2, 0x2d)
    &&& lexer::byte_is(s, e + 3, 0x2d)
    &&& feed_at(s, e + 4)
}

/// Whether a collection at `n` ends at `e`: with the text, before content that is
/// indented by less, or before the next document.
pub open spec fn closed(s: Seq<u8>, e: int, n: int) -> bool {
    ends_before(s, e, n) || marker_below(s, e)
}

/// The next document begins a line.
pub proof fn lemma_marker_below(s: Seq<u8>, e: int)
    requires
        marker_below(s, e),
    ensures
        line_below(s, e, 0),
        forall|n: int| n > 0 ==> #[trigger] ends_before(s, e, n),
        !last_line(s, e),
        !ends_before(s, e, 0),
        grammar::start_marker(s, e + 1),
        grammar::any_marker(s, e + 1),
        !grammar::dash_at(s, e + 1),
        grammar::trivia(s, e + 1) == grammar::none(),
        grammar::trivia(s, e) == break_token(s, e),
        grammar::content_after(s, e) == Some(e + 1),
        grammar::entry_trivia(s, e) == break_token(s, e),
        lexer::column_of(s, e + 1) == 0,
        !grammar::at(s, e + 1, SyntaxKind::DIRECTIVE),
{
    assert(line_below(s, e, 0));
    lemma_below(s, e, 0);
    lemma_break(s, e);
    reveal(grammar::line_marker);
    reveal(grammar::trivia);
    reveal(lexer::hint_of);
    assert forall|n: int| n > 0 implies #[trigger] ends_before(s, e, n) by {
        assert(0 < n && line_below(s, e, 0));
    }
    assert(break_token(s, e).elems + grammar::none().elems =~= break_token(s, e).elems);
}

} // verus!

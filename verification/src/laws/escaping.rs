//! Escapes are undone.

use vstd::prelude::*;
use vstd::utf8::*;

use crate::ast::decode;
use crate::ast::decode::DecodeFault;
use crate::debug;
use crate::laws::standing;
use crate::lexer;
use crate::lexer::{ByteClass, Closing};
use crate::text;

verus! {

broadcast use vstd::utf8::encode_utf8_valid_utf8;

/// Whether a character is written as more than itself.
pub open spec fn is_special(c: char) -> bool {
    c == '\\' || c == '"' || (c as u32) < 0x20
}

/// The bytes of the characters that mean something.
proof fn lemma_special_bytes(c: char)
    ensures
        is_special(c) ==> debug::escaped_char(c).len() > 1 && debug::escaped_char(c)[0] == '\\',
        !is_special(c) ==> debug::escaped_char(c) == seq![c],
        (c as u32) < 0x80 && !is_special(c) ==> c as u8 != 0x5c && c as u8 != 0x22 && c as u8
            != 0x0a,
{
}

/// A first character goes before the others.
proof fn lemma_escaped_first(x: Seq<char>)
    requires
        x.len() > 0,
    ensures
        debug::escaped_chars(x) == debug::escaped_char(x[0]) + debug::escaped_chars(x.skip(1)),
    decreases x.len(),
{
    let a = debug::escaped_char(x[0]);
    if x.len() == 1 {
        assert(x.drop_last() =~= seq![]);
        assert(x.skip(1) =~= seq![]);
        assert(debug::escaped_chars(x.skip(1)) =~= seq![]);
        assert(debug::escaped_chars(x) =~= a + debug::escaped_chars(x.skip(1)));
    } else {
        let y = x.drop_last();
        lemma_escaped_first(y);
        assert(y.skip(1) =~= x.skip(1).drop_last());
        assert(x.skip(1).last() == x.last());
        assert(debug::escaped_chars(x) =~= a + debug::escaped_chars(x.skip(1)));
    }
}

/// Characters that are written as they are stay before the others.
proof fn lemma_calm_first(x: Seq<char>, k: int)
    requires
        0 <= k <= x.len(),
        forall|j: int| 0 <= j < k ==> !is_special(#[trigger] x[j]),
    ensures
        debug::escaped_chars(x) == x.take(k) + debug::escaped_chars(x.skip(k)),
    decreases k,
{
    if k == 0 {
        assert(x.take(0) + debug::escaped_chars(x.skip(0)) =~= debug::escaped_chars(x.skip(0)));
        assert(x.skip(0) =~= x);
    } else {
        let y = x.skip(1);
        lemma_escaped_first(x);
        lemma_special_bytes(x[0]);
        assert forall|j: int| 0 <= j < k - 1 implies !is_special(#[trigger] y[j]) by {
            assert(y[j] == x[j + 1]);
        }
        lemma_calm_first(y, k - 1);
        assert(y.skip(k - 1) =~= x.skip(k));
        assert(x.take(k) =~= seq![x[0]] + y.take(k - 1));
        assert(x.take(k) + debug::escaped_chars(x.skip(k)) =~= seq![x[0]] + (y.take(k - 1)
            + debug::escaped_chars(x.skip(k))));
    }
}

/// The digit of a number is read as the number.
proof fn lemma_hex(n: int)
    requires
        0 <= n < 16,
    ensures
        (debug::hex_digit(n) as u32) < 0x80,
        decode::hex_digit(debug::hex_digit(n) as u8) == Some(n),
{
}

/// A run ends where its class does.
proof fn lemma_run_is(s: Seq<u8>, a: int, b: int, c: ByteClass)
    requires
        0 <= a <= b <= s.len(),
        forall|j: int| a <= j < b ==> lexer::in_class(c, #[trigger] s[j]),
        b < s.len() ==> !lexer::in_class(c, s[b]),
    ensures
        lexer::run_end(s, a, c) == b,
    decreases b - a,
{
    if a < b {
        lemma_run_is(s, a + 1, b, c);
    }
}

/// Where the first character stands that is written as more than itself.
spec fn first_special(x: Seq<char>, k: int) -> int
    decreases x.len() - k,
{
    if 0 <= k < x.len() && !is_special(x[k]) {
        first_special(x, k + 1)
    } else {
        k
    }
}

proof fn lemma_first_special(x: Seq<char>, k: int)
    requires
        0 <= k <= x.len(),
    ensures
        ({
            let e = first_special(x, k);
            &&& k <= e <= x.len()
            &&& forall|j: int| k <= j < e ==> !is_special(#[trigger] x[j])
            &&& e < x.len() ==> is_special(x[e])
        }),
    decreases x.len() - k,
{
    if k < x.len() && !is_special(x[k]) {
        lemma_first_special(x, k + 1);
    }
}

/// The bytes of characters that are written as they are.
proof fn lemma_calm_bytes(s: Seq<u8>, p: int, y: Seq<char>)
    requires
        standing::stands(s, p, y),
        forall|j: int| 0 <= j < y.len() ==> !is_special(#[trigger] y[j]),
    ensures
        forall|j: int|
            p <= j < p + standing::size(y) ==> #[trigger] s[j] != 0x5c && s[j] != 0x22 && s[j]
                != 0x0a,
{
    assert forall|j: int| p <= j < p + standing::size(y) implies #[trigger] s[j] != 0x5c && s[j]
        != 0x22 && s[j] != 0x0a by {
        assert(s.subrange(p, p + standing::size(y))[j - p] == s[j]);
        if s[j] < 0x80 {
            let k = standing::lemma_ascii_place(y, j - p);
            lemma_special_bytes(y[k]);
        }
    }
}

/// The escape of a character stands for the character.
proof fn lemma_escape_at(s: Seq<u8>, p: int, c: char, rest: Seq<char>)
    requires
        valid_utf8(s),
        is_special(c),
        standing::stands(s, p, debug::escaped_char(c) + rest),
    ensures
        ({
            let n = standing::size(debug::escaped_char(c));
            &&& p < s.len() && s[p] == 0x5c
            &&& !lexer::byte_is(s, p + 1, 0x0a)
            &&& decode::escape_at(s, p) == Ok::<(char, int), DecodeFault>((c, n))
            &&& standing::stands(s, p + n, rest)
            &&& standing::size(debug::escaped_char(c) + rest) == n + standing::size(rest)
        }),
{
    let w = debug::escaped_char(c);
    standing::lemma_parts(s, p, w, rest);
    let none = Seq::<char>::empty();
    assert(standing::size(none) == 0);
    if w.len() == 2 {
        assert(w =~= seq!['\\'] + (seq![w[1]] + none));
        standing::lemma_first(s, p, '\\', seq![w[1]] + none);
        standing::lemma_first(s, p + 1, w[1], none);
    } else {
        let a = c as u32 / 16;
        let b = c as u32 % 16;
        lemma_hex(a as int);
        lemma_hex(b as int);
        let h = debug::hex_digit(a as int);
        let l = debug::hex_digit(b as int);
        assert(w =~= seq!['\\'] + (seq!['x'] + (seq![h] + (seq![l] + none))));
        standing::lemma_first(s, p, '\\', seq!['x'] + (seq![h] + (seq![l] + none)));
        standing::lemma_first(s, p + 1, 'x', seq![h] + (seq![l] + none));
        standing::lemma_first(s, p + 2, h, seq![l] + none);
        standing::lemma_first(s, p + 3, l, none);
        text::lemma_boundary(s, p + 4);
        let d = s.subrange(p + 2, p + 4);
        assert(d[0] == h as u8 && d[1] == l as u8);
        assert(d.drop_last() =~= seq![h as u8]);
        assert(d.drop_last().drop_last() =~= seq![]);
        assert(decode::hex_digits_value(seq![]) == Some(0int));
        assert(decode::hex_digits_value(d.drop_last()) == Some(a as int));
        assert(decode::hex_digits_value(d) == Some(16 * a + b));
        assert(16 * a + b == c as int);
        assert(decode::plain_escape(0x78) is None);
    }
}

/// What was escaped is read from `p` on.
proof fn lemma_read_from(s: Seq<u8>, p: int, x: Seq<char>)
    requires
        valid_utf8(s),
        standing::stands(s, p, debug::escaped_chars(x)),
        p + standing::size(debug::escaped_chars(x)) == s.len(),
    ensures
        decode::double_quoted_from(s, p, 0) == Ok::<Seq<char>, DecodeFault>(x),
    decreases x.len(),
{
    if x.len() == 0 {
        assert(debug::escaped_chars(x) =~= seq![]);
        assert(standing::size(seq![]) == 0);
        assert(x =~= seq![]);
    } else if is_special(x[0]) {
        let rest = debug::escaped_chars(x.skip(1));
        lemma_escaped_first(x);
        lemma_escape_at(s, p, x[0], rest);
        lemma_read_from(s, p + standing::size(debug::escaped_char(x[0])), x.skip(1));
        assert(decode::fold_breaks(0) + seq![x[0]] + x.skip(1) =~= x);
    } else {
        let k = first_special(x, 0);
        lemma_first_special(x, 0);
        let y = x.take(k);
        let z = x.skip(k);
        let rest = debug::escaped_chars(z);
        lemma_calm_first(x, k);
        standing::lemma_parts(s, p, y, rest);
        let e = p + standing::size(y);
        assert forall|j: int| 0 <= j < y.len() implies !is_special(#[trigger] y[j]) by {
            assert(y[j] == x[j]);
        }
        lemma_calm_bytes(s, p, y);
        if z.len() > 0 {
            lemma_escaped_first(z);
            lemma_escape_at(s, e, z[0], debug::escaped_chars(z.skip(1)));
        } else {
            assert(rest =~= seq![]);
            assert(standing::size(rest) == 0);
        }
        lemma_run_is(s, p, e, ByteClass::Content);
        standing::lemma_chars(s, p, y);
        standing::lemma_byte(y, 0);
        lemma_read_from(s, e, z);
        assert(decode::fold_breaks(0) + y + z =~= x);
    }
}

/// What a text in quotes with escapes stands for is the text.
pub proof fn lemma_decoding_undoes_escaping(s: Seq<char>)
    ensures
        decode::double_quoted_value(encode_utf8(debug::escaped(s))) == Ok::<Seq<char>, DecodeFault>(
            s,
        ),
{
    let w = debug::escaped(s);
    let inner = debug::escaped_chars(s);
    let raw = encode_utf8(w);
    let none = Seq::<char>::empty();
    assert(raw.subrange(0, raw.len() as int) =~= raw);
    assert(w =~= seq!['"'] + (inner + (seq!['"'] + none)));
    standing::lemma_first(raw, 0, '"', inner + (seq!['"'] + none));
    standing::lemma_parts(raw, 1, inner, seq!['"'] + none);
    standing::lemma_first(raw, 1 + standing::size(inner), '"', none);
    assert(standing::size(none) == 0);
    let b = raw.subrange(1, raw.len() - 1);
    assert(b == encode_utf8(inner));
    assert(b.subrange(0, b.len() as int) =~= b);
    lemma_read_from(b, 0, s);
}

/// The quote that closes is found behind escapes.
pub proof fn lemma_close(s: Seq<u8>, p: int, x: Seq<char>)
    requires
        standing::stands(s, p, debug::escaped_chars(x) + seq!['"']),
    ensures
        lexer::double_close(s, p) == (Closing {
            closed: true,
            end: p + standing::size(debug::escaped_chars(x) + seq!['"']),
        }),
    decreases x.len(),
{
    let none = Seq::<char>::empty();
    let quote = seq!['"'];
    if x.len() == 0 {
        assert(debug::escaped_chars(x) + quote =~= quote + none);
        standing::lemma_first(s, p, '"', none);
        assert(standing::size(none) == 0);
    } else {
        let w = debug::escaped_char(x[0]);
        let rest = debug::escaped_chars(x.skip(1)) + quote;
        lemma_escaped_first(x);
        lemma_special_bytes(x[0]);
        assert(debug::escaped_chars(x) + quote =~= w + rest);
        standing::lemma_parts(s, p, w, rest);
        let e = p + standing::size(w);
        lemma_close(s, e, x.skip(1));
        if is_special(x[0]) {
            if w.len() == 2 {
                assert(w =~= seq!['\\'] + (seq![w[1]] + none));
                standing::lemma_first(s, p, '\\', seq![w[1]] + none);
                standing::lemma_first(s, p + 1, w[1], none);
                assert(standing::size(none) == 0);
            } else {
                lemma_skip_hex(s, p, x[0]);
            }
        } else {
            lemma_calm_bytes(s, p, w);
            lemma_pass(s, p, standing::size(w));
        }
    }
}

/// The digits of an escape are passed over.
proof fn lemma_skip_hex(s: Seq<u8>, p: int, c: char)
    requires
        is_special(c),
        debug::escaped_char(c).len() == 4,
        standing::stands(s, p, debug::escaped_char(c)),
    ensures
        standing::size(debug::escaped_char(c)) == 4,
        lexer::double_close(s, p) == lexer::double_close(s, p + 4),
{
    let w = debug::escaped_char(c);
    let none = Seq::<char>::empty();
    let a = c as u32 / 16;
    let b = c as u32 % 16;
    lemma_hex(a as int);
    lemma_hex(b as int);
    let h = debug::hex_digit(a as int);
    let l = debug::hex_digit(b as int);
    assert(standing::size(none) == 0);
    assert(w =~= seq!['\\'] + (seq!['x'] + (seq![h] + (seq![l] + none))));
    standing::lemma_first(s, p, '\\', seq!['x'] + (seq![h] + (seq![l] + none)));
    standing::lemma_first(s, p + 1, 'x', seq![h] + (seq![l] + none));
    standing::lemma_first(s, p + 2, h, seq![l] + none);
    standing::lemma_first(s, p + 3, l, none);
    assert(s[p + 2] != 0x5c && s[p + 2] != 0x22);
    assert(s[p + 3] != 0x5c && s[p + 3] != 0x22);
    assert(lexer::double_close(s, p) == lexer::double_close(s, p + 2));
    assert(lexer::double_close(s, p + 2) == lexer::double_close(s, p + 3));
    assert(lexer::double_close(s, p + 3) == lexer::double_close(s, p + 4));
}

/// Bytes that mean nothing are passed over.
proof fn lemma_pass(s: Seq<u8>, p: int, n: int)
    requires
        0 <= p,
        0 <= n,
        p + n <= s.len(),
        forall|j: int| p <= j < p + n ==> #[trigger] s[j] != 0x22 && s[j] != 0x5c,
    ensures
        lexer::double_close(s, p) == lexer::double_close(s, p + n),
    decreases n,
{
    if n > 0 {
        assert(s[p] != 0x22);
        lemma_pass(s, p + 1, n - 1);
    }
}

} // verus!

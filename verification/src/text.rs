//! Strings as sequences of characters and as UTF-8 bytes.

use vstd::prelude::*;
use vstd::string::*;
use vstd::utf8::*;

verus! {

broadcast use vstd::utf8::encode_utf8_valid_utf8;

/// The characters that the bytes `a..b` of `s` encode.
pub open spec fn chars_between(s: Seq<u8>, a: int, b: int) -> Seq<char> {
    decode_utf8(s.subrange(a, b))
}

/// Two character sequences with the same encoding are the same.
pub proof fn lemma_encode_injective(a: Seq<char>, b: Seq<char>)
    requires
        encode_utf8(a) == encode_utf8(b),
    ensures
        a == b,
{
    encode_utf8_decode_utf8(a);
    encode_utf8_decode_utf8(b);
}

/// Encoding keeps concatenation.
pub proof fn lemma_encode_add(a: Seq<char>, b: Seq<char>)
    ensures
        encode_utf8(a + b) == encode_utf8(a) + encode_utf8(b),
    decreases a.len(),
{
    if a.len() == 0 {
        assert(a + b =~= b);
        assert(encode_utf8(a) + encode_utf8(b) =~= encode_utf8(b));
    } else {
        lemma_encode_add(a.drop_first(), b);
        assert((a + b).drop_first() =~= a.drop_first() + b);
        assert(encode_utf8(a + b) =~= encode_utf8(a) + encode_utf8(b));
    }
}

/// The place behind an ASCII byte is a character boundary.
pub proof fn lemma_boundary_after_ascii(s: Seq<u8>, i: int)
    requires
        valid_utf8(s),
        0 <= i < s.len(),
        s[i] < 0x80,
    ensures
        is_char_boundary(s, i),
        is_char_boundary(s, i + 1),
    decreases s.len(),
{
    let n = length_of_first_scalar(s);
    if i == 0 {
        reveal_with_fuel(is_char_boundary, 2);
    } else if i < n {
        assert(is_continuation_byte(s[i]));
    } else {
        lemma_boundary_after_ascii(pop_first_scalar(s), i - n);
    }
}

/// Start, end, and the places before and behind an ASCII byte are character
/// boundaries.
pub proof fn lemma_boundary(s: Seq<u8>, i: int)
    requires
        valid_utf8(s),
        0 <= i <= s.len(),
        i == 0 || i == s.len() || s[i] < 0x80 || s[i - 1] < 0x80,
    ensures
        is_char_boundary(s, i),
{
    if i == 0 || i == s.len() {
        is_char_boundary_start_end_of_seq(s);
    } else if s[i] < 0x80 {
        lemma_boundary_after_ascii(s, i);
    } else {
        lemma_boundary_after_ascii(s, i - 1);
    }
}

/// A boundary of the whole is one of any prefix that reaches it.
pub proof fn lemma_boundary_in_prefix(s: Seq<u8>, a: int, b: int)
    requires
        valid_utf8(s),
        0 <= a <= b <= s.len(),
        is_char_boundary(s, a),
        is_char_boundary(s, b),
    ensures
        valid_utf8(s.subrange(0, b)),
        is_char_boundary(s.subrange(0, b), a),
{
    let p = s.subrange(0, b);
    valid_utf8_split(s, b);
    if a == b {
        is_char_boundary_start_end_of_seq(p);
    } else {
        is_char_boundary_iff_not_is_continuation_byte(s, a);
        is_char_boundary_iff_not_is_continuation_byte(p, a);
    }
}

/// The bytes between two boundaries encode the characters between them.
pub proof fn lemma_chars_between(s: Seq<u8>, a: int, b: int)
    requires
        valid_utf8(s),
        0 <= a <= b <= s.len(),
        is_char_boundary(s, a),
        is_char_boundary(s, b),
    ensures
        valid_utf8(s.subrange(a, b)),
        encode_utf8(chars_between(s, a, b)) == s.subrange(a, b),
{
    lemma_boundary_in_prefix(s, a, b);
    let p = s.subrange(0, b);
    valid_utf8_split(p, a);
    assert(p.subrange(a, p.len() as int) =~= s.subrange(a, b));
    decode_utf8_encode_utf8(s.subrange(a, b));
}

/// Adjacent stretches of characters join to one.
pub proof fn lemma_chars_join(s: Seq<u8>, a: int, b: int, c: int)
    requires
        valid_utf8(s),
        0 <= a <= b <= c <= s.len(),
        is_char_boundary(s, a),
        is_char_boundary(s, b),
        is_char_boundary(s, c),
    ensures
        chars_between(s, a, b) + chars_between(s, b, c) == chars_between(s, a, c),
{
    lemma_chars_between(s, a, b);
    lemma_chars_between(s, b, c);
    lemma_chars_between(s, a, c);
    let t = s.subrange(a, c);
    assert(t.subrange(0, b - a) =~= s.subrange(a, b));
    assert(t.subrange(b - a, t.len() as int) =~= s.subrange(b, c));
    if b == c {
        is_char_boundary_start_end_of_seq(t);
    } else {
        is_char_boundary_iff_not_is_continuation_byte(s, b);
        is_char_boundary_iff_not_is_continuation_byte(t, b - a);
    }
    decode_utf8_split(t, b - a);
}

/// The part of `src` between two byte offsets.
pub fn slice<'a>(src: &'a str, from: usize, to: usize) -> (r: &'a str)
    requires
        from <= to <= src.spec_bytes().len(),
        is_char_boundary(src.spec_bytes(), from as int),
        is_char_boundary(src.spec_bytes(), to as int),
    ensures
        r.spec_bytes() == src.spec_bytes().subrange(from as int, to as int),
        r@ == chars_between(src.spec_bytes(), from as int, to as int),
{
    let ghost s = src.spec_bytes();
    proof {
        lemma_boundary_in_prefix(s, from as int, to as int);
        lemma_chars_between(s, from as int, to as int);
    }
    let (head, _) = src.split_at(to);
    let (_, r) = head.split_at(from);
    assert(r.spec_bytes() =~= s.subrange(from as int, to as int));
    proof {
        encode_utf8_decode_utf8(r@);
    }
    r
}

/// The characters of `s`.
pub fn chars_of(s: &str) -> (r: Vec<char>)
    ensures
        r@ == s@,
{
    let mut out: Vec<char> = Vec::new();
    for c in it: s.chars()
        invariant
            out@ == s@.take(it.index() as int),
            it.seq() == s@,
    {
        out.push(c);
        assert(s@.take(it.index() as int + 1) =~= s@.take(it.index() as int).push(c));
    }
    assert(s@.take(s@.len() as int) =~= s@);
    out
}

/// `String::push`: the string grows by the one character.
pub assume_specification[ std::string::String::push ](s: &mut std::string::String, c: char)
    ensures
        final(s)@ == old(s)@.push(c),
;

/// `String::push_str`: the string grows by the other's characters.
pub assume_specification[ std::string::String::push_str ](s: &mut std::string::String, t: &str)
    ensures
        final(s)@ == old(s)@ + t@,
;

/// `char::from_u32`: the character with the code `i`, if there is one.
pub assume_specification[ char::from_u32 ](i: u32) -> (r: Option<char>)
    ensures
        r == if is_scalar(i) {
            Some(i as char)
        } else {
            None
        },
;

/// `n` line feeds.
pub open spec fn newlines(n: int) -> Seq<char> {
    Seq::new(n as nat, |i: int| '\n')
}

/// Appends `n` line feeds.
pub fn push_newlines(out: &mut Vec<char>, n: usize)
    ensures
        final(out)@ == old(out)@ + newlines(n as int),
{
    let mut i: usize = 0;
    while i < n
        invariant
            i <= n,
            out@ == old(out)@ + newlines(i as int),
        decreases n - i,
    {
        out.push('\n');
        i = i + 1;
        assert(out@ =~= old(out)@ + newlines(i as int));
    }
}

/// Appends the characters `v`.
pub fn push_chars(out: &mut Vec<char>, v: &Vec<char>)
    ensures
        final(out)@ == old(out)@ + v@,
{
    let mut i: usize = 0;
    while i < v.len()
        invariant
            i <= v.len(),
            out@ == old(out)@ + v@.take(i as int),
        decreases v.len() - i,
    {
        out.push(v[i]);
        i = i + 1;
        assert(out@ =~= old(out)@ + v@.take(i as int));
    }
    assert(v@.take(v.len() as int) =~= v@);
}

/// The characters `from..to` of `v`.
pub fn chars_slice(v: &Vec<char>, from: usize, to: usize) -> (r: Vec<char>)
    requires
        from <= to <= v@.len(),
    ensures
        r@ == v@.subrange(from as int, to as int),
{
    let mut out: Vec<char> = Vec::new();
    let mut i: usize = from;
    while i < to
        invariant
            from <= i <= to <= v@.len(),
            out@ == v@.subrange(from as int, i as int),
        decreases to - i,
    {
        out.push(v[i]);
        i = i + 1;
        assert(out@ =~= v@.subrange(from as int, i as int));
    }
    out
}

/// The first place at or behind `i` that holds `c`, or the length.
pub open spec fn find_from(s: Seq<char>, c: char, i: int) -> int
    decreases s.len() - i,
{
    if 0 <= i < s.len() && s[i] != c {
        find_from(s, c, i + 1)
    } else {
        i
    }
}

/// What `s` holds between the occurrences of `c`, from `i` on.
pub open spec fn split_from(s: Seq<char>, c: char, i: int) -> Seq<Seq<char>>
    decreases s.len() - i,
{
    let e = find_from(s, c, i);
    proof {
        lemma_find_from(s, c, i);
    }
    if i < 0 || e >= s.len() {
        seq![s.skip(i)]
    } else {
        seq![s.subrange(i, e)] + split_from(s, c, e + 1)
    }
}

/// What `s` holds between the occurrences of `c`.
pub open spec fn split_on(s: Seq<char>, c: char) -> Seq<Seq<char>> {
    split_from(s, c, 0)
}

pub proof fn lemma_find_from(s: Seq<char>, c: char, i: int)
    ensures
        i <= find_from(s, c, i),
        0 <= i <= s.len() ==> find_from(s, c, i) <= s.len(),
        0 <= i && find_from(s, c, i) < s.len() ==> s[find_from(s, c, i)] == c,
        forall|j: int| 0 <= i <= j < find_from(s, c, i) && j < s.len() ==> s[j] != c,
    decreases s.len() - i,
{
    if 0 <= i < s.len() && s[i] != c {
        lemma_find_from(s, c, i + 1);
    }
}

/// The sequences that the vectors of `v` hold.
pub open spec fn views(v: Seq<Vec<char>>) -> Seq<Seq<char>> {
    Seq::new(v.len(), |i: int| v[i]@)
}

/// The first place at or behind `from` that holds `c`, or the length.
pub fn find_char(s: &Vec<char>, c: char, from: usize) -> (r: usize)
    requires
        from <= s@.len(),
    ensures
        r == find_from(s@, c, from as int),
        from <= r <= s@.len(),
{
    let mut i: usize = from;
    while i < s.len() && s[i] != c
        invariant
            from <= i <= s@.len(),
            find_from(s@, c, from as int) == find_from(s@, c, i as int),
        decreases s@.len() - i,
    {
        i = i + 1;
    }
    i
}

/// What `s` holds between the occurrences of `c`.
pub fn split_chars(s: &Vec<char>, c: char) -> (r: Vec<Vec<char>>)
    ensures
        views(r@) == split_on(s@, c),
{
    let mut out: Vec<Vec<char>> = Vec::new();
    let mut i: usize = 0;
    assert(views(out@) + split_from(s@, c, 0) =~= split_on(s@, c));
    loop
        invariant_except_break
            i <= s@.len(),
            views(out@) + split_from(s@, c, i as int) == split_on(s@, c),
        ensures
            views(out@) == split_on(s@, c),
        decreases s@.len() - i,
    {
        let e = find_char(s, c, i);
        let ghost before = out@;
        out.push(chars_slice(s, i, e));
        assert(views(out@) =~= views(before).push(s@.subrange(i as int, e as int)));
        if e >= s.len() {
            assert(s@.skip(i as int) =~= s@.subrange(i as int, e as int));
            assert(views(out@) =~= views(before) + split_from(s@, c, i as int));
            break;
        }
        assert(views(out@) + split_from(s@, c, e + 1) =~= views(before) + split_from(
            s@,
            c,
            i as int,
        ));
        i = e + 1;
    }
    out
}

/// The string of the characters `v`.
pub fn string_of(v: &Vec<char>) -> (r: String)
    ensures
        r@ == v@,
{
    let mut out = String::new();
    let mut i: usize = 0;
    while i < v.len()
        invariant
            i <= v.len(),
            out@ == v@.take(i as int),
        decreases v.len() - i,
    {
        out.push(v[i]);
        assert(v@.take(i as int + 1) =~= v@.take(i as int).push(v[i as int]));
        i = i + 1;
    }
    assert(v@.take(v.len() as int) =~= v@);
    out
}

/// Whether two strings hold the same characters.
pub fn same_text(a: &str, b: &str) -> (r: bool)
    ensures
        r == (a@ == b@),
{
    let x = a.as_bytes();
    let y = b.as_bytes();
    if x.len() != y.len() {
        return false;
    }
    let mut i: usize = 0;
    while i < x.len()
        invariant
            i <= x.len(),
            x.len() == y.len(),
            x@ == a.spec_bytes(),
            y@ == b.spec_bytes(),
            forall|j: int| 0 <= j < i ==> x[j] == y[j],
        decreases x.len() - i,
    {
        if x[i] != y[i] {
            return false;
        }
        i = i + 1;
    }
    assert(a.spec_bytes() =~= b.spec_bytes());
    proof {
        lemma_encode_injective(a@, b@);
    }
    true
}

/// The decimal digits of `n`.
pub open spec fn decimal(n: nat) -> Seq<char>
    decreases n,
{
    if n < 10 {
        seq![(n + '0' as nat) as char]
    } else {
        decimal(n / 10).push((n % 10 + '0' as nat) as char)
    }
}

/// An integer in decimal digits, with a sign where it is negative.
pub open spec fn int_text(n: int) -> Seq<char> {
    if n < 0 {
        seq!['-'] + decimal((-n) as nat)
    } else {
        decimal(n as nat)
    }
}

/// The digit for a number below ten.
fn digit_char(d: u64) -> (r: char)
    requires
        d < 10,
    ensures
        r == (d as nat + '0' as nat) as char,
{
    (d as u8 + 0x30) as char
}

/// The decimal digits of `n`.
pub fn decimal_chars(n: u64) -> (r: Vec<char>)
    ensures
        r@ == decimal(n as nat),
    decreases n,
{
    if n < 10 {
        let mut r: Vec<char> = Vec::new();
        r.push(digit_char(n));
        assert(r@ =~= decimal(n as nat));
        r
    } else {
        let mut r = decimal_chars(n / 10);
        r.push(digit_char(n % 10));
        r
    }
}

/// An integer in decimal digits, with a sign where it is negative.
pub fn int_chars(n: i64) -> (r: Vec<char>)
    ensures
        r@ == int_text(n as int),
{
    if n < 0 {
        let m: u64 = (-(n + 1)) as u64 + 1;
        let digits = decimal_chars(m);
        let mut r: Vec<char> = Vec::new();
        r.push('-');
        push_chars(&mut r, &digits);
        assert(r@ =~= int_text(n as int));
        r
    } else {
        decimal_chars(n as u64)
    }
}

/// `n` spaces.
pub open spec fn spaces(n: int) -> Seq<char> {
    Seq::new(n as nat, |i: int| ' ')
}

/// Appends `n` spaces.
pub fn push_spaces(out: &mut Vec<char>, n: usize)
    ensures
        final(out)@ == old(out)@ + spaces(n as int),
{
    let mut i: usize = 0;
    while i < n
        invariant
            i <= n,
            out@ == old(out)@ + spaces(i as int),
        decreases n - i,
    {
        out.push(' ');
        i = i + 1;
        assert(out@ =~= old(out)@ + spaces(i as int));
    }
}

/// Whether `s` holds `c`.
pub fn has_char(s: &Vec<char>, c: char) -> (r: bool)
    ensures
        r == s@.contains(c),
{
    let mut i: usize = 0;
    while i < s.len()
        invariant
            i <= s@.len(),
            forall|j: int| 0 <= j < i ==> s@[j] != c,
        decreases s@.len() - i,
    {
        if s[i] == c {
            return true;
        }
        i = i + 1;
    }
    false
}

/// Whether `a` stands right before `b` somewhere in `s`.
pub open spec fn has_pair(s: Seq<char>, a: char, b: char) -> bool {
    exists|i: int| 0 <= i < s.len() - 1 && #[trigger] s[i] == a && s[i + 1] == b
}

/// Whether `a` stands right before `b` somewhere in `s`.
pub fn finds_pair(s: &Vec<char>, a: char, b: char) -> (r: bool)
    ensures
        r == has_pair(s@, a, b),
{
    let n = s.len();
    if n == 0 {
        return false;
    }
    let mut i: usize = 0;
    while i < n - 1
        invariant
            n == s@.len(),
            n > 0,
            i <= n - 1,
            forall|j: int| 0 <= j < i ==> !(#[trigger] s@[j] == a && s@[j + 1] == b),
        decreases n - i,
    {
        if s[i] == a && s[i + 1] == b {
            return true;
        }
        i = i + 1;
    }
    false
}

/// A string as `Debug` writes it.
pub uninterp spec fn debug_of(s: Seq<char>) -> Seq<char>;

/// `<str as Debug>::fmt`, by `format!`: the string in quotes, with escapes; which
/// characters are escaped rests on the Unicode tables of the standard library.
#[verifier::external_body]
pub(crate) fn debug_text(s: &str) -> (r: String)
    ensures
        r@ == debug_of(s@),
{
    format!("{:?}", s)
}

} // verus!

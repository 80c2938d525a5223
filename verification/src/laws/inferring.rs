//! What plain scalars stand for.

use vstd::prelude::*;

use crate::ast::value;
use crate::ast::value::{FloatModel, ValueModel};
use crate::laws::requoting;
use crate::laws::writing;
use crate::text;

verus! {

// ---- Words ----

/// A plain scalar stands for null where it is empty, `~` or `null`, in small
/// letters, with a capital first letter or in capitals, and for a truth value where
/// it is `true` or `false` written so; else for neither.
pub proof fn lemma_words_of_the_core(s: Seq<char>)
    ensures
        (value::inferred(s) == ValueModel::Null) == (s.len() == 0 || s == seq!['~']
            || requoting::cased(s, seq!['n', 'u', 'l', 'l'])),
        (value::inferred(s) == ValueModel::Bool(true)) == requoting::cased(
            s,
            seq!['t', 'r', 'u', 'e'],
        ),
        (value::inferred(s) == ValueModel::Bool(false)) == requoting::cased(
            s,
            seq!['f', 'a', 'l', 's', 'e'],
        ),
{
    reveal_strlit("~");
    reveal_strlit("null");
    reveal_strlit("Null");
    reveal_strlit("NULL");
    reveal_strlit("true");
    reveal_strlit("True");
    reveal_strlit("TRUE");
    reveal_strlit("false");
    reveal_strlit("False");
    reveal_strlit("FALSE");
    assert("~"@ =~= seq!['~']);
    assert("null"@ =~= seq!['n', 'u', 'l', 'l']);
    assert("true"@ =~= seq!['t', 'r', 'u', 'e']);
    assert("false"@ =~= seq!['f', 'a', 'l', 's', 'e']);
    requoting::lemma_cased(s, "null"@, "Null"@, "NULL"@);
    requoting::lemma_cased(s, "true"@, "True"@, "TRUE"@);
    requoting::lemma_cased(s, "false"@, "False"@, "FALSE"@);
    assert("null"@[0] == 'n' && "Null"@[0] == 'N' && "NULL"@[0] == 'N');
    assert("true"@[0] == 't' && "True"@[0] == 'T' && "TRUE"@[0] == 'T');
    assert("false"@[0] == 'f' && "False"@[0] == 'F' && "FALSE"@[0] == 'F');
    assert("~"@[0] == '~');
}

/// A text that begins with a digit, a sign or a point is no word.
proof fn lemma_no_word(s: Seq<char>)
    requires
        s.len() > 0,
        s[0] == '+' || s[0] == '-' || s[0] == '.' || value::is_decimal(s[0]),
    ensures
        !value::null_word(s),
        value::bool_word(s) is None,
{
    reveal_strlit("~");
    reveal_strlit("null");
    reveal_strlit("Null");
    reveal_strlit("NULL");
    reveal_strlit("true");
    reveal_strlit("True");
    reveal_strlit("TRUE");
    reveal_strlit("false");
    reveal_strlit("False");
    reveal_strlit("FALSE");
    assert("null"@[0] == 'n' && "Null"@[0] == 'N' && "NULL"@[0] == 'N');
    assert("true"@[0] == 't' && "True"@[0] == 'T' && "TRUE"@[0] == 'T');
    assert("false"@[0] == 'f' && "False"@[0] == 'F' && "FALSE"@[0] == 'F');
    assert("~"@[0] == '~');
}

/// A text that begins with a sign or a digit, and has a digit behind the sign, is no
/// word for a number.
proof fn lemma_no_float_word(s: Seq<char>)
    requires
        s.len() > 0,
        value::is_decimal(s[0]) || (s.len() > 1 && (s[0] == '+' || s[0] == '-')
            && value::is_decimal(s[1])),
    ensures
        value::float_value(s) == if value::decimal_float(s) {
            Some(FloatModel::Decimal(s))
        } else {
            None
        },
{
    reveal_strlit(".nan");
    reveal_strlit(".NaN");
    reveal_strlit(".NAN");
    reveal_strlit(".inf");
    reveal_strlit(".Inf");
    reveal_strlit(".INF");
    reveal_strlit("+.inf");
    reveal_strlit("+.Inf");
    reveal_strlit("+.INF");
    reveal_strlit("-.inf");
    reveal_strlit("-.Inf");
    reveal_strlit("-.INF");
    assert(".nan"@[0] == '.' && ".NaN"@[0] == '.' && ".NAN"@[0] == '.');
    assert(".inf"@[0] == '.' && ".Inf"@[0] == '.' && ".INF"@[0] == '.');
    assert("+.inf"@[0] == '+' && "+.Inf"@[0] == '+' && "+.INF"@[0] == '+');
    assert("-.inf"@[0] == '-' && "-.Inf"@[0] == '-' && "-.INF"@[0] == '-');
    assert("+.inf"@[1] == '.' && "+.Inf"@[1] == '.' && "+.INF"@[1] == '.');
    assert("-.inf"@[1] == '.' && "-.Inf"@[1] == '.' && "-.INF"@[1] == '.');
}

// ---- Integers ----

/// A run of digits ends where none stands.
proof fn lemma_digits_to(s: Seq<char>, i: int, j: int)
    requires
        0 <= i <= j <= s.len(),
        forall|k: int| i <= k < j ==> value::is_decimal(#[trigger] s[k]),
        j < s.len() ==> !value::is_decimal(s[j]),
    ensures
        value::digits_end(s, i) == j,
    decreases j - i,
{
    if i < j {
        assert(value::is_decimal(s[i]));
        lemma_digits_to(s, i + 1, j);
    }
}

/// A sign, or nothing.
pub open spec fn is_sign(s: Seq<char>) -> bool {
    s == Seq::<char>::empty() || s == seq!['+'] || s == seq!['-']
}

/// Whether a text is decimal digits, or nothing.
pub open spec fn is_digits(s: Seq<char>) -> bool {
    forall|i: int| 0 <= i < s.len() ==> value::is_decimal(#[trigger] s[i])
}

/// Digits behind a sign are no floating-point number.
proof fn lemma_digits_no_float(sign: Seq<char>, d: Seq<char>)
    requires
        is_sign(sign),
        is_digits(d),
        d.len() > 0,
    ensures
        value::float_value(sign + d) is None,
        !value::null_word(sign + d),
        value::bool_word(sign + d) is None,
{
    let s = sign + d;
    let k = sign.len() as int;
    assert forall|i: int| k <= i < s.len() implies value::is_decimal(#[trigger] s[i]) by {
        assert(s[i] == d[i - k]);
    }
    assert(s[k] == d[0]);
    lemma_digits_to(s, k, s.len() as int);
    lemma_no_word(s);
    lemma_no_float_word(s);
    assert(value::after_sign(s, 0) == k);
}

/// A plain scalar of a sign, or none, and the decimal digits of a number stands for
/// the number, negated behind a minus, where that fits 64 bits; else for a string.
pub proof fn lemma_decimal_integers(sign: Seq<char>, n: nat)
    requires
        is_sign(sign),
    ensures
        ({
            let v: int = if sign == seq!['-'] {
                -(n as int)
            } else {
                n as int
            };
            value::inferred(sign + text::decimal(n)) == if i64::MIN <= v <= i64::MAX {
                ValueModel::Int(v)
            } else {
                ValueModel::Text(sign + text::decimal(n))
            }
        }),
{
    let d = text::decimal(n);
    let s = sign + d;
    writing::lemma_decimal(n);
    assert forall|i: int| 0 <= i < d.len() implies value::is_decimal(#[trigger] d[i]) by {
        assert(value::is_digit_of(d[i], 10));
    }
    lemma_digits_no_float(sign, d);
    assert(sign.len() > 0 ==> s.skip(1) =~= d);
    assert(sign.len() == 0 ==> s =~= d);
    assert(seq!['-'][0] == '-' && seq!['+'][0] == '+');
    assert(s[sign.len() as int] == d[0]);
    if s.len() >= 2 {
        assert(s[1] == d[1 - sign.len()]);
    }
    if d.len() > 1 {
        assert(n >= 10);
    }
}

/// Decimal digits with a leading zero, behind a sign or not, are a string.
pub proof fn lemma_leading_zeros(sign: Seq<char>, d: Seq<char>)
    requires
        is_sign(sign),
        is_digits(d),
        d.len() > 1,
        d[0] == '0',
    ensures
        value::inferred(sign + d) == ValueModel::Text(sign + d),
{
    let s = sign + d;
    lemma_digits_no_float(sign, d);
    assert(sign.len() > 0 ==> s.skip(1) =~= d);
    assert(sign.len() == 0 ==> s =~= d);
    assert(seq!['-'][0] == '-' && seq!['+'][0] == '+');
    assert(s[1] == d[1 - sign.len()]);
    assert(value::is_decimal(d[1 - sign.len()]));
    assert(s[0] == '0' ==> value::is_decimal(s[1]));
}

/// The digit for `n`, in capitals or not.
pub open spec fn digit_for(n: int, capitals: bool) -> char {
    if n < 10 {
        (n + '0' as int) as char
    } else if capitals {
        (n - 10 + 'A' as int) as char
    } else {
        (n - 10 + 'a' as int) as char
    }
}

/// A part of a number is smaller.
pub proof fn lemma_smaller(n: nat, radix: nat)
    requires
        n >= radix >= 2,
    ensures
        n / radix < n,
{
    assert(n / radix < n) by (nonlinear_arith)
        requires
            n >= radix >= 2,
    ;
}

/// The digits of `n` to the base `radix`.
pub open spec fn radix_text(n: nat, radix: nat, capitals: bool) -> Seq<char>
    decreases n,
{
    if n < radix || radix < 2 {
        seq![digit_for(n as int, capitals)]
    } else {
        proof {
            lemma_smaller(n, radix);
        }
        radix_text(n / radix, radix, capitals).push(digit_for((n % radix) as int, capitals))
    }
}

/// Digits to a base, and the number that they stand for.
proof fn lemma_radix(n: nat, radix: nat, capitals: bool)
    requires
        radix == 8 || radix == 16,
    ensures
        value::all_digits(radix_text(n, radix, capitals), radix as int),
        value::number_of(radix_text(n, radix, capitals), radix as int) == n,
    decreases n,
{
    let d = radix_text(n, radix, capitals);
    if n < radix {
        assert(d.drop_last() =~= seq![]);
        assert(value::number_of(d.drop_last(), radix as int) == 0);
        assert(value::digit_value(d.last()) == Some(n as int));
    } else {
        let m = n / radix;
        lemma_smaller(n, radix);
        lemma_radix(m, radix, capitals);
        let e = radix_text(m, radix, capitals);
        assert(d.drop_last() =~= e);
        assert(0 <= n % radix < radix);
        assert(value::digit_value(d.last()) == Some((n % radix) as int));
        assert(radix * m + n % radix == n) by (nonlinear_arith)
            requires
                m == n / radix,
                radix > 0,
        ;
        assert forall|i: int| 0 <= i < d.len() implies value::is_digit_of(
            #[trigger] d[i],
            radix as int,
        ) by {
            if i < d.len() - 1 {
                assert(d[i] == e[i]);
            }
        }
    }
}

/// A plain scalar of `0x` and hexadecimal digits, or `0o` and octal digits, stands
/// for the number, where that fits 64 bits; else for a string.
pub proof fn lemma_radix_integers(n: nat, hexadecimal: bool, capitals: bool)
    ensures
        ({
            let s = if hexadecimal {
                seq!['0', 'x'] + radix_text(n, 16, capitals)
            } else {
                seq!['0', 'o'] + radix_text(n, 8, capitals)
            };
            value::inferred(s) == if n <= i64::MAX {
                ValueModel::Int(n as int)
            } else {
                ValueModel::Text(s)
            }
        }),
{
    let radix: nat = if hexadecimal {
        16
    } else {
        8
    };
    let d = radix_text(n, radix, capitals);
    let mark = if hexadecimal {
        'x'
    } else {
        'o'
    };
    let s = seq!['0', mark] + d;
    lemma_radix(n, radix, capitals);
    assert(s.skip(2) =~= d);
    assert(s[0] == '0' && s[1] == mark);
    lemma_no_word(s);
    lemma_no_float_word(s);
    lemma_digits_to(s, 0, 1);
    assert(!value::decimal_float(s));
}

// ---- Floating-point numbers ----

/// An exponent, or nothing.
pub open spec fn is_exponent(x: Seq<char>) -> bool {
    x == Seq::<char>::empty() || exists|e: char, sign: Seq<char>, d: Seq<char>|
        x == #[trigger] exponent(e, sign, d) && (e == 'e' || e == 'E') && is_sign(sign)
            && is_digits(d) && d.len() > 0
}

/// The exponent of the letter `e`, a sign and digits.
pub open spec fn exponent(e: char, sign: Seq<char>, d: Seq<char>) -> Seq<char> {
    seq![e] + sign + d
}

/// A plain scalar of a sign, or none, digits with a point among, before or behind
/// them, and an exponent, or none, stands for that number; so does one of digits
/// and an exponent.
pub proof fn lemma_decimal_floats(
    sign: Seq<char>,
    whole: Seq<char>,
    point: bool,
    part: Seq<char>,
    x: Seq<char>,
)
    requires
        is_sign(sign),
        is_digits(whole),
        is_digits(part),
        is_exponent(x),
        whole.len() + part.len() > 0,
        !point ==> part.len() == 0 && x.len() > 0,
    ensures
        ({
            let s = sign + whole + (if point {
                seq!['.'] + part
            } else {
                part
            }) + x;
            value::inferred(s) == ValueModel::Float(FloatModel::Decimal(s))
        }),
{
    let mid = if point {
        seq!['.'] + part
    } else {
        part
    };
    let s = sign + whole + mid + x;
    let a = sign.len() as int;
    let b = a + whole.len();
    let c = b + mid.len();
    assert(seq!['-'][0] == '-' && seq!['+'][0] == '+');
    assert forall|i: int| a <= i < b implies value::is_decimal(#[trigger] s[i]) by {
        assert(s[i] == whole[i - a]);
    }
    if x.len() > 0 {
        let (e, sg, d) = choose|e: char, sg: Seq<char>, d: Seq<char>|
            x == #[trigger] exponent(e, sg, d) && (e == 'e' || e == 'E') && is_sign(sg)
                && is_digits(d) && d.len() > 0;
        assert(x[0] == e);
        assert(s[c] == e);
        let f = c + 1 + sg.len();
        if sg.len() > 0 {
            assert(s[c + 1] == sg[0]);
        } else {
            assert(s[c + 1] == d[0]);
        }
        assert(value::after_sign(s, c + 1) == f);
        assert forall|i: int| f <= i < s.len() implies value::is_decimal(#[trigger] s[i]) by {
            assert(s[i] == d[i - f]);
        }
        assert(s.len() == f + d.len());
        lemma_digits_to(s, f, s.len() as int);
    }
    if point {
        assert(s[b] == '.');
        assert forall|i: int| b + 1 <= i < c implies value::is_decimal(#[trigger] s[i]) by {
            assert(s[i] == part[i - b - 1]);
        }
        lemma_digits_to(s, b + 1, c);
    }
    if a < b {
        assert(s[a] == whole[0]);
    }
    assert(value::after_sign(s, 0) == a) by {
        if a > 0 {
            assert(s[0] == sign[0]);
        }
    }
    lemma_digits_to(s, a, b);
    assert(value::decimal_float(s));
    lemma_no_word(s);
    lemma_no_int(s, sign, if point {
        b
    } else {
        c
    });
    lemma_float_words_no_digit(s);
}

/// Where something other than a digit stands behind the sign there is no integer.
proof fn lemma_no_int(s: Seq<char>, sign: Seq<char>, k: int)
    requires
        is_sign(sign),
        sign.len() <= k < s.len(),
        sign.len() > 0 ==> s[0] == sign[0],
        sign.len() == 0 ==> s[0] != '+' && s[0] != '-',
        s[k] == '.' || s[k] == 'e' || s[k] == 'E',
        s.len() >= 2 && s[0] == '0' ==> s[1] != 'x' && s[1] != 'o',
    ensures
        value::int_value(s) is None,
{
    assert(seq!['-'][0] == '-' && seq!['+'][0] == '+');
    let d = s.skip(sign.len() as int);
    assert(s.skip(0) =~= s);
    assert(d[k - sign.len()] == s[k]);
    assert(!value::is_digit_of(d[k - sign.len()], 10));
}

/// A decimal number is no word for one.
proof fn lemma_float_words_no_digit(s: Seq<char>)
    requires
        value::decimal_float(s),
    ensures
        value::float_value(s) == Some(FloatModel::Decimal(s)),
{
    reveal_strlit(".nan");
    reveal_strlit(".NaN");
    reveal_strlit(".NAN");
    reveal_strlit(".inf");
    reveal_strlit(".Inf");
    reveal_strlit(".INF");
    reveal_strlit("+.inf");
    reveal_strlit("+.Inf");
    reveal_strlit("+.INF");
    reveal_strlit("-.inf");
    reveal_strlit("-.Inf");
    reveal_strlit("-.INF");
    let a = value::after_sign(s, 0);
    if a < s.len() && s[a] == '.' && a + 1 < s.len() && !value::is_decimal(s[a + 1]) {
        lemma_digits_to(s, a, a);
        lemma_digits_to(s, a + 1, a + 1);
    }
}

} // verus!

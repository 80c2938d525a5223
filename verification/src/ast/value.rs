//! What a plain scalar stands for by the YAML 1.2 Core schema.

use vstd::prelude::*;

use crate::text::{chars_of, same_text, string_of};

verus! {

/// A floating-point number, by the text it was written as.
#[derive(Debug, Clone, PartialEq, Eq)]
pub enum FloatValue {
    NotANumber,
    Infinity,
    NegInfinity,
    /// An optional sign, digits with an optional point among them, and an
    /// optional exponent.
    Decimal(String),
}

/// The value of a scalar.
#[derive(Debug, Clone, PartialEq, Eq)]
pub enum Value {
    Null,
    Bool(bool),
    Int(i64),
    Float(FloatValue),
    String(String),
}

/// A floating-point number, as a mathematical value.
pub enum FloatModel {
    NotANumber,
    Infinity,
    NegInfinity,
    Decimal(Seq<char>),
}

/// The value of a scalar, as a mathematical value.
pub enum ValueModel {
    Null,
    Bool(bool),
    Int(int),
    Float(FloatModel),
    Text(Seq<char>),
}

impl View for FloatValue {
    type V = FloatModel;

    open spec fn view(&self) -> FloatModel {
        match self {
            FloatValue::NotANumber => FloatModel::NotANumber,
            FloatValue::Infinity => FloatModel::Infinity,
            FloatValue::NegInfinity => FloatModel::NegInfinity,
            FloatValue::Decimal(s) => FloatModel::Decimal(s@),
        }
    }
}

impl View for Value {
    type V = ValueModel;

    open spec fn view(&self) -> ValueModel {
        match self {
            Value::Null => ValueModel::Null,
            Value::Bool(b) => ValueModel::Bool(*b),
            Value::Int(n) => ValueModel::Int(*n as int),
            Value::Float(f) => ValueModel::Float(f@),
            Value::String(s) => ValueModel::Text(s@),
        }
    }
}

/// The words for null.
pub open spec fn null_word(s: Seq<char>) -> bool {
    s == "~"@ || s == "null"@ || s == "Null"@ || s == "NULL"@
}

/// The words for true and false.
pub open spec fn bool_word(s: Seq<char>) -> Option<bool> {
    if s == "true"@ || s == "True"@ || s == "TRUE"@ {
        Some(true)
    } else if s == "false"@ || s == "False"@ || s == "FALSE"@ {
        Some(false)
    } else {
        None
    }
}

/// The value of a digit.
pub open spec fn digit_value(c: char) -> Option<int> {
    if '0' <= c <= '9' {
        Some(c as int - '0' as int)
    } else if 'a' <= c <= 'f' {
        Some(c as int - 'a' as int + 10)
    } else if 'A' <= c <= 'F' {
        Some(c as int - 'A' as int + 10)
    } else {
        None
    }
}

/// Whether `c` is a digit to the base `radix`.
pub open spec fn is_digit_of(c: char, radix: int) -> bool {
    digit_value(c) is Some && digit_value(c)->0 < radix
}

/// Whether `s` is made of digits to the base `radix`, at least one.
pub open spec fn all_digits(s: Seq<char>, radix: int) -> bool {
    s.len() > 0 && forall|i: int| 0 <= i < s.len() ==> is_digit_of(#[trigger] s[i], radix)
}

/// The number that digits to the base `radix` stand for.
pub open spec fn number_of(s: Seq<char>, radix: int) -> int
    decreases s.len(),
{
    if s.len() == 0 {
        0
    } else {
        radix * number_of(s.drop_last(), radix) + digit_value(s.last())->0
    }
}

/// The number that `s` stands for, if it is made of digits to the base `radix`
/// and is no more than `max`.
pub open spec fn number(s: Seq<char>, radix: int, max: int) -> Option<int> {
    if all_digits(s, radix) && number_of(s, radix) <= max {
        Some(number_of(s, radix))
    } else {
        None
    }
}

/// The integer that `s` stands for: `0x` and hexadecimal digits, `0o` and octal
/// digits, or an optional sign and decimal digits without a leading zero. It is
/// one that fits an `i64`.
pub open spec fn int_value(s: Seq<char>) -> Option<int> {
    if s.len() >= 2 && s[0] == '0' && s[1] == 'x' {
        number(s.skip(2), 16, i64::MAX as int)
    } else if s.len() >= 2 && s[0] == '0' && s[1] == 'o' {
        number(s.skip(2), 8, i64::MAX as int)
    } else {
        let neg = s.len() > 0 && s[0] == '-';
        let digits = if neg || (s.len() > 0 && s[0] == '+') {
            s.skip(1)
        } else {
            s
        };
        if digits.len() > 1 && digits[0] == '0' {
            None
        } else {
            match number(
                digits,
                10,
                if neg {
                    -i64::MIN
                } else {
                    i64::MAX as int
                },
            ) {
                Some(n) => Some(
                    if neg {
                        -n
                    } else {
                        n
                    },
                ),
                None => None,
            }
        }
    }
}

/// A decimal digit.
pub open spec fn is_decimal(c: char) -> bool {
    '0' <= c <= '9'
}

/// Where the run of decimal digits at `i` ends.
pub open spec fn digits_end(s: Seq<char>, i: int) -> int
    decreases s.len() - i,
{
    if 0 <= i < s.len() && is_decimal(s[i]) {
        digits_end(s, i + 1)
    } else {
        i
    }
}

/// The place behind a sign at `i`, or `i` where there is none.
pub open spec fn after_sign(s: Seq<char>, i: int) -> int {
    if 0 <= i < s.len() && (s[i] == '+' || s[i] == '-') {
        i + 1
    } else {
        i
    }
}

/// Whether `c` stands at `i`.
pub open spec fn char_is(s: Seq<char>, i: int, c: char) -> bool {
    0 <= i < s.len() && s[i] == c
}

/// Whether `s` is a decimal floating-point number: an optional sign; digits, a
/// point among, before or behind them; an optional exponent. There is a point
/// or an exponent.
pub open spec fn decimal_float(s: Seq<char>) -> bool {
    let int_start = after_sign(s, 0);
    let int_end = digits_end(s, int_start);
    let has_point = char_is(s, int_end, '.');
    let mantissa_end = if has_point {
        digits_end(s, int_end + 1)
    } else {
        int_end
    };
    let has_digit = int_end > int_start || mantissa_end > int_end + 1;
    let has_exp = char_is(s, mantissa_end, 'e') || char_is(s, mantissa_end, 'E');
    let exp_start = after_sign(s, mantissa_end + 1);
    let exp_end = digits_end(s, exp_start);
    let end = if has_exp {
        exp_end
    } else {
        mantissa_end
    };
    &&& has_digit
    &&& has_exp ==> exp_end > exp_start
    &&& end == s.len()
    &&& has_point || has_exp
}

/// The floating-point number that `s` stands for.
pub open spec fn float_value(s: Seq<char>) -> Option<FloatModel> {
    if s == ".nan"@ || s == ".NaN"@ || s == ".NAN"@ {
        Some(FloatModel::NotANumber)
    } else if s == ".inf"@ || s == ".Inf"@ || s == ".INF"@ || s == "+.inf"@ || s == "+.Inf"@ || s
        == "+.INF"@ {
        Some(FloatModel::Infinity)
    } else if s == "-.inf"@ || s == "-.Inf"@ || s == "-.INF"@ {
        Some(FloatModel::NegInfinity)
    } else if decimal_float(s) {
        Some(FloatModel::Decimal(s))
    } else {
        None
    }
}

/// What a plain scalar with the decoded text `s` stands for.
pub open spec fn inferred(s: Seq<char>) -> ValueModel {
    if s.len() == 0 || null_word(s) {
        ValueModel::Null
    } else if bool_word(s) is Some {
        ValueModel::Bool(bool_word(s)->0)
    } else if int_value(s) is Some {
        ValueModel::Int(int_value(s)->0)
    } else if float_value(s) is Some {
        ValueModel::Float(float_value(s)->0)
    } else {
        ValueModel::Text(s)
    }
}

/// What a plain scalar with the decoded text `s` stands for.
pub fn infer_plain(s: &str) -> (r: Value)
    ensures
        r@ == inferred(s@),
{
    if s.is_empty() || is_null(s) {
        return Value::Null;
    }
    if let Some(b) = parse_bool(s) {
        return Value::Bool(b);
    }
    if let Some(n) = parse_int(s) {
        return Value::Int(n);
    }
    if let Some(f) = parse_float(s) {
        return Value::Float(f);
    }
    Value::String(string_of(&chars_of(s)))
}

/// Whether `s` is a word for null.
pub fn is_null(s: &str) -> (r: bool)
    ensures
        r == null_word(s@),
{
    same_text(s, "~") || same_text(s, "null") || same_text(s, "Null") || same_text(s, "NULL")
}

/// What `s` stands for as a word for true or false.
pub fn parse_bool(s: &str) -> (r: Option<bool>)
    ensures
        r == bool_word(s@),
{
    if same_text(s, "true") || same_text(s, "True") || same_text(s, "TRUE") {
        Some(true)
    } else if same_text(s, "false") || same_text(s, "False") || same_text(s, "FALSE") {
        Some(false)
    } else {
        None
    }
}

/// The value of a digit.
fn digit_of(c: char) -> (r: Option<i64>)
    ensures
        match r {
            Some(v) => digit_value(c) == Some(v as int) && 0 <= v < 16,
            None => digit_value(c) is None,
        },
{
    let n = c as u32;
    if '0' <= c && c <= '9' {
        Some((n - '0' as u32) as i64)
    } else if 'a' <= c && c <= 'f' {
        Some((n - 'a' as u32) as i64 + 10)
    } else if 'A' <= c && c <= 'F' {
        Some((n - 'A' as u32) as i64 + 10)
    } else {
        None
    }
}

/// More digits make no smaller number.
proof fn lemma_number_grows(s: Seq<char>, radix: int, k: int)
    requires
        all_digits(s, radix),
        radix >= 1,
        0 <= k <= s.len(),
    ensures
        0 <= number_of(s.take(k), radix) <= number_of(s, radix),
    decreases s.len(),
{
    if k == s.len() {
        assert(s.take(k) =~= s);
        if k > 0 {
            assert(is_digit_of(s.last(), radix));
            if k > 1 {
                let t = s.drop_last();
                assert forall|i: int| 0 <= i < t.len() implies is_digit_of(
                    #[trigger] t[i],
                    radix,
                ) by {
                    assert(t[i] == s[i]);
                }
                lemma_number_grows(t, radix, k - 1);
                assert(t.take(k - 1) =~= t);
            }
            assert(radix * number_of(s.drop_last(), radix) >= 0) by (nonlinear_arith)
                requires
                    radix >= 1,
                    number_of(s.drop_last(), radix) >= 0,
            ;
        }
    } else {
        let t = s.drop_last();
        assert(s.take(k) =~= t.take(k));
        assert(is_digit_of(s.last(), radix));
        if t.len() > 0 {
            assert forall|i: int| 0 <= i < t.len() implies is_digit_of(#[trigger] t[i], radix) by {
                assert(t[i] == s[i]);
            }
            lemma_number_grows(t, radix, k);
        } else {
            assert(t.take(k) =~= Seq::<char>::empty());
        }
        let n = number_of(t, radix);
        assert(radix * n >= n) by (nonlinear_arith)
            requires
                radix >= 1,
                n >= 0,
        ;
    }
}

/// The number that `s[from..]` stands for, if it is made of digits to the base
/// `radix` and is no more than `max`.
fn parse_number(s: &Vec<char>, from: usize, radix: i64, max: i128) -> (r: Option<i128>)
    requires
        from <= s@.len(),
        2 <= radix <= 16,
        0 <= max <= 0x8000_0000_0000_0000,
    ensures
        match r {
            Some(n) => number(s@.skip(from as int), radix as int, max as int) == Some(n as int)
                && 0 <= n <= max,
            None => number(s@.skip(from as int), radix as int, max as int) is None,
        },
{
    let ghost d = s@.skip(from as int);
    if from >= s.len() {
        return None;
    }
    let mut i: usize = from;
    while i < s.len()
        invariant
            from <= i <= s@.len(),
            d == s@.skip(from as int),
            2 <= radix <= 16,
            forall|j: int| 0 <= j < i - from ==> is_digit_of(#[trigger] d[j], radix as int),
        decreases s@.len() - i,
    {
        assert(d[i - from] == s@[i as int]);
        match digit_of(s[i]) {
            Some(x) => {
                if x >= radix {
                    assert(!is_digit_of(d[i - from], radix as int));
                    return None;
                }
            },
            None => {
                assert(!is_digit_of(d[i - from], radix as int));
                return None;
            },
        }
        i = i + 1;
    }
    assert(all_digits(d, radix as int));
    let mut n: i128 = 0;
    let mut k: usize = from;
    assert(d.take(0) =~= Seq::<char>::empty());
    while k < s.len()
        invariant
            from <= k <= s@.len(),
            d == s@.skip(from as int),
            2 <= radix <= 16,
            all_digits(d, radix as int),
            n == number_of(d.take(k - from), radix as int),
            0 <= n <= max <= 0x8000_0000_0000_0000,
        decreases s@.len() - k,
    {
        assert(d.take(k - from + 1).drop_last() =~= d.take(k - from));
        assert(d[k - from] == s@[k as int]);
        assert(is_digit_of(d[k - from], radix as int));
        let x: i64 = match digit_of(s[k]) {
            Some(x) => x,
            None => 0,
        };
        assert(0 <= radix * n <= 16 * 0x8000_0000_0000_0000) by (nonlinear_arith)
            requires
                2 <= radix <= 16,
                0 <= n <= 0x8000_0000_0000_0000,
        ;
        let wide: i128 = radix as i128 * n + x as i128;
        assert(wide == number_of(d.take(k - from + 1), radix as int)) by {
            assert(d.take(k - from + 1).last() == d[k - from]);
            assert(radix as int * number_of(d.take(k - from), radix as int) == radix * n)
                by (nonlinear_arith)
                requires
                    n == number_of(d.take(k - from), radix as int),
            ;
        }
        if wide > max {
            proof {
                lemma_number_grows(d, radix as int, k - from + 1);
            }
            return None;
        }
        proof {
            lemma_number_grows(d, radix as int, k - from + 1);
        }
        n = wide;
        k = k + 1;
    }
    assert(d.take(k - from) =~= d);
    Some(n)
}

/// The integer that `s` stands for.
pub fn parse_int(s: &str) -> (r: Option<i64>)
    ensures
        match r {
            Some(n) => int_value(s@) == Some(n as int),
            None => int_value(s@) is None,
        },
{
    let cs = chars_of(s);
    if cs.len() >= 2 && cs[0] == '0' && cs[1] == 'x' {
        return match parse_number(&cs, 2, 16, i64::MAX as i128) {
            Some(n) => Some(n as i64),
            None => None,
        };
    }
    if cs.len() >= 2 && cs[0] == '0' && cs[1] == 'o' {
        return match parse_number(&cs, 2, 8, i64::MAX as i128) {
            Some(n) => Some(n as i64),
            None => None,
        };
    }
    let neg = cs.len() > 0 && cs[0] == '-';
    let start: usize = if neg || (cs.len() > 0 && cs[0] == '+') {
        1
    } else {
        0
    };
    assert(s@.skip(0) =~= s@);
    if cs.len() - start > 1 && cs[start] == '0' {
        return None;
    }
    let max: i128 = if neg {
        0x8000_0000_0000_0000
    } else {
        i64::MAX as i128
    };
    match parse_number(&cs, start, 10, max) {
        Some(n) => Some(
            if neg {
                (-n) as i64
            } else {
                n as i64
            },
        ),
        None => None,
    }
}

/// Where the run of decimal digits at `from` ends.
pub(crate) fn skip_digits(s: &Vec<char>, from: usize) -> (r: usize)
    requires
        from <= s@.len(),
    ensures
        r == digits_end(s@, from as int),
        from <= r <= s@.len(),
{
    let mut i: usize = from;
    while i < s.len() && '0' <= s[i] && s[i] <= '9'
        invariant
            from <= i <= s@.len(),
            digits_end(s@, from as int) == digits_end(s@, i as int),
        decreases s@.len() - i,
    {
        i = i + 1;
    }
    i
}

/// The place behind a sign at `i`, or `i` where there is none.
pub(crate) fn skip_sign(s: &Vec<char>, i: usize) -> (r: usize)
    requires
        i <= s@.len(),
    ensures
        r == after_sign(s@, i as int),
        i <= r <= s@.len(),
{
    if i < s.len() && (s[i] == '+' || s[i] == '-') {
        i + 1
    } else {
        i
    }
}

/// Whether `s` is a decimal floating-point number.
fn is_decimal_float(s: &Vec<char>) -> (r: bool)
    ensures
        r == decimal_float(s@),
{
    let int_start = skip_sign(s, 0);
    let int_end = skip_digits(s, int_start);
    let has_point = int_end < s.len() && s[int_end] == '.';
    let mantissa_end = if has_point {
        skip_digits(s, int_end + 1)
    } else {
        int_end
    };
    if int_end == int_start && !(has_point && mantissa_end > int_end + 1) {
        return false;
    }
    let has_exp = mantissa_end < s.len() && (s[mantissa_end] == 'e' || s[mantissa_end] == 'E');
    let mut end: usize = mantissa_end;
    if has_exp {
        let exp_start = skip_sign(s, mantissa_end + 1);
        end = skip_digits(s, exp_start);
        if end == exp_start {
            return false;
        }
    }
    end == s.len() && (has_point || has_exp)
}

/// The floating-point number that `s` stands for.
pub fn parse_float(s: &str) -> (r: Option<FloatValue>)
    ensures
        match r {
            Some(f) => float_value(s@) == Some(f@),
            None => float_value(s@) is None,
        },
{
    if same_text(s, ".nan") || same_text(s, ".NaN") || same_text(s, ".NAN") {
        return Some(FloatValue::NotANumber);
    }
    if same_text(s, ".inf") || same_text(s, ".Inf") || same_text(s, ".INF") || same_text(s, "+.inf")
        || same_text(s, "+.Inf") || same_text(s, "+.INF") {
        return Some(FloatValue::Infinity);
    }
    if same_text(s, "-.inf") || same_text(s, "-.Inf") || same_text(s, "-.INF") {
        return Some(FloatValue::NegInfinity);
    }
    let cs = chars_of(s);
    if is_decimal_float(&cs) {
        Some(FloatValue::Decimal(string_of(&cs)))
    } else {
        None
    }
}

} // verus!

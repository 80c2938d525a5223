//! How scripts write scalars.

use vstd::prelude::*;
use vstd::string::*;

use crate::ast::value;
use crate::ast::value::{skip_digits, skip_sign};
use crate::builder::single_quote;
use crate::lexer;
use crate::text;
use crate::text::{chars_of, int_chars, same_text, string_of};

verus! {

/// A value that a script writes.
pub enum Written {
    Unit,
    Bool(bool),
    Int(i64),
    /// A floating-point number, by its text.
    Float(String),
    Text(String),
    /// A value that no scalar stands for.
    Other,
}

/// Whether `c` is the letter `w`, or the upper case of it.
pub open spec fn same_letter(c: char, w: char) -> bool {
    c == w || 'A' <= c <= 'Z' && c as u32 + 32 == w as u32
}

/// Whether `s` from `i` on is the word `w`, in letters of either case.
pub open spec fn word_from(s: Seq<char>, i: int, w: Seq<char>) -> bool {
    &&& s.len() == i + w.len()
    &&& forall|j: int| 0 <= j < w.len() ==> same_letter(#[trigger] s[i + j], w[j])
}

/// Whether `s` is the text of a number: an optional sign; then `inf`,
/// `infinity` or `nan`, or digits with at most one point and an optional
/// exponent.
pub open spec fn number_text(s: Seq<char>) -> bool {
    let start = value::after_sign(s, 0);
    let int_end = value::digits_end(s, start);
    let has_point = value::char_is(s, int_end, '.');
    let end = if has_point {
        value::digits_end(s, int_end + 1)
    } else {
        int_end
    };
    let has_digit = int_end > start || end > int_end + 1;
    let has_exp = value::char_is(s, end, 'e') || value::char_is(s, end, 'E');
    let exp_start = value::after_sign(s, end + 1);
    let exp_end = value::digits_end(s, exp_start);
    ||| word_from(s, start, "inf"@)
    ||| word_from(s, start, "infinity"@)
    ||| word_from(s, start, "nan"@)
    ||| has_digit && end == s.len()
    ||| has_digit && has_exp && exp_end > exp_start && exp_end == s.len()
}

/// Characters that a plain scalar may not hold.
pub open spec fn special_char(c: char) -> bool {
    c == '\n' || c == '\r' || c == '\t' || c == ':' || c == '#' || c == '\'' || c == '"'
}

/// Characters that a plain scalar may not begin with.
pub open spec fn indicator(c: char) -> bool {
    c == '-' || c == '?' || c == '*' || c == '&' || c == '!' || c == '|' || c == '>' || c == '@'
        || c == '%' || c == '`'
}

/// Words that stand for something other than a string.
pub open spec fn reserved_word(s: Seq<char>) -> bool {
    s == "true"@ || s == "false"@ || s == "null"@ || s == "~"@ || s == "True"@ || s == "False"@ || s
        == "Null"@ || s == "TRUE"@ || s == "FALSE"@ || s == "NULL"@
}

/// Whether a string that a script writes is put in quotes.
pub open spec fn needs_quotes(s: Seq<char>) -> bool {
    ||| s.len() == 0
    ||| exists|i: int| 0 <= i < s.len() && special_char(#[trigger] s[i])
    ||| indicator(s[0])
    ||| reserved_word(s)
    ||| number_text(s)
}

/// A string as a script writes it.
pub open spec fn quoted_if_needed(s: Seq<char>) -> Seq<char> {
    if needs_quotes(s) {
        lexer::single_quoted(s)
    } else {
        s
    }
}

/// A value as a script writes it.
pub open spec fn written_text(w: Written) -> Option<Seq<char>> {
    match w {
        Written::Unit => Some("null"@),
        Written::Bool(b) => Some(
            if b {
                "true"@
            } else {
                "false"@
            },
        ),
        Written::Int(i) => Some(text::int_text(i as int)),
        Written::Float(s) => Some(s@),
        Written::Text(s) => Some(quoted_if_needed(s@)),
        Written::Other => None,
    }
}

/// Whether `v` from `i` on is the word `w`, in letters of either case.
fn has_word(v: &Vec<char>, i: usize, w: &str) -> (r: bool)
    requires
        i <= v@.len(),
    ensures
        r == word_from(v@, i as int, w@),
{
    let word = chars_of(w);
    let n = v.len();
    if n - i != word.len() {
        return false;
    }
    let mut j: usize = 0;
    while j < word.len()
        invariant
            word@ == w@,
            n == v@.len(),
            n == i + word@.len(),
            j <= word@.len(),
            forall|k: int| 0 <= k < j ==> same_letter(#[trigger] v@[i + k], w@[k]),
        decreases word@.len() - j,
    {
        let c = v[i + j];
        if c != word[j] && !('A' <= c && c <= 'Z' && c as u32 + 32 == word[j] as u32) {
            assert(!same_letter(v@[i + j], w@[j as int]));
            return false;
        }
        j = j + 1;
    }
    true
}

/// Whether a string would be read as a number.
pub fn is_ambiguous_number(s: &str) -> (r: bool)
    ensures
        r == number_text(s@),
{
    let v = chars_of(s);
    let start = skip_sign(&v, 0);
    if has_word(&v, start, "inf") || has_word(&v, start, "infinity") || has_word(&v, start, "nan") {
        return true;
    }
    let int_end = skip_digits(&v, start);
    let has_point = int_end < v.len() && v[int_end] == '.';
    let end = if has_point {
        skip_digits(&v, int_end + 1)
    } else {
        int_end
    };
    if int_end == start && !(has_point && end > int_end + 1) {
        return false;
    }
    if end == v.len() {
        return true;
    }
    if v[end] != 'e' && v[end] != 'E' {
        return false;
    }
    let exp_start = skip_sign(&v, end + 1);
    let exp_end = skip_digits(&v, exp_start);
    exp_end > exp_start && exp_end == v.len()
}

/// Whether a string holds a character that a plain scalar may not hold.
fn has_special(v: &Vec<char>) -> (r: bool)
    ensures
        r == exists|i: int| 0 <= i < v@.len() && special_char(#[trigger] v@[i]),
{
    let mut i: usize = 0;
    while i < v.len()
        invariant
            i <= v@.len(),
            forall|j: int| 0 <= j < i ==> !special_char(#[trigger] v@[j]),
        decreases v@.len() - i,
    {
        let c = v[i];
        if c == '\n' || c == '\r' || c == '\t' || c == ':' || c == '#' || c == '\'' || c == '"' {
            assert(special_char(v@[i as int]));
            return true;
        }
        i = i + 1;
    }
    false
}

/// Whether a string that a script writes is put in quotes.
fn must_quote(s: &str) -> (r: bool)
    ensures
        r == needs_quotes(s@),
{
    let v = chars_of(s);
    if v.len() == 0 || has_special(&v) {
        return true;
    }
    let c = v[0];
    if c == '-' || c == '?' || c == '*' || c == '&' || c == '!' || c == '|' || c == '>' || c == '@'
        || c == '%' || c == '`' {
        return true;
    }
    same_text(s, "true") || same_text(s, "false") || same_text(s, "null") || same_text(s, "~")
        || same_text(s, "True") || same_text(s, "False") || same_text(s, "Null") || same_text(
        s,
        "TRUE",
    ) || same_text(s, "FALSE") || same_text(s, "NULL") || is_ambiguous_number(s)
}

/// A string as a script writes it: plain where it can be, else in single quotes.
pub fn yaml_quote_if_needed(s: &str) -> (r: String)
    ensures
        r@ == quoted_if_needed(s@),
{
    if must_quote(s) {
        string_of(&single_quote(s))
    } else {
        string_of(&chars_of(s))
    }
}

/// A value as a script writes it, or nothing where no scalar stands for it.
pub fn yaml_scalar_text(w: &Written) -> (r: Option<String>)
    ensures
        match written_text(*w) {
            Some(s) => r is Some && r->0@ == s,
            None => r is None,
        },
{
    match w {
        Written::Unit => Some(string_of(&chars_of("null"))),
        Written::Bool(b) => if *b {
            Some(string_of(&chars_of("true")))
        } else {
            Some(string_of(&chars_of("false")))
        },
        Written::Int(i) => Some(string_of(&int_chars(*i))),
        Written::Float(s) => Some(string_of(&chars_of(s.as_str()))),
        Written::Text(s) => Some(yaml_quote_if_needed(s.as_str())),
        Written::Other => None,
    }
}

} // verus!

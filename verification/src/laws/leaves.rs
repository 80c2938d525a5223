//! Values that stand on one line are read back.

use vstd::prelude::*;

use crate::ast::decode;
use crate::ast::decode::DecodeFault;
use crate::ast::scalar;
use crate::ast::scalar::ScalarStyle;
use crate::ast::value;
use crate::ast::value::{FloatModel, ValueModel};
use crate::builder;
use crate::builder::read;
use crate::builder::YamlModel;
use crate::debug;
use crate::laws::emitting;
use crate::laws::escaping;
use crate::laws::gathering;
use crate::laws::layout;
use crate::laws::writing;
use crate::lexer;
use crate::scripting::change;
use crate::syntax::green::Tree;
use crate::syntax::path;
use crate::text;

verus! {

/// Whether a value that is no collection is read back as it is written: an integer
/// must be one that fits, and a number may be written in other words.
pub open spec fn is_tame_leaf(m: YamlModel) -> bool {
    match m {
        YamlModel::Int(n) => i64::MIN <= n <= i64::MAX,
        YamlModel::Float(f) => value::inferred(builder::float_text(f)) == ValueModel::Float(f),
        _ => true,
    }
}

/// The scalar with the text `w`.
pub open spec fn scalar_tree(w: Seq<char>) -> Tree {
    change::scalar_of(emitting::token_of(w))
}

/// The token of a scalar.
proof fn lemma_token(w: Seq<char>)
    ensures
        change::value_place(scalar_tree(w)) == Some(0int),
        scalar::value_token_of(scalar_tree(w).children()) == Some(emitting::token_of(w)),
        w[0] != '"' ==> change::rewritten(scalar_tree(w), w) == scalar_tree(w),
        writing::is_written(scalar_tree(w)),
{
    let t = scalar_tree(w);
    assert(scalar::value_tokens()(t.children()[0]));
    assert(path::spliced(t.children(), 0, 1, seq![emitting::token_of(w)]) =~= t.children());
}

/// A plain scalar stands for its text.
proof fn lemma_plain_value(w: Seq<char>)
    requires
        emitting::plain_text(w),
    ensures
        scalar::scalar_text(scalar_tree(w).children()) == Ok::<Seq<char>, DecodeFault>(w),
        scalar::scalar_value(scalar_tree(w)) == Ok::<ValueModel, DecodeFault>(value::inferred(w)),
{
    lemma_token(w);
    assert(w[0] != '\'' && w[0] != ' ' && w[0] != '\t');
    assert(w[w.len() - 1] != '\t');
    assert(!w.contains('\n'));
    decode::lemma_fold_one_line(w);
    assert(decode::trimmed(w) == w);
    assert(scalar::token_style(emitting::token_of(w)) == Some(ScalarStyle::Plain));
}

/// A string as it is written is a scalar, and is read back.
pub proof fn lemma_text(x: Seq<char>)
    ensures
        emitting::is_scalar_text(builder::string_text(x)),
        scalar::scalar_text(scalar_tree(builder::string_text(x)).children()) == Ok::<
            Seq<char>,
            DecodeFault,
        >(x),
        scalar::scalar_value(scalar_tree(builder::string_text(x))) == Ok::<ValueModel, DecodeFault>(
            ValueModel::Text(x),
        ),
{
    let w = builder::string_text(x);
    lemma_token(w);
    if !builder::quotes_keep(x) {
        escaping::lemma_decoding_undoes_escaping(x);
        assert(w == debug::escaped(x));
        assert(emitting::in_double(w));
        assert(scalar::token_style(emitting::token_of(w)) == Some(ScalarStyle::DoubleQuoted));
    } else if builder::needs_quotes(x) {
        lexer::lemma_single_quoted_reads_back(x);
        assert(w == lexer::single_quoted(x));
        assert(emitting::in_single(w));
        assert(w[0] == '\'' && w.last() == '\'');
        assert(scalar::token_style(emitting::token_of(w)) == Some(ScalarStyle::SingleQuoted));
    } else {
        assert forall|i: int| 0 <= i < w.len() implies #[trigger] w[i] != '\n' && w[i] != '\r'
            && w[i] != '\t' by {
            assert(x.contains(x[i]));
        }
        assert(emitting::plain_text(w));
        lemma_plain_value(w);
        assert(value::inferred(x) == ValueModel::Text(x));
    }
}

/// Whether a character can stand in a number.
pub open spec fn in_number(c: char) -> bool {
    value::is_decimal(c) || c == '+' || c == '-' || c == '.' || c == 'e' || c == 'E'
}

/// A text that looks like a number is a plain scalar.
proof fn lemma_number_text(w: Seq<char>)
    requires
        w.len() > 0,
        forall|i: int| 0 <= i < w.len() ==> in_number(#[trigger] w[i]),
        w[0] == '-' ==> w.len() > 1 && (value::is_decimal(w[1]) || w[1] == '.'),
        !(w.len() > 1 && w[0] == '.' && w[1] == '.'),
    ensures
        emitting::plain_text(w),
{
    assert(in_number(w[0]));
    assert(in_number(w[w.len() - 1]));
    assert(!text::has_pair(w, ':', ' '));
    assert(!text::has_pair(w, ' ', '#'));
}

/// A run of digits.
proof fn lemma_digits_end(s: Seq<char>, i: int)
    requires
        0 <= i,
    ensures
        i <= value::digits_end(s, i),
        i <= s.len() ==> value::digits_end(s, i) <= s.len(),
        forall|j: int| i <= j < value::digits_end(s, i) ==> value::is_decimal(#[trigger] s[j]),
    decreases s.len() - i,
{
    if i < s.len() && value::is_decimal(s[i]) {
        lemma_digits_end(s, i + 1);
    }
}

/// A decimal floating-point number is a plain scalar.
proof fn lemma_decimal_float(s: Seq<char>)
    requires
        value::decimal_float(s),
    ensures
        emitting::plain_text(s),
{
    let a = value::after_sign(s, 0);
    let b = value::digits_end(s, a);
    lemma_digits_end(s, a);
    lemma_digits_end(s, b + 1);
    let c = if value::char_is(s, b, '.') {
        value::digits_end(s, b + 1)
    } else {
        b
    };
    let d = value::after_sign(s, c + 1);
    lemma_digits_end(s, d);
    assert forall|i: int| 0 <= i < s.len() implies in_number(#[trigger] s[i]) by {
        if i < a {
        } else if i < b {
            assert(value::is_decimal(s[i]));
        } else if i < c {
            assert(i == b || value::is_decimal(s[i]));
        } else if i > c && i >= d {
            assert(value::is_decimal(s[i]));
        }
    }
    if s[0] == '-' {
        assert(a == 1);
        assert(b > 1 ==> value::is_decimal(s[1]));
    }
    lemma_number_text(s);
}

/// An integer is a plain scalar.
proof fn lemma_int_text(n: int)
    ensures
        emitting::plain_text(text::int_text(n)),
{
    let w = text::int_text(n);
    let m: nat = if n < 0 {
        (-n) as nat
    } else {
        n as nat
    };
    let d = text::decimal(m);
    writing::lemma_decimal(m);
    assert forall|i: int| 0 <= i < d.len() implies value::is_decimal(#[trigger] d[i]) by {
        assert(value::is_digit_of(d[i], 10));
    }
    assert forall|i: int| 0 <= i < w.len() implies in_number(#[trigger] w[i]) by {
        if n < 0 && i > 0 {
            assert(w[i] == d[i - 1]);
        } else if n >= 0 {
            assert(w[i] == d[i]);
        }
    }
    if n < 0 {
        assert(w[1] == d[0]);
    } else {
        assert(w[0] == d[0]);
    }
    lemma_number_text(w);
}

/// The words that are written for values.
proof fn lemma_words()
    ensures
        emitting::plain_text("null"@),
        emitting::plain_text("true"@),
        emitting::plain_text("false"@),
        emitting::plain_text(".nan"@),
        emitting::plain_text(".inf"@),
        emitting::plain_text("-.inf"@),
{
    reveal_strlit("null");
    reveal_strlit("true");
    reveal_strlit("false");
    reveal_strlit(".nan");
    reveal_strlit(".inf");
    reveal_strlit("-.inf");
}

/// A value that stands on one line and is no collection is a scalar, and is read
/// back.
pub proof fn lemma_leaf(m: YamlModel)
    requires
        is_tame_leaf(m),
        !(m is List),
        !(m is Dict),
    ensures
        emitting::is_scalar_text(layout::leaf_text(m)),
        gathering::scalar_is(scalar_tree(layout::leaf_text(m)), m),
{
    let w = layout::leaf_text(m);
    let t = scalar_tree(w);
    lemma_token(w);
    lemma_words();
    match m {
        YamlModel::Null => {
            writing::lemma_null_reads_back(t);
        },
        YamlModel::Bool(b) => {
            writing::lemma_bool_reads_back(t, b);
        },
        YamlModel::Int(n) => {
            lemma_int_text(n);
            writing::lemma_int_reads_back(t, n as i64);
        },
        YamlModel::Float(f) => {
            match f {
                FloatModel::Decimal(s) => {
                    assert(value::float_value(w) == Some(f));
                    lemma_decimal_float(w);
                },
                _ => {},
            }
            lemma_plain_value(w);
        },
        YamlModel::Str(x) => {
            lemma_text(x);
        },
        _ => {},
    }
}

/// A value that is no string and no collection is written plain.
pub proof fn lemma_leaf_plain(m: YamlModel)
    requires
        is_tame_leaf(m),
        !(m is Str),
        !(m is List),
        !(m is Dict),
    ensures
        emitting::plain_text(layout::leaf_text(m)),
{
    lemma_words();
    match m {
        YamlModel::Int(n) => {
            lemma_int_text(n);
        },
        YamlModel::Float(f) => {
            if f is Decimal {
                let w = builder::float_text(f);
                assert(value::float_value(w) == Some(f));
                lemma_decimal_float(w);
            }
        },
        _ => {},
    }
}

} // verus!

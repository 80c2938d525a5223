//! A value that a script wrote is read.

use vstd::prelude::*;

use crate::ast::decode;
use crate::ast::decode::DecodeFault;
use crate::ast::scalar;
use crate::ast::scalar::ScalarStyle;
use crate::ast::value;
use crate::ast::value::ValueModel;
use crate::builder;
use crate::edit::TreeEdit;
use crate::grammar;
use crate::laws::emitting;
use crate::laws::standing;
use crate::lexer;
use crate::lexer::PlainStop;
use crate::scripting::change;
use crate::scripting::quote;
use crate::scripting::quote::Written;
use crate::syntax::green;
use crate::syntax::green::Tree;
use crate::syntax::kind::SyntaxKind;
use crate::syntax::node;
use crate::syntax::path;
use crate::text;

verus! {

/// Whether `t` is a scalar with a value token.
pub open spec fn is_written(t: Tree) -> bool {
    t.is_node_of(SyntaxKind::SCALAR) && change::value_place(t) is Some
}

/// Where nothing passes a test in the first trees, the first place is behind.
proof fn lemma_place_kept(a: Seq<Tree>, b: Seq<Tree>, i: int, k: int, f: spec_fn(Tree) -> bool)
    requires
        0 <= i,
        node::place_from(a, i, f) == Some(k),
        a.len() == b.len(),
        forall|j: int| 0 <= j < a.len() && j != k ==> #[trigger] a[j] == b[j],
        0 <= k < a.len() ==> f(b[k]),
    ensures
        node::place_from(b, i, f) == Some(k),
        i <= k < a.len(),
    decreases a.len() - i,
{
    if i < a.len() && !f(a[i]) {
        lemma_place_kept(a, b, i + 1, k, f);
        assert(a[i] == b[i]);
    }
}

/// A scalar that was rewritten holds the new text.
proof fn lemma_rewritten(t: Tree, s: Seq<char>)
    requires
        is_written(t),
    ensures
        change::rewritten(t, s).is_node_of(SyntaxKind::SCALAR),
        scalar::value_token_of(change::rewritten(t, s).children()) == Some(change::token_for(s)),
{
    let f = scalar::value_tokens();
    let x = change::token_for(s);
    let cs = t.children();
    let i = change::value_place(t)->0;
    assert(f(x));
    if cs[i].kind() == x.kind() {
        let ds = path::spliced(cs, i, i + 1, seq![x]);
        lemma_place_bounds(cs, 0, f);
        assert(ds[i] == x);
        lemma_place_kept(cs, ds, 0, i, f);
    } else {
        assert(seq![x][0] == x);
        assert(node::place_from(seq![x], 0, f) == Some(0int));
    }
}

/// The first place is one of the places.
proof fn lemma_place_bounds(cs: Seq<Tree>, i: int, f: spec_fn(Tree) -> bool)
    requires
        0 <= i,
    ensures
        match node::place_from(cs, i, f) {
            Some(k) => i <= k < cs.len() && f(cs[k]),
            None => true,
        },
    decreases cs.len() - i,
{
    if i < cs.len() {
        lemma_place_bounds(cs, i + 1, f);
    }
}

/// Whether `s` is an integer to the base sixteen or eight.
pub open spec fn radix_number(s: Seq<char>) -> bool {
    &&& s.len() >= 2 && s[0] == '0' && (s[1] == 'x' || s[1] == 'o')
    &&& value::inferred(s) is Int
}

/// Whether `s` is a word for infinity or for what is no number.
pub open spec fn float_word(s: Seq<char>) -> bool {
    ||| s == ".nan"@ || s == ".NaN"@ || s == ".NAN"@
    ||| s == ".inf"@ || s == ".Inf"@ || s == ".INF"@
    ||| s == "+.inf"@ || s == "+.Inf"@ || s == "+.INF"@
}

/// Whether a string is one line and has no space or tab at either end.
pub open spec fn one_line(s: Seq<char>) -> bool {
    &&& !s.contains('\n')
    &&& s.len() > 0 ==> !decode::is_blank_char(s[0]) && !decode::is_blank_char(s.last())
}

/// Whether a string is read back as it was written: it is one line, has no space
/// or tab at either end, and is neither a number to another base than ten nor a
/// word for a number.
pub open spec fn reads_back(s: Seq<char>) -> bool {
    one_line(s) && !radix_number(s) && !float_word(s)
}

/// Digits up to the end are a run that ends there.
proof fn lemma_run_of_digits(s: Seq<char>, i: int)
    requires
        0 <= i <= s.len(),
        forall|j: int| i <= j < s.len() ==> value::is_digit_of(#[trigger] s[j], 10),
    ensures
        value::digits_end(s, i) == s.len(),
    decreases s.len() - i,
{
    if i < s.len() {
        assert(value::is_digit_of(s[i], 10));
        lemma_run_of_digits(s, i + 1);
    }
}

/// A string that is not put in quotes stands for itself where it is a plain
/// scalar: every word for null, true or false and every decimal number is put in
/// quotes.
proof fn lemma_plain_is_text(s: Seq<char>)
    requires
        !quote::needs_quotes(s),
        !radix_number(s),
        !float_word(s),
    ensures
        value::inferred(s) == ValueModel::Text(s),
{
    assert(!value::null_word(s));
    assert(value::bool_word(s) is None);
    if value::int_value(s) is Some {
        let start = value::after_sign(s, 0);
        assert(s[0] != '-');
        assert forall|j: int| start <= j < s.len() implies value::is_digit_of(
            #[trigger] s[j],
            10,
        ) by {
            assert(s.skip(start)[j - start] == s[j]);
            assert(s.skip(0) =~= s);
        }
        lemma_run_of_digits(s, start);
        assert(quote::number_text(s));
    }
    if value::float_value(s) is Some {
        if !value::decimal_float(s) {
            reveal_strlit("-.inf");
            reveal_strlit("-.Inf");
            reveal_strlit("-.INF");
            assert(quote::indicator(s[0]));
        }
        assert(quote::number_text(s));
    }
}

/// Whether a string can stand where a scalar begins: it opens no flow collection,
/// ends none, and begins with neither a byte order mark nor the mark of a
/// document's end.
pub open spec fn can_stand(s: Seq<char>) -> bool {
    s.len() > 0 ==> {
        &&& s[0] != '[' && s[0] != ']' && s[0] != '{' && s[0] != '}' && s[0] != ','
        &&& s[0] != '\u{feff}'
        &&& !builder::ends_document(s)
    }
}

/// A string that a script writes is one whole scalar.
proof fn lemma_written_is_scalar(s: Seq<char>)
    requires
        one_line(s),
        can_stand(s),
    ensures
        emitting::is_scalar_text(quote::quoted_if_needed(s)),
{
    let w = quote::quoted_if_needed(s);
    if quote::needs_quotes(s) {
        assert(w == lexer::single_quoted(s));
        assert(emitting::in_single(w));
    } else {
        assert(!quote::special_char(s[0]));
        assert(!decode::is_blank_char(s[0]));
        assert(emitting::opens_plain(w));
        assert forall|i: int| 0 <= i < w.len() implies #[trigger] w[i] != '\n' && w[i] != '\r'
            && w[i] != '\t' by {
            assert(!quote::special_char(s[i]));
        }
        assert(!quote::special_char(s.last())) by {
            assert(s.last() == s[s.len() - 1]);
        }
        assert forall|i: int| 0 <= i < w.len() implies #[trigger] w[i] != ':' && w[i] != '#' by {
            assert(!quote::special_char(s[i]));
        }
        assert(emitting::plain_text(w));
    }
}

/// What a script writes for a string, wherever it stands as the value of an entry,
/// an item or a document, is read as one scalar, and that scalar's value is the
/// string.
pub proof fn lemma_written_string_is_found(b: Seq<u8>, p: int, s: Seq<char>, min: usize)
    requires
        reads_back(s),
        can_stand(s),
        standing::stands(b, p, quote::quoted_if_needed(s)),
        standing::ends_before(b, p + standing::size(quote::quoted_if_needed(s)), min + 1),
    ensures
        ({
            let r = grammar::scalar_node(b, p, PlainStop::BlockValue, Some(min));
            &&& r.fault is None
            &&& r.len == standing::size(quote::quoted_if_needed(s))
            &&& r.elems.len() == 1
            &&& scalar::scalar_value(r.elems[0]) == Ok::<ValueModel, DecodeFault>(
                ValueModel::Text(s),
            )
        }),
{
    let w = quote::quoted_if_needed(s);
    lemma_written_is_scalar(s);
    emitting::lemma_value_scalar(b, p, w, 0, min);
    lemma_written_value(s);
}

/// What a script writes for a key, wherever it stands before a colon, is read as
/// one scalar, and that scalar's text is the key.
pub proof fn lemma_written_key_is_found(b: Seq<u8>, p: int, s: Seq<char>)
    requires
        one_line(s),
        can_stand(s),
        standing::stands(b, p, quote::quoted_if_needed(s)),
        lexer::block_colon(b, p + standing::size(quote::quoted_if_needed(s))),
    ensures
        ({
            let r = grammar::scalar_node(b, p, PlainStop::BlockKey, None);
            &&& r.fault is None
            &&& r.len == standing::size(quote::quoted_if_needed(s))
            &&& r.elems.len() == 1
            &&& scalar::scalar_text(r.elems[0].children()) == Ok::<Seq<char>, DecodeFault>(s)
        }),
{
    let w = quote::quoted_if_needed(s);
    lemma_written_is_scalar(s);
    emitting::lemma_key_scalar(b, p, w);
    lemma_written_value(s);
}

/// The text and the value of a string that a script wrote as the one token of a
/// scalar.
proof fn lemma_written_value(s: Seq<char>)
    requires
        one_line(s),
    ensures
        ({
            let w = quote::quoted_if_needed(s);
            let t = change::scalar_of(emitting::token_of(w));
            &&& emitting::token_of(w) == change::token_for(w)
            &&& scalar::scalar_text(t.children()) == Ok::<Seq<char>, DecodeFault>(s)
            &&& reads_back(s) ==> scalar::scalar_value(t) == Ok::<ValueModel, DecodeFault>(
                ValueModel::Text(s),
            )
        }),
{
    let w = quote::quoted_if_needed(s);
    let x = change::token_for(w);
    let t = change::scalar_of(x);
    let f = scalar::value_tokens();
    assert(f(x));
    assert(seq![x][0] == x);
    assert(node::place_from(seq![x], 0, f) == Some(0int));
    if quote::needs_quotes(s) {
        assert(w[0] == '\'' && w.last() == '\'');
    } else {
        assert(!quote::special_char(s[0]));
    }
    lemma_token_reads_back(t, s);
}

/// A scalar whose value token is what a script writes for a string.
proof fn lemma_token_reads_back(t: Tree, s: Seq<char>)
    requires
        one_line(s),
        t.is_node_of(SyntaxKind::SCALAR),
        scalar::value_token_of(t.children()) == Some(change::token_for(quote::quoted_if_needed(s))),
    ensures
        scalar::scalar_text(t.children()) == Ok::<Seq<char>, DecodeFault>(s),
        reads_back(s) ==> scalar::scalar_value(t) == Ok::<ValueModel, DecodeFault>(
            ValueModel::Text(s),
        ),
{
    let w = quote::quoted_if_needed(s);
    if quote::needs_quotes(s) {
        lexer::lemma_single_quoted_reads_back(s);
        assert(w[0] == '\'' && w.last() == '\'');
        assert(scalar::token_style(change::token_for(w)) == Some(ScalarStyle::SingleQuoted));
    } else {
        assert(w == s);
        if s[0] == '\'' {
            assert(quote::special_char(s[0]));
        }
        assert(scalar::token_style(change::token_for(w)) == Some(ScalarStyle::Plain));
        decode::lemma_fold_one_line(s);
        if reads_back(s) {
            lemma_plain_is_text(s);
        }
    }
}

/// A string that a script wrote into a scalar is the scalar's value.
pub proof fn lemma_string_reads_back(t: Tree, s: Seq<char>)
    requires
        is_written(t),
        reads_back(s),
    ensures
        scalar::scalar_value(change::rewritten(t, quote::quoted_if_needed(s))) == Ok::<
            ValueModel,
            DecodeFault,
        >(ValueModel::Text(s)),
        scalar::scalar_text(change::rewritten(t, quote::quoted_if_needed(s)).children()) == Ok::<
            Seq<char>,
            DecodeFault,
        >(s),
{
    lemma_rewritten(t, quote::quoted_if_needed(s));
    lemma_token_reads_back(change::rewritten(t, quote::quoted_if_needed(s)), s);
}

/// Digits, and the number that they stand for.
pub(crate) proof fn lemma_decimal(n: nat)
    ensures
        value::all_digits(text::decimal(n), 10),
        value::number_of(text::decimal(n), 10) == n,
        text::decimal(n)[0] == '0' ==> n == 0,
        n < 10 ==> text::decimal(n).len() == 1,
    decreases n,
{
    let d = text::decimal(n);
    if n < 10 {
        assert(d.drop_last() =~= seq![]);
        assert(value::number_of(d.drop_last(), 10) == 0);
        assert(value::digit_value(d.last()) == Some(n as int));
    } else {
        lemma_decimal(n / 10);
        let e = text::decimal(n / 10);
        assert(d.drop_last() =~= e);
        assert(value::digit_value(d.last()) == Some((n % 10) as int));
        assert(d[0] == e[0]);
        assert forall|i: int| 0 <= i < d.len() implies value::is_digit_of(#[trigger] d[i], 10) by {
            if i < d.len() - 1 {
                assert(d[i] == e[i]);
            }
        }
    }
}

/// An integer that a script wrote into a scalar is the scalar's value.
pub proof fn lemma_int_reads_back(t: Tree, n: i64)
    requires
        is_written(t),
    ensures
        quote::written_text(Written::Int(n)) == Some(text::int_text(n as int)),
        scalar::scalar_value(change::rewritten(t, text::int_text(n as int))) == Ok::<
            ValueModel,
            DecodeFault,
        >(ValueModel::Int(n as int)),
{
    let w = text::int_text(n as int);
    let m: nat = if n < 0 {
        (-n) as nat
    } else {
        n as nat
    };
    let d = text::decimal(m);
    lemma_decimal(m);
    lemma_rewritten(t, w);
    assert(n < 0 ==> w.skip(1) =~= d);
    assert forall|i: int| 0 <= i < w.len() implies w[i] == '-' || value::is_digit_of(
        #[trigger] w[i],
        10,
    ) by {
        if n < 0 && i > 0 {
            assert(w[i] == d[i - 1]);
        }
    }
    assert(!w.contains('\n'));
    decode::lemma_fold_one_line(w);
    assert(value::is_digit_of(w.last(), 10)) by {
        if n < 0 {
            assert(w.last() == d.last());
        }
    }
    assert(decode::trimmed(w) == w);
    if d.len() > 1 {
        assert(m >= 10);
    }
    assert(value::is_digit_of(d[0], 10));
    if w.len() >= 2 {
        assert(value::is_digit_of(w[1], 10));
    }
    assert(value::int_value(w) == Some(n as int));
    reveal_strlit("~");
    reveal_strlit("null");
    reveal_strlit("Null");
    reveal_strlit("NULL");
    reveal_strlit("true");
    reveal_strlit("True");
    reveal_strlit("TRUE");
    reveal_strlit("false");
    reveal_strlit("False");
    reveal_strlit("FALSE");
    assert(!value::null_word(w));
    assert(value::bool_word(w) is None);
}

/// A truth value that a script wrote into a scalar is the scalar's value.
pub proof fn lemma_bool_reads_back(t: Tree, b: bool)
    requires
        is_written(t),
    ensures
        scalar::scalar_value(
            change::rewritten(t, quote::written_text(Written::Bool(b))->0),
        ) == Ok::<ValueModel, DecodeFault>(ValueModel::Bool(b)),
{
    let w = quote::written_text(Written::Bool(b))->0;
    lemma_rewritten(t, w);
    lemma_words();
    decode::lemma_fold_one_line(w);
    assert(decode::trimmed(w) == w);
}

/// A null that a script wrote into a scalar is the scalar's value.
pub proof fn lemma_null_reads_back(t: Tree)
    requires
        is_written(t),
    ensures
        scalar::scalar_value(change::rewritten(t, "null"@)) == Ok::<ValueModel, DecodeFault>(
            ValueModel::Null,
        ),
{
    lemma_rewritten(t, "null"@);
    lemma_words();
    decode::lemma_fold_one_line("null"@);
    assert(decode::trimmed("null"@) == "null"@);
}

/// The words that scripts write.
pub(crate) proof fn lemma_words()
    ensures
        !"true"@.contains('\n') && !"false"@.contains('\n') && !"null"@.contains('\n'),
        "true"@.len() == 4 && "true"@[0] == 't' && "true"@.last() == 'e',
        "false"@.len() == 5 && "false"@[0] == 'f' && "false"@.last() == 'e',
        "null"@.len() == 4 && "null"@[0] == 'n' && "null"@.last() == 'l',
        value::bool_word("true"@) == Some(true) && !value::null_word("true"@),
        value::bool_word("false"@) == Some(false) && !value::null_word("false"@),
{
    reveal_strlit("true");
    reveal_strlit("false");
    reveal_strlit("null");
    reveal_strlit("~");
    reveal_strlit("Null");
    reveal_strlit("NULL");
    reveal_strlit("True");
    reveal_strlit("TRUE");
    assert("true"@[0] == 't');
    assert("false"@[0] == 'f');
    assert("false"@ != "true"@);
    assert("True"@[0] == 'T');
    assert("TRUE"@[0] == 'T');
    assert("Null"@[0] == 'N');
    assert("NULL"@[0] == 'N');
    assert("null"@[0] == 'n');
    assert("~"@[0] == '~');
}

/// A key that was renamed is the key of the entry.
pub proof fn lemma_renamed_key_reads_back(key: Tree, new_key: Seq<char>)
    requires
        is_written(key),
        one_line(new_key),
    ensures
        scalar::scalar_text(
            change::rewritten(key, quote::quoted_if_needed(new_key)).children(),
        ) == Ok::<Seq<char>, DecodeFault>(new_key),
{
    lemma_rewritten(key, quote::quoted_if_needed(new_key));
    lemma_token_reads_back(change::rewritten(key, quote::quoted_if_needed(new_key)), new_key);
}

/// Swapping or taking out a token changes nothing outside the node that holds it.
pub proof fn lemma_token_edit_keeps_the_rest(t: Tree, e: TreeEdit, other: Seq<usize>)
    requires
        e.fits(t),
        match e {
            TreeEdit::ReplaceToken { target, .. } => path::apart(target.parent.path@, other),
            TreeEdit::RemoveToken { target } => path::apart(target.parent.path@, other),
            _ => false,
        },
    ensures
        path::tree_at(e.applied(t), other) == path::tree_at(t, other),
{
    match e {
        TreeEdit::ReplaceToken { target, new } => {
            let p = target.parent;
            let cs = path::spliced(
                p.tree().children(),
                target.index as int,
                target.index + 1,
                seq![green::token_tree(new)],
            );
            path::lemma_replaced_apart(t, p.path@, path::with_children(p.tree(), cs), other);
        },
        TreeEdit::RemoveToken { target } => {
            let p = target.parent;
            let cs = path::spliced(
                p.tree().children(),
                target.index as int,
                target.index + 1,
                seq![],
            );
            path::lemma_replaced_apart(t, p.path@, path::with_children(p.tree(), cs), other);
        },
        _ => {},
    }
}

} // verus!

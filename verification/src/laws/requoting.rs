//! Quotes that are dropped or changed, and words that are put in quotes.

use vstd::prelude::*;
use vstd::utf8::*;

use crate::ast::decode;
use crate::ast::decode::DecodeFault;
use crate::ast::nodes;
use crate::ast::scalar;
use crate::ast::value;
use crate::ast::value::ValueModel;
use crate::fixers::scalars;
use crate::fixers::scalars::ScalarRule;
use crate::laws::scanning;
use crate::laws::standing;
use crate::laws::writing;
use crate::lexer;
use crate::lexer::{ByteClass, PlainStop};
use crate::scripting::change;
use crate::syntax::green::Tree;
use crate::syntax::kind::SyntaxKind;
use crate::syntax::node;
use crate::text;

verus! {

broadcast use vstd::utf8::encode_utf8_valid_utf8;

/// The token that holds `s` between two quotes `q`.
pub open spec fn quoted_by(s: Seq<char>, q: char) -> Tree {
    Tree::Token {
        kind: if q == '"' {
            SyntaxKind::DOUBLE_QUOTED_SCALAR.code()
        } else {
            SyntaxKind::SINGLE_QUOTED_SCALAR.code()
        },
        text: seq![q] + s + seq![q],
    }
}

/// The value of a scalar that holds one token.
pub open spec fn sole_value(t: Tree) -> Result<ValueModel, DecodeFault> {
    scalar::scalar_value(change::scalar_of(t))
}

/// The bytes of a line feed and of a backslash.
proof fn lemma_byte_of(c: char)
    ensures
        (c as u32) < 0x80 ==> {
            let b = c as u8;
            &&& (b == 0x0a) == (c == '\n')
            &&& (b == 0x5c) == (c == '\\')
        },
{
}

/// Without escapes and line feeds, what is between double quotes is the value.
proof fn lemma_double_quoted(s: Seq<char>)
    requires
        !s.contains('\\'),
        !s.contains('\n'),
    ensures
        decode::double_quoted_value(encode_utf8(seq!['"'] + s + seq!['"'])) == Ok::<
            Seq<char>,
            DecodeFault,
        >(s),
{
    let none = Seq::<char>::empty();
    let w = seq!['"'] + s + seq!['"'];
    let raw = encode_utf8(w);
    assert(raw.subrange(0, raw.len() as int) =~= raw);
    assert(w =~= seq!['"'] + (s + (seq!['"'] + none)));
    standing::lemma_first(raw, 0, '"', s + (seq!['"'] + none));
    standing::lemma_parts(raw, 1, s, seq!['"'] + none);
    standing::lemma_first(raw, 1 + standing::size(s), '"', none);
    let b = encode_utf8(s);
    assert(encode_utf8(none) =~= seq![]);
    assert(raw.subrange(1, raw.len() - 1) =~= b);
    assert forall|j: int| 0 <= j < b.len() implies lexer::in_class(
        ByteClass::Content,
        #[trigger] b[j],
    ) by {
        if b[j] < 0x80 {
            let k = standing::lemma_ascii_place(s, j);
            assert(s.contains(s[k]));
            lemma_byte_of(s[k]);
        }
    }
    lemma_run_to_end(b, 0);
    assert(b.subrange(0, b.len() as int) =~= b);
    encode_utf8_decode_utf8(s);
    assert(decode::double_quoted_from(b, b.len() as int, 0) == Ok::<Seq<char>, DecodeFault>(
        seq![],
    ));
    assert(none + s + none =~= s);
    assert(none + none =~= none);
    assert(decode::fold_breaks(0) + s + none =~= s);
    if b.len() == 0 {
        assert(s =~= none) by {
            if s.len() > 0 {
                standing::lemma_byte(s, 0);
            }
        }
    }
}

/// A run that nothing ends goes up to the end.
proof fn lemma_run_to_end(b: Seq<u8>, i: int)
    requires
        0 <= i <= b.len(),
        forall|j: int| i <= j < b.len() ==> lexer::in_class(ByteClass::Content, #[trigger] b[j]),
    ensures
        lexer::run_end(b, i, ByteClass::Content) == b.len(),
    decreases b.len() - i,
{
    if i < b.len() {
        lemma_run_to_end(b, i + 1);
    }
}

/// Without pairs of quotes there is nothing to pair.
proof fn lemma_no_pairs(s: Seq<char>, i: int)
    requires
        0 <= i <= s.len(),
        !text::has_pair(s, '\'', '\''),
    ensures
        decode::pair_quotes(s, i) == s.skip(i),
    decreases s.len() - i,
{
    if i < s.len() {
        lemma_no_pairs(s, i + 1);
        assert(seq![s[i]] + s.skip(i + 1) =~= s.skip(i));
    }
}

/// The value of a scalar that holds one value token.
proof fn lemma_sole_value(t: Tree)
    requires
        scalar::token_style(t) is Some,
    ensures
        sole_value(t) == match scalar::token_value(t) {
            Ok(s) => Ok::<ValueModel, DecodeFault>(
                if t.is_token_of(SyntaxKind::PLAIN_SCALAR) {
                    value::inferred(s)
                } else {
                    ValueModel::Text(s)
                },
            ),
            Err(e) => Err(e),
        },
{
    let f = scalar::value_tokens();
    assert(f(t));
    assert(seq![t][0] == t);
    assert(node::place_from(seq![t], 0, f) == Some(0int));
}

/// What stands between the quotes.
proof fn lemma_stripped(s: Seq<char>, q: char)
    ensures
        scalars::stripped_of(seq![q] + s + seq![q], q) == s,
{
    let w = seq![q] + s + seq![q];
    assert(w.skip(1) =~= s.push(q));
    assert(w.drop_first() =~= s.push(q));
    assert(nodes::without_leading(w, q) =~= s.push(q));
    assert(s.push(q).drop_last() =~= s);
}

/// A token in quotes on one line stands for what is between them.
proof fn lemma_quoted_token(s: Seq<char>, q: char)
    requires
        q == '\'' || q == '"',
        writing::one_line(s),
        q == '"' ==> !s.contains('\\'),
        q == '\'' ==> !text::has_pair(s, '\'', '\''),
    ensures
        sole_value(quoted_by(s, q)) == Ok::<ValueModel, DecodeFault>(ValueModel::Text(s)),
{
    let x = quoted_by(s, q);
    lemma_sole_value(x);
    if q == '"' {
        lemma_double_quoted(s);
    } else {
        let w = x.text();
        assert(w.subrange(1, w.len() - 1) =~= s);
        assert(w.last() == q);
        decode::lemma_fold_one_line(s);
        assert(decode::trimmed(s) =~= s);
        lemma_no_pairs(s, 0);
        assert(s.skip(0) =~= s);
    }
}

/// What comes of a token in quotes.
proof fn lemma_new_token(rule: ScalarRule, s: Seq<char>, q: char, key: bool)
    requires
        rule == ScalarRule::Unquote || rule == ScalarRule::SingleQuotes,
        q == '\'' || q == '"',
        scalars::new_token(rule, quoted_by(s, q), key) is Some,
    ensures
        q == '"' ==> !s.contains('\\'),
        q == '\'' ==> !text::has_pair(s, '\'', '\''),
        rule == ScalarRule::Unquote ==> lexer::plain_safe(s) && scalars::new_token(
            rule,
            quoted_by(s, q),
            key,
        )->0 == scalars::plain_token(s),
        rule == ScalarRule::SingleQuotes ==> scalars::new_token(rule, quoted_by(s, q), key)->0
            == (Tree::Token {
            kind: SyntaxKind::SINGLE_QUOTED_SCALAR.code(),
            text: lexer::single_quoted(s),
        }),
{
    lemma_stripped(s, q);
}

/// Dropping or changing quotes keeps what the scalar stands for: where a token in
/// quotes, whose text is one line without a blank at either end, is written in
/// another way, the new token has the same value, inference included, and that is
/// a string. Where the new token is plain, it is scanned whole wherever a plain
/// scalar can stand.
pub proof fn lemma_requoting_keeps_the_value(
    rule: ScalarRule,
    s: Seq<char>,
    q: char,
    key: bool,
    stop: PlainStop,
    min_indent: Option<usize>,
)
    requires
        rule == ScalarRule::Unquote || rule == ScalarRule::SingleQuotes,
        q == '\'' || q == '"',
        writing::one_line(s),
        scalars::new_token(rule, quoted_by(s, q), key) is Some,
    ensures
        ({
            let old_token = quoted_by(s, q);
            let new_token = scalars::new_token(rule, old_token, key)->0;
            &&& sole_value(new_token) == sole_value(old_token)
            &&& sole_value(new_token) == Ok::<ValueModel, DecodeFault>(ValueModel::Text(s))
            &&& new_token.is_token_of(SyntaxKind::PLAIN_SCALAR) && !s.contains('\r')
                ==> scanning::scanned_whole(new_token.text(), stop, min_indent)
            &&& rule == ScalarRule::SingleQuotes ==> new_token.is_token_of(
                SyntaxKind::SINGLE_QUOTED_SCALAR,
            )
            &&& rule == ScalarRule::Unquote ==> new_token.is_token_of(SyntaxKind::PLAIN_SCALAR)
        }),
{
    let y = scalars::new_token(rule, quoted_by(s, q), key)->0;
    lemma_new_token(rule, s, q, key);
    lemma_quoted_token(s, q);
    lemma_sole_value(y);
    if rule == ScalarRule::Unquote {
        lexer::lemma_plain_scalar_reads_back(s);
        if !s.contains('\r') {
            scanning::lemma_plain_scalar_is_scanned_whole(s, stop, min_indent);
        }
    } else {
        lexer::lemma_single_quoted_reads_back(s);
    }
}

/// Quotes around a word of letters that is a string without them, to YAML 1.2 and
/// YAML 1.1 alike, are dropped.
pub proof fn lemma_word_is_unquoted(s: Seq<char>, q: char, key: bool)
    requires
        q == '\'' || q == '"',
        s.len() > 0,
        forall|i: int|
            0 <= i < s.len() ==> 'a' <= #[trigger] s[i] <= 'z' || 'A' <= s[i] <= 'Z',
        value::inferred(s) == ValueModel::Text(s),
        lexer::yaml_1_1_bool(s) is None,
    ensures
        scalars::new_token(ScalarRule::Unquote, quoted_by(s, q), key) == Some(
            Tree::Token { kind: SyntaxKind::PLAIN_SCALAR.code(), text: s },
        ),
{
    lemma_stripped(s, q);
    let first = s[0];
    assert(!lexer::reserved_first(first));
    assert(s.last() == s[s.len() - 1]);
    assert forall|i: int| 0 <= i < s.len() implies !#[trigger] lexer::plain_breaker(s, i) by {
        let c = s[i];
    }
    lemma_no_sexagesimal(s);
}

/// A sexagesimal number begins with a sign or a digit.
proof fn lemma_no_sexagesimal(s: Seq<char>)
    requires
        s.len() > 0,
        'a' <= s[0] <= 'z' || 'A' <= s[0] <= 'Z',
    ensures
        !lexer::yaml_1_1_sexagesimal(s),
{
    let point = text::find_from(s, '.', 0);
    text::lemma_find_from(s, '.', 0);
    let t = s.take(point);
    let e = text::find_from(t, ':', 0);
    text::lemma_find_from(t, ':', 0);
    assert(point > 0);
    assert(t[0] == s[0]);
    assert(e > 0);
    let segments = text::split_on(t, ':');
    assert(segments[0][0] == s[0]);
    assert(segments[0].len() > 0);
}

/// Every text in double quotes without escapes and control characters is put in
/// single quotes.
pub proof fn lemma_single_quotes_are_preferred(s: Seq<char>, key: bool)
    requires
        !s.contains('\\'),
        forall|i: int| 0 <= i < s.len() ==> ' ' <= #[trigger] s[i] && s[i] != '\x7f',
    ensures
        scalars::new_token(ScalarRule::SingleQuotes, quoted_by(s, '"'), key) == Some(
            Tree::Token {
                kind: SyntaxKind::SINGLE_QUOTED_SCALAR.code(),
                text: lexer::single_quoted(s),
            },
        ),
{
    lemma_stripped(s, '"');
}

// ---- Words and numbers of YAML 1.1 ----

/// The upper case of a letter.
pub open spec fn upper(c: char) -> char {
    if 'a' <= c <= 'z' {
        (c as u32 - 32) as char
    } else {
        c
    }
}

/// Whether `s` is the word `w`: in small letters, with a capital first letter, or in
/// capitals.
pub open spec fn cased(s: Seq<char>, w: Seq<char>) -> bool {
    &&& s.len() == w.len()
    &&& s.len() > 0
    &&& s == w || (s[0] == upper(w[0]) && forall|i: int|
        1 <= i < w.len() ==> #[trigger] s[i] == w[i]) || (forall|i: int|
        0 <= i < w.len() ==> #[trigger] s[i] == upper(w[i]))
}

/// The boolean words of YAML 1.1 are `yes` and `on` for true, `no` and `off` for
/// false, in small letters, with a capital first letter or in capitals; nothing
/// else is one.
pub proof fn lemma_old_bool_words(s: Seq<char>)
    ensures
        (lexer::yaml_1_1_bool(s) == Some(true)) == (cased(s, seq!['y', 'e', 's']) || cased(
            s,
            seq!['o', 'n'],
        )),
        (lexer::yaml_1_1_bool(s) == Some(false)) == (cased(s, seq!['n', 'o']) || cased(
            s,
            seq!['o', 'f', 'f'],
        )),
{
    reveal_strlit("yes");
    reveal_strlit("Yes");
    reveal_strlit("YES");
    reveal_strlit("on");
    reveal_strlit("On");
    reveal_strlit("ON");
    reveal_strlit("no");
    reveal_strlit("No");
    reveal_strlit("NO");
    reveal_strlit("off");
    reveal_strlit("Off");
    reveal_strlit("OFF");
    lemma_cased(s, "yes"@, "Yes"@, "YES"@);
    lemma_cased(s, "off"@, "Off"@, "OFF"@);
    lemma_cased(s, "on"@, "On"@, "ON"@);
    lemma_cased(s, "no"@, "No"@, "NO"@);
    assert("yes"@ =~= seq!['y', 'e', 's']);
    assert("off"@ =~= seq!['o', 'f', 'f']);
    assert("on"@ =~= seq!['o', 'n']);
    assert("no"@ =~= seq!['n', 'o']);
    if s.len() == 3 {
        assert("yes"@[0] == 'y' && "Yes"@[0] == 'Y' && "YES"@[0] == 'Y');
        assert("off"@[0] == 'o' && "Off"@[0] == 'O' && "OFF"@[0] == 'O');
    } else if s.len() == 2 {
        assert("on"@[1] == 'n' && "On"@[1] == 'n' && "ON"@[1] == 'N');
        assert("no"@[1] == 'o' && "No"@[1] == 'o' && "NO"@[1] == 'O');
    }
}

/// The three ways to write a word.
pub(crate) proof fn lemma_cased(s: Seq<char>, w: Seq<char>, a: Seq<char>, b: Seq<char>)
    requires
        w.len() > 0 && a.len() == w.len() && b.len() == w.len(),
        a[0] == upper(w[0]),
        forall|i: int| 1 <= i < w.len() ==> #[trigger] a[i] == w[i],
        forall|i: int| 0 <= i < w.len() ==> #[trigger] b[i] == upper(w[i]),
    ensures
        cased(s, w) == (s == w || s == a || s == b),
{
    if cased(s, w) {
        assert(s =~= w || s =~= a || s =~= b);
    }
}

/// The value of a word that was put in quotes is the word.
proof fn lemma_put_in_quotes(s: Seq<char>)
    requires
        writing::one_line(s),
        !s.contains('\''),
    ensures
        sole_value(scalars::in_quotes(s)) == Ok::<ValueModel, DecodeFault>(ValueModel::Text(s)),
{
    assert forall|i: int| 0 <= i < s.len() - 1 implies !(#[trigger] s[i] == '\'' && s[i + 1]
        == '\'') by {
        assert(s.contains(s[i]));
    }
    lemma_quoted_token(s, '\'');
    assert(scalars::in_quotes(s) == quoted_by(s, '\''));
}

/// A boolean word of YAML 1.1 becomes the boolean that it meant; as a key it becomes
/// a string, and quoting makes a string of it everywhere. No other plain scalar is
/// changed.
pub proof fn lemma_old_bool_keeps_its_meaning(s: Seq<char>, key: bool)
    ensures
        ({
            let t = scalars::plain_token(s);
            let new_bool = scalars::new_token(ScalarRule::Yaml12Bool, t, key);
            let new_text = scalars::new_token(ScalarRule::QuoteBool, t, key);
            let is_true = cased(s, seq!['y', 'e', 's']) || cased(s, seq!['o', 'n']);
            let is_false = cased(s, seq!['n', 'o']) || cased(s, seq!['o', 'f', 'f']);
            &&& new_bool is Some == (is_true || is_false)
            &&& new_text is Some == (is_true || is_false)
            &&& is_true && !key ==> sole_value(new_bool->0) == Ok::<ValueModel, DecodeFault>(
                ValueModel::Bool(true),
            )
            &&& is_false && !key ==> sole_value(new_bool->0) == Ok::<ValueModel, DecodeFault>(
                ValueModel::Bool(false),
            )
            &&& new_bool is Some && key ==> sole_value(new_bool->0) == Ok::<
                ValueModel,
                DecodeFault,
            >(ValueModel::Text(s))
            &&& new_text is Some ==> sole_value(new_text->0) == Ok::<ValueModel, DecodeFault>(
                ValueModel::Text(s),
            )
        }),
{
    lemma_old_bool_words(s);
    if lexer::yaml_1_1_bool(s) is Some {
        lemma_letters(s);
        lemma_put_in_quotes(s);
        let word = if lexer::yaml_1_1_bool(s) == Some(true) {
            "true"@
        } else {
            "false"@
        };
        writing::lemma_words();
        decode::lemma_fold_one_line(word);
        assert(decode::trimmed(word) == word);
        lemma_sole_value(scalars::plain_token(word));
    }
}

/// A boolean word of YAML 1.1 is one line without blanks and quotes.
proof fn lemma_letters(s: Seq<char>)
    requires
        lexer::yaml_1_1_bool(s) is Some,
    ensures
        writing::one_line(s),
        !s.contains('\''),
{
    reveal_strlit("yes");
    reveal_strlit("Yes");
    reveal_strlit("YES");
    reveal_strlit("on");
    reveal_strlit("On");
    reveal_strlit("ON");
    reveal_strlit("no");
    reveal_strlit("No");
    reveal_strlit("NO");
    reveal_strlit("off");
    reveal_strlit("Off");
    reveal_strlit("OFF");
    assert forall|i: int| 0 <= i < s.len() implies 'A' <= #[trigger] s[i] <= 'z' by {
        assert(i == 0 || i == 1 || i == 2);
    }
}

/// A plain scalar that is a zero and at least one octal digit becomes the string
/// that it was written as, and no other is changed.
pub proof fn lemma_old_octal_becomes_text(s: Seq<char>, key: bool)
    ensures
        ({
            let new_text = scalars::new_token(
                ScalarRule::QuoteOctal,
                scalars::plain_token(s),
                key,
            );
            &&& new_text is Some == (s.len() >= 2 && s[0] == '0' && forall|i: int|
                0 <= i < s.len() ==> '0' <= #[trigger] s[i] <= '7')
            &&& new_text is Some ==> sole_value(new_text->0) == Ok::<ValueModel, DecodeFault>(
                ValueModel::Text(s),
            )
        }),
{
    if lexer::yaml_1_1_octal(s) {
        assert forall|i: int| 0 <= i < s.len() implies '0' <= #[trigger] s[i] <= '7' by {}
        assert(s.last() == s[s.len() - 1]);
        lemma_put_in_quotes(s);
    } else if s.len() >= 2 && s[0] == '0' {
        let i = choose|i: int| 1 <= i < s.len() && !('0' <= #[trigger] s[i] <= '7');
        assert(!('0' <= s[i] <= '7'));
    }
}

/// Where the plain scalar of a sexagesimal number is changed, it becomes the string
/// that it was written as.
pub proof fn lemma_old_sexagesimal_becomes_text(s: Seq<char>, key: bool)
    requires
        writing::one_line(s),
        !s.contains('\''),
        scalars::new_token(ScalarRule::QuoteSexagesimal, scalars::plain_token(s), key) is Some,
    ensures
        sole_value(
            scalars::new_token(ScalarRule::QuoteSexagesimal, scalars::plain_token(s), key)->0,
        ) == Ok::<ValueModel, DecodeFault>(ValueModel::Text(s)),
{
    lemma_put_in_quotes(s);
}

} // verus!

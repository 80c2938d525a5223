//! A scalar that was written plain is scanned back whole.

use vstd::prelude::*;
use vstd::utf8::*;

use crate::ast::decode;
use crate::ast::value;
use crate::builder;
use crate::laws::emitting;
use crate::laws::standing;
use crate::lexer;
use crate::lexer::PlainStop;
use crate::text;

verus! {

/// Whether a text that stands alone is read as one plain scalar, to the end of the
/// text.
pub open spec fn scanned_whole(w: Seq<char>, stop: PlainStop, min_indent: Option<usize>) -> bool {
    let s = encode_utf8(w);
    &&& lexer::plain_end(s, 0, stop, min_indent) == s.len()
    &&& text::chars_between(s, 0, lexer::plain_end(s, 0, stop, min_indent)) == w
}

/// A text in which nothing ends a plain scalar is read whole.
proof fn lemma_scanned_whole(
    w: Seq<char>,
    stop: PlainStop,
    min_indent: Option<usize>,
    flow: bool,
)
    requires
        emitting::unbroken(w, flow),
        flow || stop == PlainStop::BlockKey || stop == PlainStop::BlockValue,
    ensures
        scanned_whole(w, stop, min_indent),
{
    let s = encode_utf8(w);
    assert(s.subrange(0, s.len() as int) =~= s);
    assert(standing::stands(s, 0, w));
    emitting::lemma_last_byte(s, 0, w);
    emitting::lemma_stop_at_end(s, 0, w, 0, stop, flow);
    assert(lexer::trim_end(s, 0, s.len() as int) == s.len());
    standing::lemma_chars(s, 0, w);
}

/// A text on one line that can be written as a plain scalar is scanned back whole,
/// as a key and as a value, in a block and in a flow collection.
pub proof fn lemma_plain_scalar_is_scanned_whole(
    s: Seq<char>,
    stop: PlainStop,
    min_indent: Option<usize>,
)
    requires
        lexer::plain_safe(s),
        !s.contains('\n'),
        !s.contains('\r'),
    ensures
        scanned_whole(s, stop, min_indent),
{
    assert forall|i: int| 0 <= i < s.len() implies #[trigger] s[i] != '\n' && s[i] != '\r'
        && s[i] != ',' && s[i] != '}' && s[i] != ']' by {
        assert(!lexer::plain_breaker(s, i));
    }
    assert forall|i: int| 0 <= i < s.len() && #[trigger] s[i] == ':' implies i + 1 < s.len()
        && !lexer::is_white_char(s[i + 1]) by {
        assert(!lexer::plain_breaker(s, i));
    }
    assert forall|i: int|
        0 <= i < s.len() - 1 && decode::is_blank_char(#[trigger] s[i]) implies s[i + 1]
        != '#' by {
        assert(!lexer::plain_breaker(s, i + 1));
    }
    lemma_scanned_whole(s, stop, min_indent, true);
}

/// A string is written in single quotes, or as it is; as it is only where it is
/// then read back as that string, and scanned whole in a block. The empty string,
/// and one that stands for something else, is written in quotes. What is in quotes
/// is read back where it is one line without a space or tab at either end.
pub proof fn lemma_quoted_scalar_reads_back(s: Seq<char>, stop: PlainStop, min_indent: Option<usize>)
    requires
        stop == PlainStop::BlockKey || stop == PlainStop::BlockValue,
    ensures
        builder::quoted(s) == lexer::single_quoted(s) || {
            &&& builder::quoted(s) == s
            &&& decode::folded_text(s) == s
            &&& value::inferred(s) == value::ValueModel::Text(s)
            &&& scanned_whole(s, stop, min_indent)
        },
        s.len() == 0 || !(value::inferred(s) is Text) ==> builder::quoted(s)
            == lexer::single_quoted(s),
        builder::quotes_keep(s) ==> decode::single_quoted_value(lexer::single_quoted(s)) == Ok::<
            Seq<char>,
            decode::DecodeFault,
        >(s),
{
    if builder::quotes_keep(s) {
        lexer::lemma_single_quoted_reads_back(s);
    }
    if !builder::needs_quotes(s) {
        assert forall|i: int| 0 <= i < s.len() implies #[trigger] s[i] != '\n' && s[i] != '\r'
            && s[i] != '\t' by {
            if s[i] == '\n' || s[i] == '\r' || s[i] == '\t' {
                assert(s.contains(s[i]));
            }
        }
        assert(emitting::opens_plain(s));
        emitting::lemma_unbroken(s);
        lemma_scanned_whole(s, stop, min_indent, false);
        decode::lemma_fold_one_line(s);
    }
}

} // verus!

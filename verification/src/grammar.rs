//! The grammar: the syntax tree of a YAML text, and its first error.
//!
//! Each function here says what one production makes of the text from a place
//! on: the trees it adds, the number of bytes they cover and, where the text
//! does not fit, the error. An error ends everything: the rest of the text
//! becomes one `ERROR` token, in the innermost node, and all nodes end there.

use vstd::prelude::*;

use crate::lexer;
use crate::lexer::{ByteClass, LexHint, PlainStop};
use crate::syntax::clear;
use crate::syntax::green::Tree;
use crate::syntax::kind::SyntaxKind;
use crate::text;

verus! {

/// An error: where it is, in bytes, and what is wrong.
pub struct Fault {
    pub offset: int,
    pub message: Seq<char>,
}

/// What a production makes of the text from a place on.
pub struct Parsed {
    pub elems: Seq<Tree>,
    pub len: nat,
    pub fault: Option<Fault>,
}

// ---- Building blocks ----

/// The bytes from `pos` on.
pub open spec fn left(s: Seq<u8>, pos: int) -> nat {
    if pos <= s.len() {
        (s.len() - pos) as nat
    } else {
        0
    }
}

/// Nothing.
pub open spec fn none() -> Parsed {
    Parsed { elems: seq![], len: 0, fault: None }
}

/// A token of kind `k` over `n` bytes.
pub open spec fn token(s: Seq<u8>, pos: int, k: SyntaxKind, n: nat) -> Parsed {
    Parsed {
        elems: seq![Tree::Token { kind: k.code(), text: text::chars_between(s, pos, pos + n) }],
        len: n,
        fault: None,
    }
}

/// `a`, then `b`, unless `a` has an error.
pub open spec fn cat(a: Parsed, b: Parsed) -> Parsed {
    if a.fault is Some {
        a
    } else {
        Parsed { elems: a.elems + b.elems, len: a.len + b.len, fault: b.fault }
    }
}

/// A node of kind `k` with what `a` adds.
pub open spec fn wrap(k: SyntaxKind, a: Parsed) -> Parsed {
    Parsed { elems: seq![Tree::Node { kind: k.code(), children: a.elems }], ..a }
}

/// An error. The text from `pos` on becomes an `ERROR` token.
pub open spec fn fail(s: Seq<u8>, pos: int, offset: int, message: Seq<char>) -> Parsed {
    Parsed {
        elems: if pos < s.len() {
            seq![
                Tree::Token {
                    kind: SyntaxKind::ERROR.code(),
                    text: text::chars_between(s, pos, s.len() as int),
                },
            ]
        } else {
            seq![]
        },
        len: left(s, pos),
        fault: Some(Fault { offset, message }),
    }
}

/// The error for a token that cannot stand at `pos`.
#[verifier::opaque]
pub open spec fn unexpected(s: Seq<u8>, pos: int, k: SyntaxKind, place: Seq<char>) -> Parsed {
    fail(s, pos, pos, "unexpected token "@ + k.name() + place)
}

/// Whether a token of kind `k` stands at `pos`.
pub open spec fn at(s: Seq<u8>, pos: int, k: SyntaxKind) -> bool {
    lexer::hint_at(s, pos) == Some(LexHint::Token(k))
}

/// The simple token at `pos`.
#[verifier::opaque]
pub open spec fn simple(s: Seq<u8>, pos: int) -> Parsed {
    match lexer::hint_at(s, pos) {
        Some(LexHint::Token(k)) => token(s, pos, k, (lexer::simple_end(s, pos, k) - pos) as nat),
        _ => none(),
    }
}

/// The kinds of tokens that are one byte long.
pub open spec fn is_mark(k: SyntaxKind) -> bool {
    k == SyntaxKind::COLON || k == SyntaxKind::COMMA || k == SyntaxKind::L_BRACE || k
        == SyntaxKind::R_BRACE || k == SyntaxKind::L_BRACKET || k == SyntaxKind::R_BRACKET || k
        == SyntaxKind::DASH || k == SyntaxKind::QUESTION
}

/// A mark is a token over one byte.
pub proof fn lemma_mark(s: Seq<u8>, pos: int, k: SyntaxKind)
    requires
        at(s, pos, k),
        is_mark(k),
    ensures
        simple(s, pos) == token(s, pos, k, 1),
{
    reveal(simple);
}

/// Whether a quoted scalar stands at `pos`.
pub open spec fn quoted_at(s: Seq<u8>, pos: int) -> bool {
    at(s, pos, SyntaxKind::SINGLE_QUOTED_SCALAR) || at(s, pos, SyntaxKind::DOUBLE_QUOTED_SCALAR)
}

/// Whether a plain or quoted scalar stands at `pos`.
pub open spec fn scalar_at(s: Seq<u8>, pos: int) -> bool {
    quoted_at(s, pos) || lexer::hint_at(s, pos) == Some(LexHint::PlainStart)
}

/// Whether a block scalar stands at `pos`.
pub open spec fn block_scalar_at(s: Seq<u8>, pos: int) -> bool {
    at(s, pos, SyntaxKind::LITERAL_SCALAR) || at(s, pos, SyntaxKind::FOLDED_SCALAR)
}

/// Whether an anchor, an alias or a tag stands at `pos`.
pub open spec fn property_at(s: Seq<u8>, pos: int) -> bool {
    at(s, pos, SyntaxKind::ANCHOR) || at(s, pos, SyntaxKind::ALIAS) || at(s, pos, SyntaxKind::TAG)
}

/// A simple token is not empty.
pub proof fn lemma_simple_len(s: Seq<u8>, pos: int)
    requires
        lexer::simple_at(s, pos),
    ensures
        simple(s, pos).len >= 1,
        left(s, pos + simple(s, pos).len) < left(s, pos),
{
    reveal(simple);
    if let Some(LexHint::Token(k)) = lexer::hint_at(s, pos) {
        lexer::lemma_simple_start(s, pos, k);
    }
    lexer::lemma_run_end(s, pos, ByteClass::Blank);
    lexer::lemma_run_end(s, pos, ByteClass::Line);
    assert(lexer::run_end(s, pos + 1, ByteClass::Blank) >= pos + 1) by {
        lexer::lemma_run_end(s, pos + 1, ByteClass::Blank);
    }
    assert(lexer::run_end(s, pos + 1, ByteClass::Line) >= pos + 1) by {
        lexer::lemma_run_end(s, pos + 1, ByteClass::Line);
    }
}

// ---- Trivia ----

/// All whitespace, line breaks and comments from `pos` on.
#[verifier::opaque]
pub open spec fn trivia(s: Seq<u8>, pos: int) -> Parsed
    decreases left(s, pos),
{
    if at(s, pos, SyntaxKind::WHITESPACE) || at(s, pos, SyntaxKind::NEWLINE) || at(
        s,
        pos,
        SyntaxKind::COMMENT,
    ) {
        let a = simple(s, pos);
        proof {
            lemma_simple_len(s, pos);
        }
        cat(a, trivia(s, pos + a.len))
    } else {
        none()
    }
}

/// The whitespace and comments from `pos` on, up to the end of the line.
#[verifier::opaque]
pub open spec fn inline_trivia(s: Seq<u8>, pos: int) -> Parsed
    decreases left(s, pos),
{
    if at(s, pos, SyntaxKind::WHITESPACE) || at(s, pos, SyntaxKind::COMMENT) {
        let a = simple(s, pos);
        proof {
            lemma_simple_len(s, pos);
        }
        cat(a, inline_trivia(s, pos + a.len))
    } else {
        none()
    }
}

/// The trivia between the entries of a block collection: all but the
/// whitespace right before the next token, which is the indentation of the
/// entry there.
#[verifier::opaque]
pub open spec fn entry_trivia(s: Seq<u8>, pos: int) -> Parsed
    decreases left(s, pos),
{
    let a = simple(s, pos);
    let next = pos + a.len;
    if at(s, pos, SyntaxKind::NEWLINE) || at(s, pos, SyntaxKind::COMMENT) || (at(
        s,
        pos,
        SyntaxKind::WHITESPACE,
    ) && (lexer::hint_at(s, next) is None || at(s, next, SyntaxKind::WHITESPACE) || at(
        s,
        next,
        SyntaxKind::NEWLINE,
    ) || at(s, next, SyntaxKind::COMMENT))) {
        proof {
            lemma_simple_len(s, pos);
        }
        cat(a, entry_trivia(s, next))
    } else {
        none()
    }
}

/// The whitespace at `pos`, if there is any.
pub open spec fn leading_whitespace(s: Seq<u8>, pos: int) -> Parsed {
    if at(s, pos, SyntaxKind::WHITESPACE) {
        simple(s, pos)
    } else {
        none()
    }
}

/// What stands at `pos` behind the whitespace there.
pub open spec fn hint_past_whitespace(s: Seq<u8>, pos: int) -> Option<LexHint> {
    lexer::hint_at(s, pos + leading_whitespace(s, pos).len)
}

/// Whether a token of kind `k` stands at `pos` behind the whitespace there.
pub open spec fn past_whitespace(s: Seq<u8>, pos: int, k: SyntaxKind) -> bool {
    at(s, pos + leading_whitespace(s, pos).len, k)
}

/// Whether a plain or quoted scalar stands at `pos` behind the whitespace there.
pub open spec fn scalar_past_whitespace(s: Seq<u8>, pos: int) -> bool {
    scalar_at(s, pos + leading_whitespace(s, pos).len)
}

/// The first place at or behind `pos` that is neither whitespace nor in a
/// comment; here every `#` opens a comment.
#[verifier::opaque]
pub open spec fn content_after(s: Seq<u8>, pos: int) -> Option<int>
    decreases left(s, pos),
{
    if !(0 <= pos < s.len()) {
        None
    } else if lexer::is_blank(s[pos]) || lexer::is_break(s[pos]) {
        content_after(s, pos + 1)
    } else if s[pos] == 0x23 {
        proof {
            lexer::lemma_run_end(s, pos + 1, ByteClass::Line);
        }
        content_after(s, lexer::run_end(s, pos, ByteClass::Line))
    } else {
        Some(pos)
    }
}

/// Content lies within the text.
pub proof fn lemma_content_after(s: Seq<u8>, pos: int)
    ensures
        content_after(s, pos) matches Some(i) ==> pos <= i < s.len() && 0 <= pos,
    decreases left(s, pos),
{
    reveal(content_after);
    if 0 <= pos < s.len() {
        if lexer::is_blank(s[pos]) || lexer::is_break(s[pos]) {
            lemma_content_after(s, pos + 1);
        } else if s[pos] == 0x23 {
            lexer::lemma_run_end(s, pos + 1, ByteClass::Line);
            lemma_content_after(s, lexer::run_end(s, pos, ByteClass::Line));
        }
    }
}

/// Whether a dash that opens a sequence entry stands at `i`.
pub open spec fn dash_at(s: Seq<u8>, i: int) -> bool {
    lexer::byte_is(s, i, 0x2d) && lexer::gap_at(s, i + 1)
}

/// The first tab in `a..b`.
pub open spec fn first_tab(s: Seq<u8>, a: int, b: int) -> Option<int>
    decreases b - a,
{
    if a >= b {
        None
    } else if s[a] == 0x09 {
        Some(a)
    } else {
        first_tab(s, a + 1, b)
    }
}

/// The first tab on the line of `pos`, up to the end of the whitespace at `pos`.
#[verifier::opaque]
pub open spec fn tab_before(s: Seq<u8>, pos: int) -> Option<int> {
    first_tab(s, lexer::line_start(s, pos), lexer::run_end(s, pos, ByteClass::Blank))
}

/// The error for the tab at `tab`.
pub open spec fn tab_fault(s: Seq<u8>, pos: int, tab: int) -> Parsed {
    fail(s, pos, tab, "tabs not allowed in indentation"@)
}

/// Whether a line that starts at `pos` opens with the byte `b` three times, set
/// off from what follows.
#[verifier::opaque]
pub open spec fn line_marker(s: Seq<u8>, pos: int, b: u8) -> bool {
    &&& lexer::column_of(s, pos) == 0
    &&& lexer::byte_is(s, pos, b)
    &&& lexer::byte_is(s, pos + 1, b)
    &&& lexer::byte_is(s, pos + 2, b)
    &&& lexer::gap_at(s, pos + 3)
}

/// Whether `---` stands at `pos` as a document marker.
pub open spec fn start_marker(s: Seq<u8>, pos: int) -> bool {
    line_marker(s, pos, 0x2d)
}

/// Whether `...` stands at `pos` as a document marker.
pub open spec fn end_marker(s: Seq<u8>, pos: int) -> bool {
    line_marker(s, pos, 0x2e)
}

/// Whether a document marker stands at `pos`.
pub open spec fn any_marker(s: Seq<u8>, pos: int) -> bool {
    start_marker(s, pos) || end_marker(s, pos)
}

// ---- Scalars and properties ----

/// An implicit null.
pub open spec fn null_node() -> Parsed {
    wrap(SyntaxKind::NULL_SCALAR, none())
}

/// The message for a quoted scalar that does not end.
pub open spec fn unterminated(s: Seq<u8>, pos: int) -> Seq<char> {
    if lexer::byte_is(s, pos, 0x27) {
        "unterminated single-quoted scalar"@
    } else {
        "unterminated double-quoted scalar"@
    }
}

/// The token of the quoted scalar at `pos`.
#[verifier::opaque]
pub open spec fn quoted_token(s: Seq<u8>, pos: int) -> Parsed {
    let c = lexer::quoted_close(s, pos);
    if c.closed {
        token(
            s,
            pos,
            if lexer::byte_is(s, pos, 0x27) {
                SyntaxKind::SINGLE_QUOTED_SCALAR
            } else {
                SyntaxKind::DOUBLE_QUOTED_SCALAR
            },
            (c.end - pos) as nat,
        )
    } else {
        fail(s, pos, pos, unterminated(s, pos))
    }
}

/// The token of the plain scalar at `pos`.
#[verifier::opaque]
pub open spec fn plain_token(
    s: Seq<u8>,
    pos: int,
    stop: PlainStop,
    min_indent: Option<usize>,
) -> Parsed {
    let e = lexer::plain_end(s, pos, stop, min_indent);
    if e == pos {
        fail(s, pos, pos, "expected scalar content"@)
    } else {
        token(s, pos, SyntaxKind::PLAIN_SCALAR, (e - pos) as nat)
    }
}

/// A plain or quoted scalar.
#[verifier::opaque]
pub open spec fn scalar_node(
    s: Seq<u8>,
    pos: int,
    stop: PlainStop,
    min_indent: Option<usize>,
) -> Parsed {
    wrap(
        SyntaxKind::SCALAR,
        if quoted_at(s, pos) {
            quoted_token(s, pos)
        } else if lexer::hint_at(s, pos) == Some(LexHint::PlainStart) {
            plain_token(s, pos, stop, min_indent)
        } else {
            fail(s, pos, pos, "expected scalar"@)
        },
    )
}

/// A block scalar, the value of a node indented by `parent`.
#[verifier::opaque]
pub open spec fn block_scalar(s: Seq<u8>, pos: int, parent: int) -> Parsed {
    match lexer::block_scalar_end(s, pos, parent) {
        Some(e) => wrap(
            SyntaxKind::SCALAR,
            token(
                s,
                pos,
                if lexer::byte_is(s, pos, 0x7c) {
                    SyntaxKind::LITERAL_SCALAR
                } else {
                    SyntaxKind::FOLDED_SCALAR
                },
                (e - pos) as nat,
            ),
        ),
        None => fail(s, pos, pos, "malformed block scalar header"@),
    }
}

/// The name token, of kind `k`, of an anchor or alias.
#[verifier::opaque]
pub open spec fn name_token(s: Seq<u8>, pos: int, k: SyntaxKind, empty: Seq<char>) -> Parsed {
    let e = lexer::run_end(s, pos + 1, ByteClass::Name);
    if e == pos + 1 {
        fail(s, pos, pos, empty)
    } else {
        token(s, pos, k, (e - pos) as nat)
    }
}

/// A tag.
#[verifier::opaque]
pub open spec fn tag_token(s: Seq<u8>, pos: int) -> Parsed {
    let c = lexer::tag_close(s, pos);
    if c.closed {
        token(s, pos, SyntaxKind::TAG, (c.end - pos) as nat)
    } else {
        fail(s, pos, pos, "unterminated verbatim tag"@)
    }
}

/// Whether an anchor, alias or tag follows the blanks at `pos`.
#[verifier::opaque]
pub open spec fn sigil_after(s: Seq<u8>, pos: int) -> bool {
    let i = lexer::run_end(s, pos, ByteClass::Blank);
    lexer::byte_is(s, i, 0x26) || lexer::byte_is(s, i, 0x2a) || lexer::byte_is(s, i, 0x21)
}

/// The anchor or tag at `pos`.
#[verifier::opaque]
pub open spec fn property_token(s: Seq<u8>, pos: int) -> Parsed {
    if at(s, pos, SyntaxKind::ANCHOR) {
        name_token(s, pos, SyntaxKind::ANCHOR, "anchor name cannot be empty"@)
    } else {
        tag_token(s, pos)
    }
}

/// Anchors and tags in a row; the whitespace between two of them belongs to
/// them.
#[verifier::opaque]
pub open spec fn property_list(s: Seq<u8>, pos: int) -> Parsed
    decreases left(s, pos),
{
    if at(s, pos, SyntaxKind::ALIAS) {
        fail(s, pos, pos, "alias cannot follow other node properties"@)
    } else if !(at(s, pos, SyntaxKind::ANCHOR) || at(s, pos, SyntaxKind::TAG)) {
        none()
    } else {
        let a = property_token(s, pos);
        let next = pos + a.len;
        if at(s, next, SyntaxKind::WHITESPACE) && sigil_after(s, next) {
            let b = cat(a, simple(s, next));
            proof {
                lemma_simple_len(s, next);
            }
            cat(b, property_list(s, next + simple(s, next).len))
        } else {
            a
        }
    }
}

/// The properties of a node, from `pos` on; an alias is a node itself.
#[verifier::opaque]
pub open spec fn properties(s: Seq<u8>, pos: int) -> Parsed {
    if at(s, pos, SyntaxKind::ALIAS) {
        wrap(
            SyntaxKind::ALIAS_NODE,
            name_token(s, pos, SyntaxKind::ALIAS, "alias name cannot be empty"@),
        )
    } else {
        wrap(SyntaxKind::NODE_PROPERTIES, property_list(s, pos))
    }
}

/// Properties are not empty.
pub proof fn lemma_properties_len(s: Seq<u8>, pos: int)
    requires
        property_at(s, pos),
    ensures
        left(s, pos + properties(s, pos).len) < left(s, pos),
        properties(s, pos).len >= 1,
{
    reveal(properties);
    reveal(property_list);
    reveal(property_token);
    reveal(name_token);
    reveal(tag_token);
    lexer::lemma_run_end(s, pos + 1, ByteClass::Name);
    lexer::lemma_run_end(s, pos + 1, ByteClass::Handle);
    lexer::lemma_run_end(s, pos + 2, ByteClass::Verbatim);
    let e = lexer::run_end(s, pos + 1, ByteClass::Handle);
    lexer::lemma_run_end(s, e + 1, ByteClass::Handle);
    assert(property_token(s, pos).len >= 1);
}

// ---- Flow collections ----

/// A flow mapping.
pub open spec fn flow_mapping(s: Seq<u8>, pos: int) -> Parsed
    decreases left(s, pos), 0nat,
    when pos < s.len()
{
    let a = token(s, pos, SyntaxKind::L_BRACE, 1);
    let b = cat(a, trivia(s, pos + a.len));
    wrap(
        SyntaxKind::FLOW_MAPPING,
        if at(s, pos + b.len, SyntaxKind::R_BRACE) {
            cat(b, token(s, pos + b.len, SyntaxKind::R_BRACE, 1))
        } else {
            cat(b, flow_mapping_items(s, pos + b.len))
        },
    )
}

/// The entries of a flow mapping, and the brace that closes it.
pub open spec fn flow_mapping_items(s: Seq<u8>, pos: int) -> Parsed
    decreases left(s, pos), 4nat,
{
    let a = flow_mapping_entry(s, pos);
    let b = cat(a, trivia(s, pos + a.len));
    let p = pos + b.len;
    if b.fault is Some {
        b
    } else if at(s, p, SyntaxKind::COMMA) {
        let c = cat(b, token(s, p, SyntaxKind::COMMA, 1));
        let d = cat(c, trivia(s, pos + c.len));
        if at(s, pos + d.len, SyntaxKind::R_BRACE) {
            cat(d, token(s, pos + d.len, SyntaxKind::R_BRACE, 1))
        } else {
            cat(d, flow_mapping_items(s, pos + d.len))
        }
    } else if at(s, p, SyntaxKind::R_BRACE) {
        cat(b, token(s, p, SyntaxKind::R_BRACE, 1))
    } else if lexer::hint_at(s, p) is None {
        cat(b, fail(s, p, p, "expected '}' in flow mapping"@))
    } else {
        cat(b, fail(s, p, p, "expected ',' or '}' in flow mapping"@))
    }
}

/// One entry of a flow mapping.
pub open spec fn flow_mapping_entry(s: Seq<u8>, pos: int) -> Parsed
    decreases left(s, pos), 3nat,
{
    let a = flow_entry_body(s, pos);
    wrap(SyntaxKind::FLOW_MAPPING_ENTRY, cat(a, inline_trivia(s, pos + a.len)))
}

/// What may stand before the key of a flow mapping entry: a question mark.
pub open spec fn flow_question(s: Seq<u8>, pos: int) -> Parsed {
    if at(s, pos, SyntaxKind::QUESTION) {
        let a = token(s, pos, SyntaxKind::QUESTION, 1);
        cat(a, trivia(s, pos + a.len))
    } else {
        none()
    }
}

/// Whether a colon separates key and value at `pos`. Behind a quoted key any
/// colon does.
pub open spec fn flow_separator(s: Seq<u8>, pos: int, quoted: bool) -> bool {
    if quoted {
        lexer::byte_is(s, pos, 0x3a)
    } else {
        lexer::flow_colon(s, pos)
    }
}

/// A flow mapping entry without the node around it: properties, key, colon and
/// value. A lone alias is an entry.
pub open spec fn flow_entry_body(s: Seq<u8>, pos: int) -> Parsed
    decreases left(s, pos), 2nat,
{
    let q = flow_question(s, pos);
    let p = pos + q.len;
    if property_at(s, p) {
        let b = cat(q, properties(s, p));
        let a = cat(b, trivia(s, pos + b.len));
        if a.fault is Some || at(s, p, SyntaxKind::ALIAS) {
            a
        } else {
            cat(a, flow_pair(s, pos + a.len))
        }
    } else {
        cat(q, flow_pair(s, p))
    }
}

/// The key of a flow mapping entry, properties aside, and its colon and value.
pub open spec fn flow_pair(s: Seq<u8>, pos: int) -> Parsed
    decreases left(s, pos), 1nat,
{
    let k = if at(s, pos, SyntaxKind::L_BRACE) {
        flow_mapping(s, pos)
    } else if at(s, pos, SyntaxKind::L_BRACKET) {
        flow_sequence(s, pos)
    } else {
        flow_scalar_key(s, pos)
    };
    let t = cat(k, trivia(s, pos + k.len));
    let p = pos + t.len;
    if t.fault is None && flow_separator(s, p, quoted_at(s, pos)) {
        let c = cat(t, token(s, p, SyntaxKind::COLON, 1));
        cat(c, flow_value(s, pos + c.len))
    } else {
        t
    }
}

/// A key that is no collection: a scalar, or nothing.
pub open spec fn flow_scalar_key(s: Seq<u8>, pos: int) -> Parsed {
    if scalar_at(s, pos) {
        scalar_node(s, pos, PlainStop::FlowKey, None)
    } else if at(s, pos, SyntaxKind::COLON) || at(s, pos, SyntaxKind::COMMA) || at(
        s,
        pos,
        SyntaxKind::R_BRACE,
    ) || lexer::hint_at(s, pos) is None {
        none()
    } else {
        fail(s, pos, pos, "expected flow mapping key"@)
    }
}

/// The value of a flow entry, behind its colon.
pub open spec fn flow_value(s: Seq<u8>, pos: int) -> Parsed
    decreases left(s, pos), 1nat,
{
    let t = trivia(s, pos);
    let p1 = pos + t.len;
    let a = if property_at(s, p1) {
        let b = cat(t, properties(s, p1));
        if at(s, p1, SyntaxKind::ALIAS) {
            b
        } else {
            cat(b, trivia(s, pos + b.len))
        }
    } else {
        t
    };
    let p = pos + a.len;
    if a.fault is Some || at(s, p1, SyntaxKind::ALIAS) {
        a
    } else if at(s, p, SyntaxKind::L_BRACE) {
        cat(a, flow_mapping(s, p))
    } else if at(s, p, SyntaxKind::L_BRACKET) {
        cat(a, flow_sequence(s, p))
    } else if scalar_at(s, p) {
        cat(a, scalar_node(s, p, PlainStop::FlowValue, None))
    } else {
        match lexer::hint_at(s, p) {
            Some(LexHint::Token(k)) if k != SyntaxKind::COMMA && k != SyntaxKind::R_BRACE && k
                != SyntaxKind::R_BRACKET => cat(
                a,
                unexpected(s, p, k, " in flow entry value"@),
            ),
            _ => cat(a, null_node()),
        }
    }
}

/// A flow sequence.
pub open spec fn flow_sequence(s: Seq<u8>, pos: int) -> Parsed
    decreases left(s, pos), 0nat,
    when pos < s.len()
{
    let a = token(s, pos, SyntaxKind::L_BRACKET, 1);
    let b = cat(a, trivia(s, pos + a.len));
    wrap(
        SyntaxKind::FLOW_SEQUENCE,
        if at(s, pos + b.len, SyntaxKind::R_BRACKET) {
            cat(b, token(s, pos + b.len, SyntaxKind::R_BRACKET, 1))
        } else {
            cat(b, flow_sequence_items(s, pos + b.len))
        },
    )
}

/// The entries of a flow sequence, and the bracket that closes it.
pub open spec fn flow_sequence_items(s: Seq<u8>, pos: int) -> Parsed
    decreases left(s, pos), 3nat,
{
    let a = flow_sequence_entry(s, pos);
    let b = cat(a, trivia(s, pos + a.len));
    let p = pos + b.len;
    if b.fault is Some {
        b
    } else if at(s, p, SyntaxKind::COMMA) {
        let c = cat(b, token(s, p, SyntaxKind::COMMA, 1));
        let d = cat(c, trivia(s, pos + c.len));
        if at(s, pos + d.len, SyntaxKind::R_BRACKET) {
            cat(d, token(s, pos + d.len, SyntaxKind::R_BRACKET, 1))
        } else {
            cat(d, flow_sequence_items(s, pos + d.len))
        }
    } else if at(s, p, SyntaxKind::R_BRACKET) {
        cat(b, token(s, p, SyntaxKind::R_BRACKET, 1))
    } else if lexer::hint_at(s, p) is None {
        cat(b, fail(s, p, p, "expected ']' in flow sequence"@))
    } else {
        cat(b, fail(s, p, p, "expected ',' or ']' in flow sequence"@))
    }
}

/// One entry of a flow sequence.
pub open spec fn flow_sequence_entry(s: Seq<u8>, pos: int) -> Parsed
    decreases left(s, pos), 2nat,
{
    let a = if property_at(s, pos) {
        let b = properties(s, pos);
        if at(s, pos, SyntaxKind::ALIAS) {
            b
        } else {
            cat(b, trivia(s, pos + b.len))
        }
    } else {
        none()
    };
    let p = pos + a.len;
    let v = if a.fault is Some || at(s, pos, SyntaxKind::ALIAS) {
        a
    } else {
        cat(a, flow_sequence_value(s, p))
    };
    wrap(SyntaxKind::FLOW_SEQUENCE_ENTRY, cat(v, inline_trivia(s, pos + v.len)))
}

/// The value of a flow sequence entry: a collection, a scalar, a single pair
/// (which is wrapped as a mapping entry), or nothing.
pub open spec fn flow_sequence_value(s: Seq<u8>, pos: int) -> Parsed
    decreases left(s, pos), 1nat,
{
    if at(s, pos, SyntaxKind::L_BRACE) {
        flow_mapping(s, pos)
    } else if at(s, pos, SyntaxKind::L_BRACKET) {
        flow_sequence(s, pos)
    } else if scalar_at(s, pos) {
        let k = scalar_node(s, pos, PlainStop::FlowKey, None);
        let t = cat(k, trivia(s, pos + k.len));
        let p = pos + t.len;
        if t.fault is None && flow_separator(s, p, quoted_at(s, pos)) {
            let c = cat(t, token(s, p, SyntaxKind::COLON, 1));
            let v = cat(c, flow_value(s, pos + c.len));
            wrap(SyntaxKind::FLOW_MAPPING_ENTRY, cat(v, inline_trivia(s, pos + v.len)))
        } else {
            t
        }
    } else if at(s, pos, SyntaxKind::COMMA) || at(s, pos, SyntaxKind::R_BRACKET) || lexer::hint_at(
        s,
        pos,
    ) is None {
        none()
    } else {
        fail(s, pos, pos, "expected flow sequence entry"@)
    }
}

// ---- Block nodes ----

/// A block node whose content is indented by `indent`. The further lines of a
/// plain scalar are indented by more than `min`.
pub open spec fn block_node(s: Seq<u8>, pos: int, indent: int, min: usize) -> Parsed
    decreases left(s, pos), 6nat,
{
    match tab_before(s, pos) {
        Some(tab) => tab_fault(s, pos, tab),
        None => if property_at(s, pos) {
            let a = properties(s, pos);
            if a.fault is Some || at(s, pos, SyntaxKind::ALIAS) {
                a
            } else {
                proof {
                    lemma_properties_len(s, pos);
                }
                let b = cat(a, inline_trivia(s, pos + a.len));
                cat(b, propertied_node(s, pos + b.len, indent, min))
            }
        } else {
            block_content(s, pos, indent, min)
        },
    }
}

/// A block node behind its properties. The value may stand on a further line;
/// else the properties stand for a null.
pub open spec fn propertied_node(s: Seq<u8>, pos: int, indent: int, min: usize) -> Parsed
    decreases left(s, pos), 7nat,
{
    if lexer::hint_at(s, pos) is None || at(s, pos, SyntaxKind::NEWLINE) || at(
        s,
        pos,
        SyntaxKind::COMMENT,
    ) {
        match content_after(s, pos) {
            Some(c) if lexer::column_of(s, c) >= indent => {
                let t = trivia(s, pos);
                if any_marker(s, pos + t.len) {
                    t
                } else {
                    cat(t, block_node(s, pos + t.len, lexer::column_of(s, c), min))
                }
            },
            _ => none(),
        }
    } else {
        block_content(s, pos, indent, min)
    }
}

/// A block node, its properties aside.
pub open spec fn block_content(s: Seq<u8>, pos: int, indent: int, min: usize) -> Parsed
    decreases left(s, pos), 5nat,
{
    let w = leading_whitespace(s, pos);
    let p = pos + w.len;
    if at(s, p, SyntaxKind::L_BRACE) {
        cat(w, flow_mapping(s, p))
    } else if at(s, p, SyntaxKind::L_BRACKET) {
        cat(w, flow_sequence(s, p))
    } else if at(s, p, SyntaxKind::DASH) {
        block_sequence(s, pos, indent)
    } else if at(s, p, SyntaxKind::QUESTION) || scalar_at(s, p) {
        block_mapping_or_scalar(s, pos, indent, min)
    } else if block_scalar_at(s, p) {
        cat(w, block_scalar(s, p, indent))
    } else {
        match lexer::hint_at(s, p) {
            Some(LexHint::Token(k)) => unexpected(s, pos, k, ""@),
            _ => none(),
        }
    }
}

/// A scalar, or a mapping that begins with it as its first key; with a question
/// mark, a mapping that begins with an explicit key.
pub open spec fn block_mapping_or_scalar(s: Seq<u8>, pos: int, indent: int, min: usize) -> Parsed
    decreases left(s, pos), 4nat,
{
    let w = leading_whitespace(s, pos);
    let p = pos + w.len;
    if at(s, p, SyntaxKind::QUESTION) {
        let e = explicit_entry(s, pos, indent);
        wrap(SyntaxKind::BLOCK_MAPPING, cat(e, mapping_tail(s, pos + e.len, indent)))
    } else if quoted_at(s, p) {
        let c = lexer::quoted_close(s, p);
        if !c.closed {
            cat(w, fail(s, p, p, unterminated(s, p)))
        } else if lexer::block_colon(s, lexer::run_end(s, c.end, ByteClass::Blank)) {
            let k = cat(w, wrap(SyntaxKind::SCALAR, quoted_token(s, p)));
            mapping_from_key(s, pos, k, indent)
        } else {
            cat(w, wrap(SyntaxKind::SCALAR, quoted_token(s, p)))
        }
    } else if lexer::hint_at(s, p) == Some(LexHint::PlainStart) {
        let e = lexer::plain_end(s, p, PlainStop::BlockKey, None);
        if e == p {
            cat(w, fail(s, p, p, "expected scalar content"@))
        } else if lexer::block_colon(s, lexer::run_end(s, e, ByteClass::Blank)) {
            let k = cat(
                w,
                wrap(
                    SyntaxKind::SCALAR,
                    token(s, p, SyntaxKind::PLAIN_SCALAR, (e - p) as nat),
                ),
            );
            mapping_from_key(s, pos, k, indent)
        } else {
            let e2 = lexer::plain_end(s, p, PlainStop::BlockValue, Some(min));
            cat(
                w,
                wrap(
                    SyntaxKind::SCALAR,
                    token(s, p, SyntaxKind::PLAIN_SCALAR, (e2 - p) as nat),
                ),
            )
        }
    } else {
        cat(w, fail(s, p, p, "expected scalar"@))
    }
}

/// A block mapping from `pos` on, whose first key is `k`.
pub open spec fn mapping_from_key(s: Seq<u8>, pos: int, k: Parsed, indent: int) -> Parsed
    decreases left(s, pos), 3nat,
    when pos < s.len()
{
    let i = inline_trivia(s, pos + k.len);
    let p = pos + k.len + i.len;
    let v = entry_value(s, p + 1, indent);
    let l = inline_trivia(s, p + 1 + v.len);
    let c = cat(cat(k, i), token(s, p, SyntaxKind::COLON, 1));
    let e = wrap(SyntaxKind::BLOCK_MAPPING_ENTRY, cat(cat(c, v), l));
    wrap(
        SyntaxKind::BLOCK_MAPPING,
        cat(e, mapping_tail(s, p + 1 + v.len + l.len, indent)),
    )
}

/// What stands before the content of an entry's value: blanks, properties and
/// blanks, or an alias.
#[verifier::opaque]
pub open spec fn value_head(s: Seq<u8>, pos: int) -> Parsed {
    let i = inline_trivia(s, pos);
    let p = pos + i.len;
    if property_at(s, p) {
        let b = cat(i, properties(s, p));
        if at(s, p, SyntaxKind::ALIAS) {
            b
        } else {
            cat(b, inline_trivia(s, pos + b.len))
        }
    } else {
        i
    }
}

/// Whether the value of an entry is an alias.
#[verifier::opaque]
pub open spec fn value_is_alias(s: Seq<u8>, pos: int) -> bool {
    at(s, pos + inline_trivia(s, pos).len, SyntaxKind::ALIAS)
}

/// The value of a mapping entry, behind its colon; `indent` is the mapping's.
pub open spec fn entry_value(s: Seq<u8>, pos: int, indent: int) -> Parsed
    decreases left(s, pos), 9nat,
{
    let a = value_head(s, pos);
    if a.fault is Some || value_is_alias(s, pos) {
        a
    } else {
        cat(a, entry_content(s, pos + a.len, indent))
    }
}

/// The content of a mapping entry's value.
pub open spec fn entry_content(s: Seq<u8>, p: int, indent: int) -> Parsed
    decreases left(s, p), 8nat,
{
    if at(s, p, SyntaxKind::NEWLINE) {
        entry_value_below(s, p, indent)
    } else if at(s, p, SyntaxKind::L_BRACE) {
        flow_mapping(s, p)
    } else if at(s, p, SyntaxKind::L_BRACKET) {
        flow_sequence(s, p)
    } else if at(s, p, SyntaxKind::DASH) {
        block_sequence(s, p, lexer::column_of(s, p))
    } else if scalar_at(s, p) {
        scalar_node(s, p, PlainStop::BlockValue, Some(indent as usize))
    } else if block_scalar_at(s, p) {
        block_scalar(s, p, indent)
    } else {
        match lexer::hint_at(s, p) {
            Some(LexHint::Token(k)) => unexpected(s, p, k, ""@),
            _ => null_node(),
        }
    }
}

/// The value of a mapping entry that stands below the line of its colon: a node
/// that is indented by more than the mapping, or a sequence that is indented
/// like it. Else the value is null.
pub open spec fn entry_value_below(s: Seq<u8>, p: int, indent: int) -> Parsed
    decreases left(s, p), 7nat,
{
    let t = entry_trivia(s, p);
    match content_after(s, p) {
        Some(c) if lexer::column_of(s, c) > indent => cat(
            t,
            block_node(s, p + t.len, lexer::column_of(s, c), indent as usize),
        ),
        Some(c) if lexer::column_of(s, c) == indent && dash_at(s, c) => cat(
            t,
            block_sequence(s, p + t.len, indent),
        ),
        _ => null_node(),
    }
}

/// The key of an explicit mapping entry.
pub open spec fn explicit_key(s: Seq<u8>, p: int, indent: int) -> Parsed
    decreases left(s, p), 7nat,
{
    if at(s, p, SyntaxKind::NEWLINE) {
        let t = trivia(s, p);
        match content_after(s, p) {
            Some(c) if lexer::column_of(s, c) > indent => cat(
                t,
                block_node(
                    s,
                    p + t.len,
                    lexer::column_of(s, c),
                    lexer::column_of(s, c) as usize,
                ),
            ),
            _ => none(),
        }
    } else if scalar_at(s, p) {
        scalar_node(s, p, PlainStop::BlockValue, None)
    } else if at(s, p, SyntaxKind::L_BRACE) {
        flow_mapping(s, p)
    } else if at(s, p, SyntaxKind::L_BRACKET) {
        flow_sequence(s, p)
    } else if at(s, p, SyntaxKind::QUESTION) {
        block_node(s, p, lexer::column_of(s, p), lexer::column_of(s, p) as usize)
    } else {
        match lexer::hint_at(s, p) {
            Some(LexHint::Token(k)) => unexpected(s, p, k, " after '?'"@),
            _ => none(),
        }
    }
}

/// The value of an explicit mapping entry, where a colon stands at the mapping's
/// indentation.
pub open spec fn explicit_value(s: Seq<u8>, p: int, indent: int) -> Parsed
    decreases left(s, p), 1nat,
{
    if at(s, p, SyntaxKind::COLON) && lexer::column_of(s, p) == indent {
        cat(token(s, p, SyntaxKind::COLON, 1), entry_value(s, p + 1, indent))
    } else {
        none()
    }
}

/// An explicit mapping entry behind its question mark: the key and the value.
pub open spec fn explicit_rest(s: Seq<u8>, pos: int, indent: int) -> Parsed
    decreases left(s, pos), 8nat,
{
    let i = inline_trivia(s, pos);
    let k = cat(i, explicit_key(s, pos + i.len, indent));
    let t = cat(k, trivia(s, pos + k.len));
    let v = cat(t, explicit_value(s, pos + t.len, indent));
    cat(v, inline_trivia(s, pos + v.len))
}

/// An explicit mapping entry.
pub open spec fn explicit_entry(s: Seq<u8>, pos: int, indent: int) -> Parsed
    decreases left(s, pos), 1nat,
    when pos < s.len()
{
    let w = leading_whitespace(s, pos);
    let q = cat(w, token(s, pos + w.len, SyntaxKind::QUESTION, 1));
    let r = explicit_rest(s, pos + w.len + 1, indent);
    wrap(SyntaxKind::BLOCK_MAPPING_ENTRY, cat(q, r))
}

/// A mapping entry that begins with its key.
pub open spec fn implicit_entry(s: Seq<u8>, pos: int, indent: int) -> Parsed
    decreases left(s, pos), 1nat,
{
    let w = leading_whitespace(s, pos);
    let k = cat(w, scalar_node(s, pos + w.len, PlainStop::BlockKey, None));
    let i = cat(k, inline_trivia(s, pos + k.len));
    let p = pos + i.len;
    if i.fault is Some {
        wrap(SyntaxKind::BLOCK_MAPPING_ENTRY, i)
    } else if !lexer::block_colon(s, p) {
        let f = fail(s, p, p, "expected ':' after mapping key"@);
        wrap(SyntaxKind::BLOCK_MAPPING_ENTRY, cat(i, f))
    } else {
        let v = entry_value(s, p + 1, indent);
        let c = cat(cat(i, token(s, p, SyntaxKind::COLON, 1)), v);
        wrap(SyntaxKind::BLOCK_MAPPING_ENTRY, cat(c, inline_trivia(s, p + 1 + v.len)))
    }
}

/// The further entries of a block mapping at `indent`. (No entry is empty.)
pub open spec fn mapping_tail(s: Seq<u8>, pos: int, indent: int) -> Parsed
    decreases left(s, pos), 2nat,
{
    match content_after(s, pos) {
        None => none(),
        Some(c) => {
            proof {
                lemma_content_after(s, pos);
            }
            let t = entry_trivia(s, pos);
            let p = pos + t.len;
            let explicit = past_whitespace(s, p, SyntaxKind::QUESTION);
            if lexer::column_of(s, c) < indent {
                none()
            } else if lexer::column_of(s, c) > indent {
                fail(s, pos, pos, "unexpected indentation in block mapping"@)
            } else if any_marker(s, p) || !(explicit || scalar_past_whitespace(s, p)) {
                t
            } else {
                match tab_before(s, p) {
                    Some(tab) => cat(t, tab_fault(s, p, tab)),
                    None => {
                        let e = if explicit {
                            explicit_entry(s, p, indent)
                        } else {
                            implicit_entry(s, p, indent)
                        };
                        if e.len == 0 {
                            cat(t, e)
                        } else {
                            cat(cat(t, e), mapping_tail(s, p + e.len, indent))
                        }
                    },
                }
            }
        },
    }
}

/// Trivia between entries that something follows does not end with whitespace.
pub proof fn lemma_entry_trivia_end(s: Seq<u8>, pos: int)
    ensures
        ({
            let t = entry_trivia(s, pos);
            t.elems.len() > 0 && pos + t.len < s.len() ==> !t.elems.last().is_token_of(
                SyntaxKind::WHITESPACE,
            )
        }),
        forall|k: int|
            0 <= k < entry_trivia(s, pos).elems.len() ==> (#[trigger] entry_trivia(
                s,
                pos,
            ).elems[k]) is Token,
    decreases left(s, pos),
{
    reveal(entry_trivia);
    reveal(simple);
    let a = simple(s, pos);
    let next = pos + a.len;
    let t = entry_trivia(s, pos);
    if at(s, pos, SyntaxKind::NEWLINE) || at(s, pos, SyntaxKind::COMMENT) || at(
        s,
        pos,
        SyntaxKind::WHITESPACE,
    ) {
        lemma_simple_len(s, pos);
        lemma_entry_trivia_end(s, next);
        lemma_simple_blank(s, pos);
        let rest = entry_trivia(s, next);
        if t != none() && rest.elems.len() > 0 {
            assert(t.elems.last() == rest.elems.last());
        }
    }
}

/// A simple token is one tree; whitespace ends before something else.
proof fn lemma_simple_blank(s: Seq<u8>, pos: int)
    requires
        at(s, pos, SyntaxKind::NEWLINE) || at(s, pos, SyntaxKind::COMMENT) || at(
            s,
            pos,
            SyntaxKind::WHITESPACE,
        ),
    ensures
        simple(s, pos).elems.len() == 1,
        simple(s, pos).elems[0] is Token,
        simple(s, pos).elems[0].is_token_of(SyntaxKind::WHITESPACE) ==> at(
            s,
            pos,
            SyntaxKind::WHITESPACE,
        ) && !at(s, pos + simple(s, pos).len, SyntaxKind::WHITESPACE),
        forall|i: int| 0 <= i < s.len() ==> #[trigger] lexer::hint_at(s, i) is Some,
{
    reveal(simple);
    reveal(lexer::hint_of);
    lexer::lemma_run_end(s, pos, ByteClass::Blank);
    lexer::lemma_run_end(s, pos + 1, ByteClass::Blank);
    crate::syntax::kind::lemma_kind_round_trip(SyntaxKind::WHITESPACE);
    crate::syntax::kind::lemma_kind_round_trip(SyntaxKind::NEWLINE);
    crate::syntax::kind::lemma_kind_round_trip(SyntaxKind::COMMENT);
}

/// Entries, tokens that do not end with whitespace, and what follows.
pub proof fn lemma_clear_join(a: Seq<Tree>, t: Seq<Tree>, more: Seq<Tree>)
    requires
        clear::clear_row(a),
        clear::clear_row(more),
        a.len() > 0 ==> !a.last().is_token_of(SyntaxKind::WHITESPACE),
        forall|k: int| 0 <= k < t.len() ==> (#[trigger] t[k]) is Token,
        more.len() > 0 && more[0] is Node && t.len() > 0 ==> !t.last().is_token_of(
            SyntaxKind::WHITESPACE,
        ),
    ensures
        clear::clear_row(a + (t + more)),
{
    let all = a + (t + more);
    let m = a.len();
    let n = m + t.len();
    assert forall|k: int|
        1 <= k < all.len() && (#[trigger] all[k]).is_node_of(
            SyntaxKind::BLOCK_MAPPING_ENTRY,
        ) implies !all[k - 1].is_token_of(SyntaxKind::WHITESPACE) by {
        if k < m {
            assert(all[k] == a[k]);
            assert(all[k - 1] == a[k - 1]);
        } else if k < n {
            assert(all[k] == t[k - m]);
        } else if k == n {
            assert(all[k] == more[0]);
            if t.len() > 0 {
                assert(all[k - 1] == t.last());
            } else {
                assert(all[k - 1] == a.last());
            }
        } else {
            assert(all[k] == more[k - n]);
            assert(all[k - 1] == more[k - n - 1]);
        }
    }
}

/// A block sequence at `indent`.
pub open spec fn block_sequence(s: Seq<u8>, pos: int, indent: int) -> Parsed
    decreases left(s, pos), 4nat,
{
    match tab_before(s, pos) {
        Some(tab) => tab_fault(s, pos, tab),
        None => wrap(SyntaxKind::BLOCK_SEQUENCE, sequence_items(s, pos, none(), indent)),
    }
}

/// An entry of a block sequence.
pub open spec fn sequence_entry(s: Seq<u8>, pos: int, indent: int) -> Parsed
    decreases left(s, pos), 1nat,
    when pos < s.len()
{
    let w = leading_whitespace(s, pos);
    let d = cat(w, token(s, pos + w.len, SyntaxKind::DASH, 1));
    let r = sequence_entry_rest(s, pos + w.len + 1, indent);
    wrap(SyntaxKind::BLOCK_SEQUENCE_ENTRY, cat(d, r))
}

/// The entries of a block sequence from the dash on that stands at `pos` behind
/// the trivia `t` and whitespace. (No entry is empty.)
pub open spec fn sequence_items(s: Seq<u8>, pos: int, t: Parsed, indent: int) -> Parsed
    decreases left(s, pos), 2nat,
{
    let p = pos + t.len;
    if !past_whitespace(s, p, SyntaxKind::DASH) {
        t
    } else {
        match tab_before(s, p) {
            Some(tab) => cat(t, tab_fault(s, p, tab)),
            None => {
                let e = sequence_entry(s, p, indent);
                if e.len == 0 {
                    cat(t, e)
                } else {
                    cat(cat(t, e), sequence_tail(s, p + e.len, indent))
                }
            },
        }
    }
}

/// The further entries of a block sequence at `indent`.
pub open spec fn sequence_tail(s: Seq<u8>, pos: int, indent: int) -> Parsed
    decreases left(s, pos), 3nat,
{
    match content_after(s, pos) {
        None => none(),
        Some(c) => if lexer::column_of(s, c) < indent || !dash_at(s, c) {
            none()
        } else if lexer::column_of(s, c) > indent {
            fail(s, pos, pos, "unexpected indentation in block sequence"@)
        } else {
            sequence_items(s, pos, entry_trivia(s, pos), indent)
        },
    }
}

/// An entry of a block sequence, behind its dash.
pub open spec fn sequence_entry_rest(s: Seq<u8>, pos: int, indent: int) -> Parsed
    decreases left(s, pos), 8nat,
{
    let a = value_head(s, pos);
    let v = if a.fault is Some || value_is_alias(s, pos) {
        a
    } else {
        cat(a, sequence_entry_value(s, pos + a.len, indent))
    };
    cat(v, inline_trivia(s, pos + v.len))
}

/// The value of a block sequence entry.
pub open spec fn sequence_entry_value(s: Seq<u8>, p: int, indent: int) -> Parsed
    decreases left(s, p), 7nat,
{
    if at(s, p, SyntaxKind::NEWLINE) {
        let t = entry_trivia(s, p);
        match content_after(s, p) {
            Some(c) if lexer::column_of(s, c) > indent => cat(
                t,
                block_node(
                    s,
                    p + t.len,
                    lexer::column_of(s, c),
                    lexer::column_of(s, c) as usize,
                ),
            ),
            _ => null_node(),
        }
    } else if at(s, p, SyntaxKind::DASH) {
        block_sequence(s, p, lexer::column_of(s, p))
    } else if at(s, p, SyntaxKind::L_BRACE) {
        flow_mapping(s, p)
    } else if at(s, p, SyntaxKind::L_BRACKET) {
        flow_sequence(s, p)
    } else if block_scalar_at(s, p) {
        block_scalar(s, p, indent)
    } else if scalar_at(s, p) {
        block_mapping_or_scalar(s, p, lexer::column_of(s, p), indent as usize)
    } else {
        match lexer::hint_at(s, p) {
            Some(LexHint::Token(k)) => unexpected(s, p, k, " in sequence entry"@),
            _ => null_node(),
        }
    }
}

/// Between a key and its colon on the same line there are only blanks.
pub proof fn lemma_blanks_before_colon(s: Seq<u8>, e: int)
    requires
        0 <= e,
        lexer::block_colon(s, lexer::run_end(s, e, ByteClass::Blank)),
    ensures
        e + inline_trivia(s, e).len == lexer::run_end(s, e, ByteClass::Blank),
        inline_trivia(s, e).fault is None,
{
    reveal(inline_trivia);
    reveal(simple);
    let c = lexer::run_end(s, e, ByteClass::Blank);
    lexer::lemma_run_end(s, e, ByteClass::Blank);
    lexer::lemma_colon_hint(s, c);
    if e < c {
        lexer::lemma_blank_hint(s, e);
        assert(inline_trivia(s, c) == none());
    }
}

// ---- Documents ----

/// Directives in a row, with the trivia behind each.
#[verifier::opaque]
pub open spec fn directive_list(s: Seq<u8>, pos: int) -> Parsed
    decreases left(s, pos),
{
    if at(s, pos, SyntaxKind::DIRECTIVE) {
        let a = simple(s, pos);
        proof {
            lemma_simple_len(s, pos);
        }
        let b = cat(a, trivia(s, pos + a.len));
        cat(b, directive_list(s, pos + b.len))
    } else {
        none()
    }
}

/// The content of a document, which may be empty.
#[verifier::opaque]
pub open spec fn document_body(s: Seq<u8>, pos: int) -> Parsed {
    if pos >= s.len() || any_marker(s, pos) {
        none()
    } else {
        block_node(s, pos, lexer::column_of(s, pos), lexer::column_of(s, pos) as usize)
    }
}

/// One document at `pos`, with its directives and what may follow it. All
/// documents but the first need a `---`, as does one with directives.
#[verifier::opaque]
pub open spec fn document(s: Seq<u8>, pos: int, first: bool) -> Parsed {
    let d = if at(s, pos, SyntaxKind::DIRECTIVE) {
        wrap(SyntaxKind::DIRECTIVES, directive_list(s, pos))
    } else {
        none()
    };
    let p = pos + d.len;
    if start_marker(s, p) {
        let m = token(s, p, SyntaxKind::DIRECTIVES_END, 3);
        let t = cat(m, trivia(s, p + m.len));
        let b = cat(t, document_body(s, p + t.len));
        cat(d, document_end(s, p, wrap(SyntaxKind::DOCUMENT, b)))
    } else if at(s, pos, SyntaxKind::DIRECTIVE) {
        cat(d, fail(s, p, p, "expected '---' after directives"@))
    } else if !first {
        fail(s, pos, pos, "unexpected content after document; expected '---' or '...'"@)
    } else {
        document_end(s, pos, wrap(SyntaxKind::DOCUMENT, document_body(s, pos)))
    }
}

/// The documents from `pos` on. (No document but the first is empty.)
#[verifier::opaque]
pub open spec fn documents(s: Seq<u8>, pos: int, first: bool) -> Parsed
    decreases
            if first {
                1nat
            } else {
                0nat
            },
            left(s, pos),
{
    if pos >= s.len() {
        none()
    } else {
        let e = document(s, pos, first);
        if e.fault is Some || (!first && e.len == 0) {
            e
        } else {
            cat(e, documents(s, pos + e.len, false))
        }
    }
}

/// What may follow the document `d` that begins at `pos`: trivia, and a `...`
/// with trivia behind it.
pub open spec fn document_end(s: Seq<u8>, pos: int, d: Parsed) -> Parsed {
    let t = cat(d, trivia(s, pos + d.len));
    if t.fault is None && end_marker(s, pos + t.len) {
        let m = cat(t, token(s, pos + t.len, SyntaxKind::DOCUMENT_END, 3));
        cat(m, trivia(s, pos + m.len))
    } else {
        t
    }
}

/// A whole text: an optional byte order mark, trivia, the documents.
pub open spec fn stream(s: Seq<u8>) -> Parsed {
    let b = if at(s, 0, SyntaxKind::BOM) {
        simple(s, 0)
    } else {
        none()
    };
    let t = cat(b, trivia(s, b.len as int));
    wrap(SyntaxKind::STREAM, cat(t, documents(s, t.len as int, true)))
}

} // verus!

//! Trivia, and looking past it.

use vstd::prelude::*;
use vstd::utf8::*;

use crate::error::ParseError;
use crate::grammar;
use crate::lexer;
use crate::lexer::{run, ByteClass, LexHint, Lexer};
use crate::parser;
use crate::parser::Parser;
use crate::syntax::kind::SyntaxKind;
use crate::text;

verus! {

broadcast use vstd::utf8::encode_utf8_valid_utf8;

impl<'a> Parser<'a> {
    /// What the kind of the token here says of the byte here.
    pub(super) proof fn lemma_token_byte(&self)
        ensures
            ({
                let s = self.bytes();
                let i = self.at();
                &&& grammar::at(s, i, SyntaxKind::SINGLE_QUOTED_SCALAR) ==> lexer::byte_is(
                    s,
                    i,
                    0x27,
                )
                &&& grammar::at(s, i, SyntaxKind::DOUBLE_QUOTED_SCALAR) ==> lexer::byte_is(
                    s,
                    i,
                    0x22,
                )
                &&& grammar::at(s, i, SyntaxKind::ANCHOR) ==> lexer::byte_is(s, i, 0x26)
                &&& grammar::at(s, i, SyntaxKind::ALIAS) ==> lexer::byte_is(s, i, 0x2a)
                &&& grammar::at(s, i, SyntaxKind::TAG) ==> lexer::byte_is(s, i, 0x21)
                &&& grammar::at(s, i, SyntaxKind::LITERAL_SCALAR) ==> lexer::byte_is(s, i, 0x7c)
                &&& grammar::at(s, i, SyntaxKind::FOLDED_SCALAR) ==> lexer::byte_is(s, i, 0x3e)
                &&& lexer::byte_is(s, i, 0x3a) ==> grammar::at(s, i, SyntaxKind::COLON)
            }),
    {
        let s = self.bytes();
        let i = self.at();
        if let Some(LexHint::Token(k)) = lexer::hint_at(s, i) {
            lexer::lemma_simple_start(s, i, k);
        }
        if lexer::byte_is(s, i, 0x3a) {
            lexer::lemma_colon_hint(s, i);
        }
    }

    /// Adds the simple token at the place.
    pub(super) fn bump_simple(&mut self)
        requires
            old(self).good(),
            lexer::simple_at(old(self).bytes(), old(self).at()),
        ensures
            parser::made(*old(self), *final(self), grammar::simple(old(self).bytes(), old(self).at())),
            final(self).parents() == old(self).parents(),
            final(self).at() > old(self).at(),
            final(self).at() <= old(self).bytes().len(),
            grammar::simple(old(self).bytes(), old(self).at()).fault is None,
    {
        proof {
            reveal(grammar::simple);
        }
        let mut probe = Lexer { src: self.lex.src, pos: self.lex.pos };
        let (k, _) = probe.bump_simple();
        proof {
            lexer::lemma_simple_start(self.bytes(), self.at(), k);
            lexer::lemma_run_end(self.bytes(), self.at(), ByteClass::Blank);
        }
        self.token(k, probe.pos);
    }

    /// Adds the mark of kind `k` at the place.
    pub(super) fn bump_mark(&mut self, k: SyntaxKind)
        requires
            old(self).good(),
            grammar::at(old(self).bytes(), old(self).at(), k),
            grammar::is_mark(k),
        ensures
            parser::made(
                *old(self),
                *final(self),
                grammar::token(old(self).bytes(), old(self).at(), k, 1),
            ),
            final(self).parents() == old(self).parents(),
            final(self).at() == old(self).at() + 1,
    {
        proof {
            grammar::lemma_mark(self.bytes(), self.at(), k);
        }
        self.bump_simple();
    }

    /// Adds all trivia from the place on.
    pub(super) fn eat_trivia(&mut self)
        requires
            old(self).good(),
        ensures
            parser::made(*old(self), *final(self), grammar::trivia(old(self).bytes(), old(self).at())),
            grammar::trivia(old(self).bytes(), old(self).at()).fault is None,
            final(self).parents() == old(self).parents(),
    {
        proof {
            reveal(grammar::trivia);
        }
        let ghost a = *self;
        let ghost s = self.bytes();
        let ghost mut acc = grammar::none();
        proof {
            parser::lemma_cat_none(grammar::trivia(s, a.at()));
            assert(a.children() =~= a.children() + grammar::none().elems);
        }
        loop
            invariant_except_break
                grammar::cat(acc, grammar::trivia(s, self.at())) == grammar::trivia(s, a.at()),
            invariant
                parser::made(a, *self, acc),
                acc.fault is None,
                s == a.bytes(),
                self.parents() == a.parents(),
            ensures
                acc == grammar::trivia(s, a.at()),
            decreases s.len() - self.at(),
        {
            proof {
                reveal(grammar::trivia);
            }
            match self.lex.peek() {
                Some(LexHint::Token(k)) if k.is_trivia() => {
                    let ghost b = *self;
                    let ghost one = grammar::simple(s, b.at());
                    self.bump_simple();
                    proof {
                        parser::lemma_chain(a, b, *self, acc, one);
                        parser::lemma_cat_assoc(acc, one, grammar::trivia(s, self.at()));
                        acc = grammar::cat(acc, one);
                    }
                },
                _ => {
                    proof {
                        parser::lemma_cat_none(acc);
                    }
                    break;
                },
            }
        }
    }

    /// Adds the trivia up to the end of the line.
    pub(super) fn eat_inline_trivia(&mut self)
        requires
            old(self).good(),
        ensures
            parser::made(
                *old(self),
                *final(self),
                grammar::inline_trivia(old(self).bytes(), old(self).at()),
            ),
            grammar::inline_trivia(old(self).bytes(), old(self).at()).fault is None,
            final(self).parents() == old(self).parents(),
    {
        proof {
            reveal(grammar::inline_trivia);
        }
        let ghost a = *self;
        let ghost s = self.bytes();
        let ghost mut acc = grammar::none();
        proof {
            parser::lemma_cat_none(grammar::inline_trivia(s, a.at()));
            assert(a.children() =~= a.children() + grammar::none().elems);
        }
        loop
            invariant_except_break
                grammar::cat(acc, grammar::inline_trivia(s, self.at())) == grammar::inline_trivia(
                    s,
                    a.at(),
                ),
            invariant
                parser::made(a, *self, acc),
                acc.fault is None,
                s == a.bytes(),
                self.parents() == a.parents(),
            ensures
                acc == grammar::inline_trivia(s, a.at()),
            decreases s.len() - self.at(),
        {
            proof {
                reveal(grammar::inline_trivia);
            }
            match self.lex.peek() {
                Some(LexHint::Token(SyntaxKind::WHITESPACE | SyntaxKind::COMMENT)) => {
                    let ghost b = *self;
                    let ghost one = grammar::simple(s, b.at());
                    self.bump_simple();
                    proof {
                        parser::lemma_chain(a, b, *self, acc, one);
                        parser::lemma_cat_assoc(acc, one, grammar::inline_trivia(s, self.at()));
                        acc = grammar::cat(acc, one);
                    }
                },
                _ => {
                    proof {
                        parser::lemma_cat_none(acc);
                    }
                    break;
                },
            }
        }
    }

    /// What stands behind the simple token at the place.
    pub(super) fn peek_after_token(&self) -> (r: Option<LexHint>)
        requires
            self.good(),
            lexer::simple_at(self.bytes(), self.at()),
        ensures
            r == lexer::hint_at(
                self.bytes(),
                self.at() + grammar::simple(self.bytes(), self.at()).len,
            ),
    {
        proof {
            reveal(grammar::simple);
        }
        let mut probe = Lexer { src: self.lex.src, pos: self.lex.pos };
        let _ = probe.bump_simple();
        probe.peek()
    }

    /// What stands at the place behind the whitespace there.
    pub(super) fn peek_past_leading_whitespace(&self) -> (r: Option<LexHint>)
        requires
            self.good(),
        ensures
            r == grammar::hint_past_whitespace(self.bytes(), self.at()),
    {
        match self.lex.peek() {
            Some(LexHint::Token(SyntaxKind::WHITESPACE)) => self.peek_after_token(),
            other => other,
        }
    }

    /// Adds the trivia between two entries, all but the indentation of the
    /// second.
    pub(super) fn eat_trivia_except_entry_indent(&mut self)
        requires
            old(self).good(),
        ensures
            parser::made(
                *old(self),
                *final(self),
                grammar::entry_trivia(old(self).bytes(), old(self).at()),
            ),
            grammar::entry_trivia(old(self).bytes(), old(self).at()).fault is None,
            final(self).parents() == old(self).parents(),
    {
        proof {
            reveal(grammar::entry_trivia);
        }
        let ghost a = *self;
        let ghost s = self.bytes();
        let ghost mut acc = grammar::none();
        proof {
            parser::lemma_cat_none(grammar::entry_trivia(s, a.at()));
            assert(a.children() =~= a.children() + grammar::none().elems);
        }
        loop
            invariant_except_break
                grammar::cat(acc, grammar::entry_trivia(s, self.at())) == grammar::entry_trivia(
                    s,
                    a.at(),
                ),
            invariant
                parser::made(a, *self, acc),
                acc.fault is None,
                s == a.bytes(),
                self.parents() == a.parents(),
            ensures
                acc == grammar::entry_trivia(s, a.at()),
            decreases s.len() - self.at(),
        {
            proof {
                reveal(grammar::entry_trivia);
            }
            let eat = match self.lex.peek() {
                Some(LexHint::Token(SyntaxKind::NEWLINE | SyntaxKind::COMMENT)) => true,
                Some(LexHint::Token(SyntaxKind::WHITESPACE)) => match self.peek_after_token() {
                    Some(
                        LexHint::Token(
                            SyntaxKind::WHITESPACE | SyntaxKind::NEWLINE | SyntaxKind::COMMENT,
                        ),
                    )
                    | None => true,
                    _ => false,
                },
                _ => false,
            };
            if !eat {
                proof {
                    parser::lemma_cat_none(acc);
                }
                break;
            }
            let ghost b = *self;
            let ghost one = grammar::simple(s, b.at());
            self.bump_simple();
            proof {
                parser::lemma_chain(a, b, *self, acc, one);
                parser::lemma_cat_assoc(acc, one, grammar::entry_trivia(s, self.at()));
                acc = grammar::cat(acc, one);
            }
        }
    }

    /// Adds the whitespace at the place, if there is any.
    pub(super) fn eat_leading_whitespace(&mut self)
        requires
            old(self).good(),
        ensures
            parser::made(
                *old(self),
                *final(self),
                grammar::leading_whitespace(old(self).bytes(), old(self).at()),
            ),
            grammar::leading_whitespace(old(self).bytes(), old(self).at()).fault is None,
            final(self).parents() == old(self).parents(),
    {
        match self.lex.peek() {
            Some(LexHint::Token(SyntaxKind::WHITESPACE)) => {
                self.bump_simple();
            },
            _ => {
                assert(self.children() =~= old(self).children() + grammar::none().elems);
            },
        }
    }

    /// The first place from here on that is neither whitespace nor in a comment.
    pub(super) fn content_after(&self) -> (r: Option<usize>)
        requires
            self.good(),
        ensures
            match r {
                Some(i) => grammar::content_after(self.bytes(), self.at()) == Some(i as int)
                    && self.at() <= i < self.bytes().len(),
                None => grammar::content_after(self.bytes(), self.at()) is None,
            },
    {
        proof {
            reveal(grammar::content_after);
        }
        let bytes = self.lex.src.as_bytes();
        let ghost s = bytes@;
        let mut i: usize = self.lex.pos;
        proof {
            grammar::lemma_content_after(s, self.at());
        }
        while i < bytes.len()
            invariant
                bytes@ == s,
                s == self.bytes(),
                self.at() <= i <= s.len(),
                grammar::content_after(s, self.at()) == grammar::content_after(s, i as int),
            decreases s.len() - i,
        {
            proof {
                reveal(grammar::content_after);
            }
            let b = bytes[i];
            if b == 0x20 || b == 0x09 || b == 0x0a || b == 0x0d {
                i = i + 1;
            } else if b == 0x23 {
                proof {
                    lexer::lemma_run_end(s, i + 1, ByteClass::Line);
                }
                i = run(bytes, i, ByteClass::Line);
            } else {
                return Some(i);
            }
        }
        None
    }

    /// The column of the next content, and whether a dash that opens a
    /// sequence entry stands there.
    pub(super) fn column_past_trivia(&self) -> (r: Option<(usize, bool)>)
        requires
            self.good(),
        ensures
            match grammar::content_after(self.bytes(), self.at()) {
                Some(i) => r == Some(
                    (
                        lexer::column_of(self.bytes(), i) as usize,
                        grammar::dash_at(self.bytes(), i),
                    ),
                ) && 0 <= lexer::column_of(self.bytes(), i) <= i < self.bytes().len(),
                None => r is None,
            },
    {
        match self.content_after() {
            Some(i) => {
                let bytes = self.lex.src.as_bytes();
                let probe = Lexer { src: self.lex.src, pos: i };
                let dash = bytes[i] == 0x2d && (i + 1 >= bytes.len() || bytes[i + 1] == 0x20
                    || bytes[i + 1] == 0x09 || bytes[i + 1] == 0x0a || bytes[i + 1] == 0x0d);
                Some((probe.column(), dash))
            },
            None => None,
        }
    }

    /// The first tab on the current line, up to the end of the whitespace here.
    pub(super) fn tab_before(&self) -> (r: Option<usize>)
        requires
            self.good(),
        ensures
            match r {
                Some(i) => grammar::tab_before(self.bytes(), self.at()) == Some(i as int) && i
                    < self.bytes().len(),
                None => grammar::tab_before(self.bytes(), self.at()) is None,
            },
    {
        proof {
            reveal(grammar::tab_before);
            reveal(lexer::column_of);
        }
        let bytes = self.lex.src.as_bytes();
        let ghost s = bytes@;
        let pos = self.lex.pos;
        let start = pos - self.lex.column();
        let end = run(bytes, pos, ByteClass::Blank);
        let mut i: usize = start;
        while i < end
            invariant
                bytes@ == s,
                s == self.bytes(),
                end <= s.len(),
                start <= i,
                grammar::tab_before(self.bytes(), self.at()) == grammar::first_tab(
                    s,
                    i as int,
                    end as int,
                ),
            decreases end - i,
        {
            if bytes[i] == 0x09 {
                return Some(i);
            }
            i = i + 1;
        }
        None
    }

    /// The error for a tab on the current line before the content here, if
    /// there is one.
    pub(super) fn reject_tab_indent_at_line_start(&mut self) -> (r: Result<(), ParseError>)
        requires
            old(self).good(),
        ensures
            final(self).parents() == old(self).parents(),
            match grammar::tab_before(old(self).bytes(), old(self).at()) {
                Some(tab) => {
                    let f = grammar::tab_fault(old(self).bytes(), old(self).at(), tab);
                    parser::made(*old(self), *final(self), f) && parser::outcome(r, f.fault)
                },
                None => r is Ok && *final(self) == *old(self),
            },
    {
        match self.tab_before() {
            Some(i) => Err(self.fail(i, "tabs not allowed in indentation")),
            None => Ok(()),
        }
    }

    /// Whether the byte `b` stands here three times at the start of a line, set
    /// off from what follows.
    pub(super) fn at_line_start_marker(&self, b: u8) -> (r: bool)
        requires
            self.good(),
        ensures
            r == grammar::line_marker(self.bytes(), self.at(), b),
            r ==> self.at() + 3 <= self.bytes().len(),
    {
        proof {
            reveal(grammar::line_marker);
        }
        if self.lex.column() != 0 {
            return false;
        }
        let bytes = self.lex.src.as_bytes();
        let i = self.lex.pos;
        let len = bytes.len();
        if len - i < 3 {
            return false;
        }
        bytes[i] == b && bytes[i + 1] == b && bytes[i + 2] == b && (i + 3 >= len || bytes[i + 3]
            == 0x20 || bytes[i + 3] == 0x09 || bytes[i + 3] == 0x0a || bytes[i + 3] == 0x0d)
    }

    /// Whether `---` stands here as a document marker.
    pub(super) fn at_document_start_marker(&self) -> (r: bool)
        requires
            self.good(),
        ensures
            r == grammar::start_marker(self.bytes(), self.at()),
            r ==> self.at() + 3 <= self.bytes().len(),
    {
        self.at_line_start_marker(0x2d)
    }

    /// Whether `...` stands here as a document marker.
    pub(super) fn at_document_end_marker(&self) -> (r: bool)
        requires
            self.good(),
        ensures
            r == grammar::end_marker(self.bytes(), self.at()),
            r ==> self.at() + 3 <= self.bytes().len(),
    {
        self.at_line_start_marker(0x2e)
    }

    /// Adds the document marker here, as a token of kind `k`.
    pub(super) fn bump_marker(&mut self, k: SyntaxKind)
        requires
            old(self).good(),
            grammar::any_marker(old(self).bytes(), old(self).at()),
            k != SyntaxKind::WHITESPACE,
        ensures
            parser::made(
                *old(self),
                *final(self),
                grammar::token(old(self).bytes(), old(self).at(), k, 3),
            ),
            final(self).parents() == old(self).parents(),
    {
        proof {
            reveal(grammar::line_marker);
        }
        let len = self.lex.src.as_bytes().len();
        proof {
            text::lemma_boundary(self.bytes(), self.at() + 3);
        }
        let end = self.lex.pos + 3;
        self.token(k, end);
    }

    /// Whether a token of kind `k` stands here.
    pub(super) fn at_kind(&self, k: SyntaxKind) -> (r: bool)
        ensures
            r == grammar::at(self.bytes(), self.at(), k),
    {
        match self.lex.peek() {
            Some(LexHint::Token(x)) => x == k,
            _ => false,
        }
    }

    /// Whether an anchor, an alias or a tag stands here.
    pub(super) fn at_node_property_start(&self) -> (r: bool)
        ensures
            r == grammar::property_at(self.bytes(), self.at()),
    {
        self.at_kind(SyntaxKind::ANCHOR) || self.at_kind(SyntaxKind::ALIAS) || self.at_kind(
            SyntaxKind::TAG,
        )
    }
}

} // verus!

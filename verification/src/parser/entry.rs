//! The values of block mapping entries.

use vstd::prelude::*;
use vstd::utf8::*;

use crate::error::ParseError;
use crate::grammar;
use crate::lexer::{LexHint, PlainStop};
use crate::parser;
use crate::parser::Parser;
use crate::syntax::kind::SyntaxKind;

verus! {

broadcast use vstd::utf8::encode_utf8_valid_utf8;

impl<'a> Parser<'a> {
    /// Adds the colon of a mapping entry, and its value.
    pub(super) fn finish_block_mapping_entry_body(&mut self, indent: usize) -> (r: Result<(), ParseError>)
        requires
            old(self).good(),
            old(self).roomy(),
            grammar::at(old(self).bytes(), old(self).at(), SyntaxKind::COLON),
        ensures
            ({
                let s = old(self).bytes();
                let pos = old(self).at();
                let p = grammar::cat(
                    grammar::token(s, pos, SyntaxKind::COLON, 1),
                    grammar::entry_value(s, pos + 1, indent as int),
                );
                parser::made(*old(self), *final(self), p) && parser::outcome(r, p.fault)
            }),
            final(self).parents() == old(self).parents(),
            r is Ok ==> final(self).at() > old(self).at(),
        decreases grammar::left(old(self).bytes(), old(self).at()), 0nat,
    {
        let ghost a = *self;
        let ghost s = self.bytes();
        self.bump_mark(SyntaxKind::COLON);
        let ghost b = *self;
        let r = self.parse_entry_value(indent);
        proof {
            parser::lemma_chain(
                a,
                b,
                *self,
                grammar::token(s, a.at(), SyntaxKind::COLON, 1),
                grammar::entry_value(s, b.at(), indent as int),
            );
        }
        r
    }

    #[verifier::rlimit(60)]
    /// Adds the value of an entry of the mapping at `indent`.
    pub(super) fn parse_entry_value(&mut self, indent: usize) -> (r: Result<(), ParseError>)
        requires
            old(self).good(),
            old(self).roomy(),
        ensures
            parser::made(*old(self), *final(self), grammar::entry_value(old(self).bytes(), old(self).at(), indent as int)),
            parser::outcome(r, grammar::entry_value(old(self).bytes(), old(self).at(), indent as int).fault),
            final(self).parents() == old(self).parents(),
        decreases grammar::left(old(self).bytes(), old(self).at()), 9nat,
    {
        let ghost a = *self;
        let ghost s = self.bytes();
        let ghost pos = a.at();
        let ghost acc = grammar::value_head(s, pos);
        match self.parse_value_head() {
            Err(e) => {
                return Err(e);
            },
            Ok(alias) => {
                if alias {
                    return Ok(());
                }
            },
        }
        let ghost b = *self;
        let r = self.parse_entry_content(indent);
        proof {
            parser::lemma_chain(a, b, *self, acc, grammar::entry_content(s, b.at(), indent as int));
        }
        r
    }

    /// Adds the content of the value of an entry of the mapping at `indent`.
    pub(super) fn parse_entry_content(&mut self, indent: usize) -> (r: Result<(), ParseError>)
        requires
            old(self).good(),
            old(self).roomy(),
        ensures
            parser::made(
                *old(self),
                *final(self),
                grammar::entry_content(old(self).bytes(), old(self).at(), indent as int),
            ),
            parser::outcome(
                r,
                grammar::entry_content(old(self).bytes(), old(self).at(), indent as int).fault,
            ),
            final(self).parents() == old(self).parents(),
        decreases grammar::left(old(self).bytes(), old(self).at()), 8nat,
    {
        match self.lex.peek() {
            None => {
                self.emit_null();
                Ok(())
            },
            Some(LexHint::Token(SyntaxKind::NEWLINE)) => self.parse_entry_value_below(indent),
            Some(LexHint::Token(SyntaxKind::L_BRACE)) => self.parse_flow_mapping(),
            Some(LexHint::Token(SyntaxKind::L_BRACKET)) => self.parse_flow_sequence(),
            Some(LexHint::Token(SyntaxKind::DASH)) => {
                let col = self.lex.column();
                self.parse_block_sequence(col)
            },
            Some(
                LexHint::PlainStart
                | LexHint::Token(
                    SyntaxKind::SINGLE_QUOTED_SCALAR | SyntaxKind::DOUBLE_QUOTED_SCALAR,
                ),
            ) => self.parse_scalar_as_node(PlainStop::BlockValue, Some(indent)),
            Some(LexHint::Token(SyntaxKind::LITERAL_SCALAR | SyntaxKind::FOLDED_SCALAR)) => {
                self.parse_block_scalar(indent)
            },
            Some(LexHint::Token(k)) => Err(self.unexpected(k, "")),
        }
    }

    #[verifier::rlimit(40)]
    /// Adds the value of a mapping entry that stands below its key, if there is one.
    pub(super) fn parse_entry_value_below(&mut self, indent: usize) -> (r: Result<(), ParseError>)
        requires
            old(self).good(),
            old(self).roomy(),
            grammar::at(old(self).bytes(), old(self).at(), SyntaxKind::NEWLINE),
        ensures
            parser::made(*old(self), *final(self), grammar::entry_value_below(old(self).bytes(), old(self).at(), indent as int)),
            parser::outcome(r, grammar::entry_value_below(old(self).bytes(), old(self).at(), indent as int).fault),
            final(self).parents() == old(self).parents(),
        decreases grammar::left(old(self).bytes(), old(self).at()), 7nat,
    {
        let ghost a = *self;
        let ghost s = self.bytes();
        let ghost pos = a.at();
        let ghost t = grammar::entry_trivia(s, pos);
        match self.column_past_trivia() {
            Some((col, _)) if col > indent => {
                self.eat_trivia_except_entry_indent();
                let ghost b = *self;
                // The further lines of a plain scalar are bounded by the mapping,
                // not by the column where the value begins.
                let r = self.parse_block_node(col, indent);
                proof {
                    parser::lemma_chain(
                        a,
                        b,
                        *self,
                        t,
                        grammar::block_node(s, b.at(), col as int, indent),
                    );
                }
                r
            },
            Some((col, dash)) if col == indent && dash => {
                self.eat_trivia_except_entry_indent();
                let ghost b = *self;
                let r = self.parse_block_sequence(col);
                proof {
                    parser::lemma_chain(
                        a,
                        b,
                        *self,
                        t,
                        grammar::block_sequence(s, b.at(), col as int),
                    );
                }
                r
            },
            _ => {
                self.emit_null();
                Ok(())
            },
        }
    }
}

} // verus!

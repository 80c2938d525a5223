//! Mapping entries with explicit keys.

use vstd::prelude::*;
use vstd::utf8::*;

use crate::error::ParseError;
use crate::grammar;
use crate::lexer::{LexHint, PlainStop};
use crate::parser;
use crate::parser::Parser;
use crate::syntax::kind::SyntaxKind;

verus! {

broadcast use vstd::utf8::encode_utf8_valid_utf8;

impl<'a> Parser<'a> {
    #[verifier::rlimit(40)]
    /// Adds an explicit mapping entry: `? key` and, below it, `: value`.
    pub(super) fn parse_explicit_block_mapping_entry(&mut self, indent: usize) -> (r: Result<(), ParseError>)
        requires
            old(self).good(),
            grammar::past_whitespace(old(self).bytes(), old(self).at(), SyntaxKind::QUESTION),
        ensures
            parser::made(*old(self), *final(self), grammar::explicit_entry(old(self).bytes(), old(self).at(), indent as int)),
            parser::outcome(r, grammar::explicit_entry(old(self).bytes(), old(self).at(), indent as int).fault),
            final(self).parents() == old(self).parents(),
            r is Ok ==> final(self).at() > old(self).at(),
        decreases grammar::left(old(self).bytes(), old(self).at()), 1nat,
    {
        let ghost a = *self;
        let ghost s = self.bytes();
        let ghost pos = a.at();
        self.start(SyntaxKind::BLOCK_MAPPING_ENTRY);
        let ghost b = *self;
        let ghost w = grammar::leading_whitespace(s, pos);
        self.eat_leading_whitespace();
        let ghost c = *self;
        self.bump_mark(SyntaxKind::QUESTION);
        let ghost m = grammar::token(s, c.at(), SyntaxKind::QUESTION, 1);
        let ghost q = grammar::cat(w, m);
        proof {
            parser::lemma_chain(a, b, c, grammar::none(), w);
            parser::lemma_cat_none(w);
            parser::lemma_chain(a, c, *self, w, m);
        }
        let ghost d = *self;
        assert(d.at() == pos + w.len + 1);
        let r = self.parse_explicit_rest(indent);
        let ghost rest = grammar::explicit_rest(s, d.at(), indent as int);
        proof {
            parser::lemma_chain(a, d, *self, q, rest);
        }
        self.finish(
            Ghost(SyntaxKind::BLOCK_MAPPING_ENTRY),
            Ghost(a),
            Ghost(grammar::cat(q, rest)),
        );
        assert(self.parents() =~= a.parents());
        r
    }

    #[verifier::rlimit(40)]
    /// Adds an explicit mapping entry, behind its question mark.
    pub(super) fn parse_explicit_rest(&mut self, indent: usize) -> (r: Result<(), ParseError>)
        requires
            old(self).good(),
            old(self).roomy(),
        ensures
            parser::made(*old(self), *final(self), grammar::explicit_rest(old(self).bytes(), old(self).at(), indent as int)),
            parser::outcome(r, grammar::explicit_rest(old(self).bytes(), old(self).at(), indent as int).fault),
            final(self).parents() == old(self).parents(),
        decreases grammar::left(old(self).bytes(), old(self).at()), 8nat,
    {
        let ghost a = *self;
        let ghost s = self.bytes();
        let ghost pos = a.at();
        let ghost i = grammar::inline_trivia(s, pos);
        self.eat_inline_trivia();
        let ghost b = *self;
        let ghost key = grammar::explicit_key(s, b.at(), indent as int);
        let r = self.parse_explicit_key(indent);
        let ghost k = grammar::cat(i, key);
        proof {
            parser::lemma_chain(a, b, *self, i, key);
        }
        if r.is_err() {
            assert(grammar::explicit_rest(s, pos, indent as int) == k);
            return r;
        }
        let ghost c = *self;
        self.eat_trivia();
        let ghost t = grammar::cat(k, grammar::trivia(s, c.at()));
        proof {
            parser::lemma_chain(a, c, *self, k, grammar::trivia(s, c.at()));
        }
        let ghost d = *self;
        let ghost v = grammar::cat(t, grammar::explicit_value(s, d.at(), indent as int));
        let r = self.parse_explicit_value(indent);
        proof {
            parser::lemma_chain(
                a,
                d,
                *self,
                t,
                grammar::explicit_value(s, d.at(), indent as int),
            );
        }
        if r.is_err() {
            assert(grammar::explicit_rest(s, pos, indent as int) == v);
            return r;
        }
        let ghost f = *self;
        self.eat_inline_trivia();
        proof {
            parser::lemma_chain(a, f, *self, v, grammar::inline_trivia(s, f.at()));
        }
        Ok(())
    }

    /// Adds the value of an explicit mapping entry, if there is one.
    pub(super) fn parse_explicit_value(&mut self, indent: usize) -> (r: Result<(), ParseError>)
        requires
            old(self).good(),
            old(self).roomy(),
        ensures
            parser::made(*old(self), *final(self), grammar::explicit_value(old(self).bytes(), old(self).at(), indent as int)),
            parser::outcome(r, grammar::explicit_value(old(self).bytes(), old(self).at(), indent as int).fault),
            final(self).parents() == old(self).parents(),
        decreases grammar::left(old(self).bytes(), old(self).at()), 1nat,
    {
        if self.at_kind(SyntaxKind::COLON) && self.lex.column() == indent {
            return self.finish_block_mapping_entry_body(indent);
        }
        assert(self.children() =~= old(self).children() + grammar::none().elems);
        Ok(())
    }

    #[verifier::rlimit(40)]
    /// Adds the key of an explicit mapping entry.
    pub(super) fn parse_explicit_key(&mut self, indent: usize) -> (r: Result<(), ParseError>)
        requires
            old(self).good(),
            old(self).roomy(),
        ensures
            parser::made(*old(self), *final(self), grammar::explicit_key(old(self).bytes(), old(self).at(), indent as int)),
            parser::outcome(r, grammar::explicit_key(old(self).bytes(), old(self).at(), indent as int).fault),
            final(self).parents() == old(self).parents(),
        decreases grammar::left(old(self).bytes(), old(self).at()), 7nat,
    {
        let ghost a = *self;
        let ghost s = self.bytes();
        let ghost pos = a.at();
        match self.lex.peek() {
            None => {
                assert(self.children() =~= a.children() + grammar::none().elems);
                Ok(())
            },
            Some(LexHint::Token(SyntaxKind::NEWLINE)) => {
                let col = match self.column_past_trivia() {
                    Some((col, _)) => col,
                    None => {
                        assert(self.children() =~= a.children() + grammar::none().elems);
                        return Ok(());
                    },
                };
                if col <= indent {
                    assert(self.children() =~= a.children() + grammar::none().elems);
                    return Ok(());
                }
                self.eat_trivia();
                let ghost b = *self;
                let r = self.parse_block_node(col, col);
                proof {
                    parser::lemma_chain(
                        a,
                        b,
                        *self,
                        grammar::trivia(s, pos),
                        grammar::block_node(s, b.at(), col as int, col),
                    );
                }
                r
            },
            Some(
                LexHint::PlainStart
                | LexHint::Token(
                    SyntaxKind::SINGLE_QUOTED_SCALAR | SyntaxKind::DOUBLE_QUOTED_SCALAR,
                ),
            ) => self.parse_scalar_as_node(PlainStop::BlockValue, None),
            Some(LexHint::Token(SyntaxKind::L_BRACE)) => self.parse_flow_mapping(),
            Some(LexHint::Token(SyntaxKind::L_BRACKET)) => self.parse_flow_sequence(),
            Some(LexHint::Token(SyntaxKind::QUESTION)) => {
                let col = self.lex.column();
                self.parse_block_node(col, col)
            },
            Some(LexHint::Token(k)) => Err(self.unexpected(k, " after '?'")),
        }
    }
}

} // verus!

//! Block sequences.

use vstd::prelude::*;
use vstd::utf8::*;

use crate::error::ParseError;
use crate::grammar;
use crate::lexer::LexHint;
use crate::parser;
use crate::parser::Parser;
use crate::syntax::kind::SyntaxKind;

verus! {

broadcast use vstd::utf8::encode_utf8_valid_utf8;

impl<'a> Parser<'a> {
    #[verifier::rlimit(40)]
    /// Adds a block sequence at `indent`.
    pub(super) fn parse_block_sequence(&mut self, indent: usize) -> (r: Result<(), ParseError>)
        requires
            old(self).good(),
        ensures
            parser::made(*old(self), *final(self), grammar::block_sequence(old(self).bytes(), old(self).at(), indent as int)),
            parser::outcome(r, grammar::block_sequence(old(self).bytes(), old(self).at(), indent as int).fault),
            final(self).parents() == old(self).parents(),
        decreases grammar::left(old(self).bytes(), old(self).at()), 4nat,
    {
        let ghost a = *self;
        let ghost s = self.bytes();
        let ghost pos = a.at();
        match self.reject_tab_indent_at_line_start() {
            Err(e) => {
                return Err(e);
            },
            Ok(_) => {},
        }
        self.start(SyntaxKind::BLOCK_SEQUENCE);
        let ghost b = *self;
        let ghost inner = grammar::sequence_items(s, pos, grammar::none(), indent as int);
        let r = self.parse_sequence_items(indent);
        proof {
            parser::lemma_chain(a, b, *self, grammar::none(), inner);
            parser::lemma_cat_none(inner);
        }
        self.finish(Ghost(SyntaxKind::BLOCK_SEQUENCE), Ghost(a), Ghost(inner));
        assert(self.parents() =~= a.parents());
        r
    }

    #[verifier::rlimit(60)]
    /// Adds the entries of the block sequence at `indent`.
    pub(super) fn parse_sequence_items(&mut self, indent: usize) -> (r: Result<(), ParseError>)
        requires
            old(self).good(),
        ensures
            parser::made(*old(self), *final(self), grammar::sequence_items(old(self).bytes(), old(self).at(), grammar::none(), indent as int)),
            parser::outcome(r, grammar::sequence_items(old(self).bytes(), old(self).at(), grammar::none(), indent as int).fault),
            final(self).parents() == old(self).parents(),
        decreases grammar::left(old(self).bytes(), old(self).at()), 2nat,
    {
        let ghost a = *self;
        let ghost s = self.bytes();
        let ghost goal = grammar::sequence_items(s, a.at(), grammar::none(), indent as int);
        let ghost mut acc = grammar::none();
        let mut first = true;
        proof {
            assert(a.children() =~= a.children() + grammar::none().elems);
        }
        loop
            invariant
                a == *old(self),
                parser::made(a, *self, acc),
                acc.fault is None,
                s == a.bytes(),
                self.parents() == a.parents(),
                goal == grammar::sequence_items(s, a.at(), grammar::none(), indent as int),
                first ==> acc == grammar::none(),
                !first ==> grammar::cat(
                    acc,
                    grammar::sequence_tail(s, self.at(), indent as int),
                ) == goal,
            decreases s.len() - self.at(),
        {
            let ghost b = *self;
            let ghost pos = b.at();
            let ghost mut t = grammar::none();
            if !first {
                let (col, dash) = match self.column_past_trivia() {
                    None => {
                        proof {
                            parser::lemma_cat_none(acc);
                        }
                        return Ok(());
                    },
                    Some(x) => x,
                };
                if col < indent || !dash {
                    proof {
                        parser::lemma_cat_none(acc);
                    }
                    return Ok(());
                }
                if col > indent {
                    let here = self.lex.pos;
                    let x = self.fail(here, "unexpected indentation in block sequence");
                    proof {
                        parser::lemma_chain(
                            a,
                            b,
                            *self,
                            acc,
                            grammar::sequence_tail(s, pos, indent as int),
                        );
                    }
                    return Err(x);
                }
                proof {
                    t = grammar::entry_trivia(s, pos);
                }
                self.eat_trivia_except_entry_indent();
            } else {
                assert(b.children() =~= b.children() + grammar::none().elems);
            }
            let ghost c = *self;
            let ghost rest = grammar::sequence_items(s, pos, t, indent as int);
            proof {
                parser::lemma_chain(a, b, c, acc, t);
                parser::lemma_cat_none(rest);
                assert(grammar::cat(acc, rest) == goal);
            }
            first = false;
            let at_dash = match self.peek_past_leading_whitespace() {
                Some(LexHint::Token(SyntaxKind::DASH)) => true,
                _ => false,
            };
            if !at_dash {
                return Ok(());
            }
            match self.reject_tab_indent_at_line_start() {
                Err(x) => {
                    proof {
                        let tab = grammar::tab_before(s, c.at())->0;
                        let f = grammar::tab_fault(s, c.at(), tab);
                        parser::lemma_chain(b, c, *self, t, f);
                        parser::lemma_chain(a, b, *self, acc, grammar::cat(t, f));
                    }
                    return Err(x);
                },
                Ok(_) => {},
            }
            let ghost e = grammar::sequence_entry(s, c.at(), indent as int);
            let r = self.parse_block_sequence_entry(indent);
            proof {
                parser::lemma_chain(b, c, *self, t, e);
                parser::lemma_chain(a, b, *self, acc, grammar::cat(t, e));
            }
            if r.is_err() {
                return r;
            }
            proof {
                parser::lemma_cat_assoc(
                    acc,
                    grammar::cat(t, e),
                    grammar::sequence_tail(s, self.at(), indent as int),
                );
                acc = grammar::cat(acc, grammar::cat(t, e));
            }
        }
    }

    #[verifier::rlimit(40)]
    /// Adds an entry of the block sequence at `indent`.
    pub(super) fn parse_block_sequence_entry(&mut self, indent: usize) -> (r: Result<(), ParseError>)
        requires
            old(self).good(),
            grammar::past_whitespace(old(self).bytes(), old(self).at(), SyntaxKind::DASH),
        ensures
            parser::made(*old(self), *final(self), grammar::sequence_entry(old(self).bytes(), old(self).at(), indent as int)),
            parser::outcome(r, grammar::sequence_entry(old(self).bytes(), old(self).at(), indent as int).fault),
            final(self).parents() == old(self).parents(),
            r is Ok ==> final(self).at() > old(self).at(),
        decreases grammar::left(old(self).bytes(), old(self).at()), 1nat,
    {
        let ghost a = *self;
        let ghost s = self.bytes();
        let ghost pos = a.at();
        self.start(SyntaxKind::BLOCK_SEQUENCE_ENTRY);
        let ghost b = *self;
        let ghost w = grammar::leading_whitespace(s, pos);
        self.eat_leading_whitespace();
        let ghost c = *self;
        self.bump_mark(SyntaxKind::DASH);
        let ghost m = grammar::token(s, c.at(), SyntaxKind::DASH, 1);
        let ghost d = grammar::cat(w, m);
        proof {
            parser::lemma_chain(a, b, c, grammar::none(), w);
            parser::lemma_cat_none(w);
            parser::lemma_chain(a, c, *self, w, m);
        }
        let ghost e = *self;
        assert(e.at() == pos + w.len + 1);
        let r = self.parse_sequence_entry_rest(indent);
        let ghost rest = grammar::sequence_entry_rest(s, e.at(), indent as int);
        proof {
            parser::lemma_chain(a, e, *self, d, rest);
        }
        self.finish(
            Ghost(SyntaxKind::BLOCK_SEQUENCE_ENTRY),
            Ghost(a),
            Ghost(grammar::cat(d, rest)),
        );
        assert(self.parents() =~= a.parents());
        r
    }

    #[verifier::rlimit(40)]
    /// Adds an entry of a block sequence, behind its dash.
    pub(super) fn parse_sequence_entry_rest(&mut self, indent: usize) -> (r: Result<(), ParseError>)
        requires
            old(self).good(),
            old(self).roomy(),
        ensures
            parser::made(*old(self), *final(self), grammar::sequence_entry_rest(old(self).bytes(), old(self).at(), indent as int)),
            parser::outcome(r, grammar::sequence_entry_rest(old(self).bytes(), old(self).at(), indent as int).fault),
            final(self).parents() == old(self).parents(),
        decreases grammar::left(old(self).bytes(), old(self).at()), 8nat,
    {
        let ghost a = *self;
        let ghost s = self.bytes();
        let ghost pos = a.at();
        let ghost mut acc = grammar::value_head(s, pos);
        let alias = match self.parse_value_head() {
            Err(e) => {
                return Err(e);
            },
            Ok(x) => x,
        };
        if !alias {
            let ghost b = *self;
            let ghost v = grammar::sequence_entry_value(s, b.at(), indent as int);
            let r = self.parse_sequence_entry_value(indent);
            proof {
                parser::lemma_chain(a, b, *self, acc, v);
                acc = grammar::cat(acc, v);
            }
            if r.is_err() {
                return r;
            }
        }
        let ghost f = *self;
        self.eat_inline_trivia();
        proof {
            parser::lemma_chain(a, f, *self, acc, grammar::inline_trivia(s, f.at()));
        }
        Ok(())
    }

    #[verifier::rlimit(40)]
    /// Adds the value of an entry of the block sequence at `indent`.
    pub(super) fn parse_sequence_entry_value(&mut self, indent: usize) -> (r: Result<(), ParseError>)
        requires
            old(self).good(),
            old(self).roomy(),
        ensures
            parser::made(*old(self), *final(self), grammar::sequence_entry_value(old(self).bytes(), old(self).at(), indent as int)),
            parser::outcome(r, grammar::sequence_entry_value(old(self).bytes(), old(self).at(), indent as int).fault),
            final(self).parents() == old(self).parents(),
        decreases grammar::left(old(self).bytes(), old(self).at()), 7nat,
    {
        let ghost a = *self;
        let ghost s = self.bytes();
        let ghost pos = a.at();
        match self.lex.peek() {
            None => {
                self.emit_null();
                Ok(())
            },
            Some(LexHint::Token(SyntaxKind::NEWLINE)) => match self.column_past_trivia() {
                Some((col, _)) if col > indent => {
                    self.eat_trivia_except_entry_indent();
                    let ghost b = *self;
                    let r = self.parse_block_node(col, col);
                    proof {
                        parser::lemma_chain(
                            a,
                            b,
                            *self,
                            grammar::entry_trivia(s, pos),
                            grammar::block_node(s, b.at(), col as int, col),
                        );
                    }
                    r
                },
                _ => {
                    self.emit_null();
                    Ok(())
                },
            },
            Some(LexHint::Token(SyntaxKind::DASH)) => {
                let col = self.lex.column();
                self.parse_block_sequence(col)
            },
            Some(LexHint::Token(SyntaxKind::L_BRACE)) => self.parse_flow_mapping(),
            Some(LexHint::Token(SyntaxKind::L_BRACKET)) => self.parse_flow_sequence(),
            Some(LexHint::Token(SyntaxKind::LITERAL_SCALAR | SyntaxKind::FOLDED_SCALAR)) => {
                self.parse_block_scalar(indent)
            },
            Some(
                LexHint::PlainStart
                | LexHint::Token(
                    SyntaxKind::SINGLE_QUOTED_SCALAR | SyntaxKind::DOUBLE_QUOTED_SCALAR,
                ),
            ) => {
                // A scalar, or a mapping that begins on the same line. The further
                // lines of a plain scalar are bounded by the dash.
                let child_indent = self.lex.column();
                self.parse_block_mapping_or_scalar_ext(child_indent, indent)
            },
            Some(LexHint::Token(k)) => Err(self.unexpected(k, " in sequence entry")),
        }
    }
}

} // verus!

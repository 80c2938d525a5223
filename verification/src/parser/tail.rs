//! The entries of block mappings.

use vstd::prelude::*;
use vstd::string::*;
use vstd::utf8::*;

use crate::error::ParseError;
use crate::grammar;
use crate::lexer::{LexHint, PlainStop};
use crate::parser;
use crate::parser::Parser;
use crate::syntax::clear;
use crate::syntax::kind::SyntaxKind;

verus! {

broadcast use vstd::utf8::encode_utf8_valid_utf8;

impl<'a> Parser<'a> {
    #[verifier::rlimit(40)]
    /// Adds a mapping entry that begins with its key.
    pub(super) fn parse_block_mapping_entry(&mut self, indent: usize) -> (r: Result<(), ParseError>)
        requires
            old(self).good(),
            old(self).at() < old(self).bytes().len(),
            grammar::scalar_past_whitespace(old(self).bytes(), old(self).at()),
        ensures
            parser::made(*old(self), *final(self), grammar::implicit_entry(old(self).bytes(), old(self).at(), indent as int)),
            parser::outcome(r, grammar::implicit_entry(old(self).bytes(), old(self).at(), indent as int).fault),
            final(self).parents() == old(self).parents(),
            r is Ok ==> final(self).at() > old(self).at(),
        decreases grammar::left(old(self).bytes(), old(self).at()), 1nat,
    {
        let ghost a = *self;
        let ghost s = self.bytes();
        let ghost pos = a.at();
        self.start(SyntaxKind::BLOCK_MAPPING_ENTRY);
        let ghost b = *self;
        let ghost w = grammar::leading_whitespace(s, pos);
        self.eat_leading_whitespace();
        let ghost c = *self;
        let ghost key = grammar::scalar_node(s, c.at(), PlainStop::BlockKey, None);
        let ghost k = grammar::cat(w, key);
        let r = self.parse_scalar_as_node(PlainStop::BlockKey, None);
        proof {
            parser::lemma_chain(a, b, c, grammar::none(), w);
            parser::lemma_cat_none(w);
            parser::lemma_chain(a, c, *self, w, key);
        }
        if r.is_err() {
            self.finish(Ghost(SyntaxKind::BLOCK_MAPPING_ENTRY), Ghost(a), Ghost(k));
            assert(self.parents() =~= a.parents());
            return r;
        }
        let ghost d = *self;
        self.eat_inline_trivia();
        let ghost i = grammar::cat(k, grammar::inline_trivia(s, d.at()));
        proof {
            parser::lemma_chain(a, d, *self, k, grammar::inline_trivia(s, d.at()));
        }
        let ghost e = *self;
        if !self.lex.is_block_colon_indicator() {
            let here = self.lex.pos;
            let x = self.fail(here, "expected ':' after mapping key");
            let ghost f = grammar::fail(s, e.at(), e.at(), "expected ':' after mapping key"@);
            proof {
                parser::lemma_chain(a, e, *self, i, f);
            }
            self.finish(
                Ghost(SyntaxKind::BLOCK_MAPPING_ENTRY),
                Ghost(a),
                Ghost(grammar::cat(i, f)),
            );
            assert(self.parents() =~= a.parents());
            return Err(x);
        }
        proof {
            self.lemma_token_byte();
        }
        let r2 = self.finish_block_mapping_entry_body(indent);
        let ghost m = grammar::token(s, e.at(), SyntaxKind::COLON, 1);
        let ghost v = grammar::entry_value(s, e.at() + 1, indent as int);
        let ghost acc = grammar::cat(grammar::cat(i, m), v);
        proof {
            parser::lemma_chain(a, e, *self, i, grammar::cat(m, v));
            parser::lemma_cat_assoc(i, m, v);
        }
        let ghost l = grammar::inline_trivia(s, self.at());
        if r2.is_ok() {
            let ghost f = *self;
            self.eat_inline_trivia();
            proof {
                parser::lemma_chain(a, f, *self, acc, l);
            }
        }
        self.finish(
            Ghost(SyntaxKind::BLOCK_MAPPING_ENTRY),
            Ghost(a),
            Ghost(grammar::cat(acc, l)),
        );
        assert(self.parents() =~= a.parents());
        r2
    }

    #[verifier::rlimit(60)]
    /// Adds the further entries of the block mapping at `indent`.
    pub(super) fn parse_block_mapping_tail(&mut self, indent: usize) -> (r: Result<(), ParseError>)
        requires
            old(self).good(),
        ensures
            parser::made(*old(self), *final(self), grammar::mapping_tail(old(self).bytes(), old(self).at(), indent as int)),
            parser::outcome(r, grammar::mapping_tail(old(self).bytes(), old(self).at(), indent as int).fault),
            final(self).parents() == old(self).parents(),
            clear::clear_row(grammar::mapping_tail(old(self).bytes(), old(self).at(), indent as int).elems),
        decreases grammar::left(old(self).bytes(), old(self).at()), 2nat,
    {
        let ghost a = *self;
        let ghost s = self.bytes();
        let ghost goal = grammar::mapping_tail(s, a.at(), indent as int);
        let ghost mut acc = grammar::none();
        proof {
            parser::lemma_cat_none(goal);
            assert(a.children() =~= a.children() + grammar::none().elems);
        }
        loop
            invariant
                a == *old(self),
                parser::made(a, *self, acc),
                acc.fault is None,
                clear::clear_row(acc.elems),
                acc.elems.len() > 0 ==> !acc.elems.last().is_token_of(SyntaxKind::WHITESPACE),
                s == a.bytes(),
                self.parents() == a.parents(),
                goal == grammar::mapping_tail(s, a.at(), indent as int),
                grammar::cat(acc, grammar::mapping_tail(s, self.at(), indent as int)) == goal,
            decreases s.len() - self.at(),
        {
            let ghost b = *self;
            let ghost pos = b.at();
            let col = match self.column_past_trivia() {
                None => {
                    proof {
                        parser::lemma_cat_none(acc);
                    }
                    return Ok(());
                },
                Some((col, _)) => col,
            };
            if col < indent {
                proof {
                    parser::lemma_cat_none(acc);
                }
                return Ok(());
            }
            if col > indent {
                let here = self.lex.pos;
                let x = self.fail(here, "unexpected indentation in block mapping");
                proof {
                    let tail = grammar::mapping_tail(s, pos, indent as int);
                    parser::lemma_chain(a, b, *self, acc, tail);
                    grammar::lemma_clear_join(acc.elems, seq![], tail.elems);
                    assert(seq![] + tail.elems =~= tail.elems);
                }
                return Err(x);
            }
            let ghost t = grammar::entry_trivia(s, pos);
            self.eat_trivia_except_entry_indent();
            let ghost c = *self;
            proof {
                parser::lemma_chain(a, b, c, acc, t);
                grammar::lemma_entry_trivia_end(s, pos);
                grammar::lemma_clear_join(acc.elems, t.elems, seq![]);
                assert(t.elems + seq![] =~= t.elems);
            }
            if self.at_document_start_marker() || self.at_document_end_marker() {
                return Ok(());
            }
            let explicit = match self.peek_past_leading_whitespace() {
                Some(
                    LexHint::PlainStart
                    | LexHint::Token(
                        SyntaxKind::SINGLE_QUOTED_SCALAR | SyntaxKind::DOUBLE_QUOTED_SCALAR,
                    ),
                ) => false,
                Some(LexHint::Token(SyntaxKind::QUESTION)) => true,
                _ => {
                    return Ok(());
                },
            };
            match self.reject_tab_indent_at_line_start() {
                Err(x) => {
                    proof {
                        let tab = grammar::tab_before(s, c.at())->0;
                        let f = grammar::tab_fault(s, c.at(), tab);
                        parser::lemma_chain(b, c, *self, t, f);
                        parser::lemma_chain(a, b, *self, acc, grammar::cat(t, f));
                        grammar::lemma_clear_join(acc.elems, t.elems, f.elems);
                    }
                    return Err(x);
                },
                Ok(_) => {},
            }
            let ghost e = if explicit {
                grammar::explicit_entry(s, c.at(), indent as int)
            } else {
                grammar::implicit_entry(s, c.at(), indent as int)
            };
            let r = if explicit {
                self.parse_explicit_block_mapping_entry(indent)
            } else {
                self.parse_block_mapping_entry(indent)
            };
            proof {
                parser::lemma_chain(b, c, *self, t, e);
                parser::lemma_chain(a, b, *self, acc, grammar::cat(t, e));
                assert(e.elems.len() == 1 && e.elems[0] is Node);
                grammar::lemma_clear_join(acc.elems, t.elems, e.elems);
            }
            if r.is_err() {
                return r;
            }
            proof {
                parser::lemma_cat_assoc(
                    acc,
                    grammar::cat(t, e),
                    grammar::mapping_tail(s, self.at(), indent as int),
                );
                acc = grammar::cat(acc, grammar::cat(t, e));
            }
        }
    }
}

} // verus!

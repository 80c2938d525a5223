//! Scalars, and the mappings that begin with them.

use vstd::prelude::*;
use vstd::string::*;
use vstd::utf8::*;

use crate::error::ParseError;
use crate::grammar;
use crate::grammar::Parsed;
use crate::lexer;
use crate::lexer::{run, ByteClass, LexError, LexHint, Lexer, PlainStop};
use crate::parser;
use crate::parser::Parser;
use crate::syntax::green;
use crate::syntax::green::builder_checkpoint;
use crate::syntax::kind::SyntaxKind;

verus! {

broadcast use vstd::utf8::encode_utf8_valid_utf8;

impl<'a> Parser<'a> {
    #[verifier::rlimit(60)]
    /// Adds a scalar, or the mapping that begins with it as its first key.
    pub(super) fn parse_block_mapping_or_scalar_ext(&mut self, indent: usize, scalar_min_indent: usize) -> (r: Result<(), ParseError>)
        requires
            old(self).good(),
            old(self).roomy(),
        ensures
            parser::made(*old(self), *final(self), grammar::block_mapping_or_scalar(old(self).bytes(), old(self).at(), indent as int, scalar_min_indent)),
            parser::outcome(r, grammar::block_mapping_or_scalar(old(self).bytes(), old(self).at(), indent as int, scalar_min_indent).fault),
            final(self).parents() == old(self).parents(),
        decreases grammar::left(old(self).bytes(), old(self).at()), 4nat,
    {
        proof {
            reveal(grammar::scalar_node);
            reveal(grammar::quoted_token);
        }
        let ghost a = *self;
        let ghost s = self.bytes();
        let ghost pos = a.at();
        if let Some(LexHint::Token(SyntaxKind::QUESTION)) = self.peek_past_leading_whitespace() {
            return self.parse_explicit_block_mapping(indent, scalar_min_indent);
        }
        let cp = builder_checkpoint(&self.builder);
        let ghost w = grammar::leading_whitespace(s, pos);
        self.eat_leading_whitespace();
        let ghost b = *self;
        let ghost p = b.at();
        let here = self.lex.pos;
        let mut probe = Lexer { src: self.lex.src, pos: here };
        let bytes = self.lex.src.as_bytes();
        proof {
            self.lemma_token_byte();
        }
        match self.lex.peek() {
            Some(
                LexHint::Token(
                    SyntaxKind::SINGLE_QUOTED_SCALAR | SyntaxKind::DOUBLE_QUOTED_SCALAR,
                ),
            ) => match probe.bump_quoted() {
                Ok(_) => {
                    let end = probe.pos;
                    let colon = run(bytes, end, ByteClass::Blank);
                    probe.pos = colon;
                    let is_mapping = probe.is_block_colon_indicator();
                    let ghost key = grammar::wrap(SyntaxKind::SCALAR, grammar::quoted_token(s, p));
                    let r = self.parse_scalar_as_node(PlainStop::BlockKey, None);
                    proof {
                        parser::lemma_chain(a, b, *self, w, key);
                    }
                    if is_mapping {
                        self.finish_mapping_from_key(
                            indent,
                            cp,
                            Ghost(a),
                            Ghost(grammar::cat(w, key)),
                        )
                    } else {
                        r
                    }
                },
                Err(LexError::UnterminatedSingleQuoted { .. }) => {
                    let e = self.fail(here, "unterminated single-quoted scalar");
                    proof {
                        let f = grammar::fail(s, p, p, "unterminated single-quoted scalar"@);
                        parser::lemma_chain(a, b, *self, w, f);
                    }
                    Err(e)
                },
                Err(_) => {
                    let e = self.fail(here, "unterminated double-quoted scalar");
                    proof {
                        let f = grammar::fail(s, p, p, "unterminated double-quoted scalar"@);
                        parser::lemma_chain(a, b, *self, w, f);
                    }
                    Err(e)
                },
            },
            Some(LexHint::PlainStart) => {
                let _ = probe.read_plain_with(PlainStop::BlockKey, None);
                let end = probe.pos;
                if end == here {
                    let e = self.fail(here, "expected scalar content");
                    proof {
                        let f = grammar::fail(s, p, p, "expected scalar content"@);
                        parser::lemma_chain(a, b, *self, w, f);
                    }
                    return Err(e);
                }
                let colon = run(bytes, end, ByteClass::Blank);
                probe.pos = colon;
                if probe.is_block_colon_indicator() {
                    self.emit_plain(end);
                    let ghost key = grammar::wrap(
                        SyntaxKind::SCALAR,
                        grammar::token(s, p, SyntaxKind::PLAIN_SCALAR, (end - p) as nat),
                    );
                    proof {
                        parser::lemma_chain(a, b, *self, w, key);
                    }
                    self.finish_mapping_from_key(indent, cp, Ghost(a), Ghost(grammar::cat(w, key)))
                } else {
                    let mut whole = Lexer { src: self.lex.src, pos: here };
                    let _ = whole.read_plain_with(PlainStop::BlockValue, Some(scalar_min_indent));
                    let ghost e2 = whole.pos as int;
                    self.emit_plain(whole.pos);
                    proof {
                        let v = grammar::wrap(
                            SyntaxKind::SCALAR,
                            grammar::token(s, p, SyntaxKind::PLAIN_SCALAR, (e2 - p) as nat),
                        );
                        parser::lemma_chain(a, b, *self, w, v);
                    }
                    Ok(())
                }
            },
            _ => {
                let e = self.fail(here, "expected scalar");
                proof {
                    parser::lemma_chain(a, b, *self, w, grammar::fail(s, p, p, "expected scalar"@));
                }
                Err(e)
            },
        }
    }

    /// Adds a scalar with a plain token up to `end`.
    pub(super) fn emit_plain(&mut self, end: usize)
        requires
            old(self).good(),
            old(self).at() <= end <= old(self).bytes().len(),
            is_char_boundary(old(self).bytes(), end as int),
        ensures
            parser::made(
                *old(self),
                *final(self),
                grammar::wrap(
                    SyntaxKind::SCALAR,
                    grammar::token(
                        old(self).bytes(),
                        old(self).at(),
                        SyntaxKind::PLAIN_SCALAR,
                        (end - old(self).at()) as nat,
                    ),
                ),
            ),
            final(self).parents() == old(self).parents(),
    {
        let ghost a = *self;
        self.start(SyntaxKind::SCALAR);
        let ghost b = *self;
        self.token(SyntaxKind::PLAIN_SCALAR, end);
        let ghost inner = grammar::token(
            a.bytes(),
            a.at(),
            SyntaxKind::PLAIN_SCALAR,
            (end - a.at()) as nat,
        );
        proof {
            parser::lemma_chain(a, b, *self, grammar::none(), inner);
            parser::lemma_cat_none(inner);
        }
        self.finish(Ghost(SyntaxKind::SCALAR), Ghost(a), Ghost(inner));
        assert(self.parents() =~= a.parents());
    }

    #[verifier::rlimit(60)]
    /// Makes what was added since the checkpoint, at `a`, the first key of a
    /// block mapping, and adds the rest of the mapping.
    pub(super) fn finish_mapping_from_key(
        &mut self,
        indent: usize,
        cp: rowan::Checkpoint,
        Ghost(a): Ghost<Parser<'a>>,
        Ghost(k): Ghost<Parsed>,
    ) -> (r: Result<(), ParseError>)
        requires
            parser::made(a, *old(self), k),
            k.fault is None,
            a.good(),
            a.at() < a.bytes().len(),
            old(self).parents() == a.parents(),
            a.roomy(),
            green::checkpoint_of(cp) == a.children().len(),
            lexer::block_colon(
                a.bytes(),
                lexer::run_end(a.bytes(), old(self).at(), ByteClass::Blank),
            ),
        ensures
            parser::made(
                a,
                *final(self),
                grammar::mapping_from_key(a.bytes(), a.at(), k, indent as int),
            ),
            parser::outcome(
                r,
                grammar::mapping_from_key(a.bytes(), a.at(), k, indent as int).fault,
            ),
            final(self).parents() == a.parents(),
        decreases grammar::left(a.bytes(), a.at()), 3nat,
    {
        let ghost s = a.bytes();
        let ghost pos = a.at();
        let ghost b = *self;
        proof {
            grammar::lemma_blanks_before_colon(s, b.at());
        }
        self.eat_inline_trivia();
        let ghost i = grammar::inline_trivia(s, b.at());
        let ghost ki = grammar::cat(k, i);
        let ghost c = *self;
        proof {
            parser::lemma_chain(a, b, c, k, i);
        }
        self.start_at(cp, SyntaxKind::BLOCK_MAPPING);
        let ghost c1 = *self;
        self.start_at(cp, SyntaxKind::BLOCK_MAPPING_ENTRY);
        let ghost c2 = *self;
        proof {
            parser::lemma_chain(a, c, c1, ki, grammar::none());
            parser::lemma_cat_none(ki);
            parser::lemma_chain(a, c1, c2, ki, grammar::none());
            self.lemma_token_byte();
        }
        let ghost m = grammar::token(s, c2.at(), SyntaxKind::COLON, 1);
        let ghost v = grammar::entry_value(s, c2.at() + 1, indent as int);
        let r = self.finish_block_mapping_entry_body(indent);
        proof {
            parser::lemma_chain(a, c2, *self, ki, grammar::cat(m, v));
            parser::lemma_cat_assoc(ki, m, v);
        }
        let ghost acc = grammar::cat(grammar::cat(ki, m), v);
        let ghost l = grammar::inline_trivia(s, self.at());
        let ghost inner = grammar::cat(acc, l);
        let ok = r.is_ok();
        if ok {
            let ghost d = *self;
            self.eat_inline_trivia();
            proof {
                parser::lemma_chain(a, d, *self, acc, l);
            }
        }
        self.finish(Ghost(SyntaxKind::BLOCK_MAPPING_ENTRY), Ghost(a), Ghost(inner));
        let ghost e = grammar::wrap(SyntaxKind::BLOCK_MAPPING_ENTRY, inner);
        assert(self.parents() =~= c1.parents());
        if !ok {
            self.finish(Ghost(SyntaxKind::BLOCK_MAPPING), Ghost(a), Ghost(e));
            assert(self.parents() =~= a.parents());
            return r;
        }
        let ghost f = *self;
        let r2 = self.parse_block_mapping_tail(indent);
        let ghost tail = grammar::mapping_tail(s, f.at(), indent as int);
        proof {
            parser::lemma_chain(a, f, *self, e, tail);
            grammar::lemma_clear_join(e.elems, seq![], tail.elems);
            assert(seq![] + tail.elems =~= tail.elems);
        }
        self.finish(Ghost(SyntaxKind::BLOCK_MAPPING), Ghost(a), Ghost(grammar::cat(e, tail)));
        assert(self.parents() =~= a.parents());
        r2
    }

    #[verifier::rlimit(40)]
    /// Adds a block mapping that begins with an explicit key.
    pub(super) fn parse_explicit_block_mapping(
        &mut self,
        indent: usize,
        scalar_min_indent: usize,
    ) -> (r: Result<(), ParseError>)
        requires
            old(self).good(),
            grammar::past_whitespace(old(self).bytes(), old(self).at(), SyntaxKind::QUESTION),
        ensures
            ({
                let p = grammar::block_mapping_or_scalar(
                    old(self).bytes(),
                    old(self).at(),
                    indent as int,
                    scalar_min_indent,
                );
                parser::made(*old(self), *final(self), p) && parser::outcome(r, p.fault)
            }),
            final(self).parents() == old(self).parents(),
        decreases grammar::left(old(self).bytes(), old(self).at()), 3nat,
    {
        let ghost a = *self;
        let ghost s = self.bytes();
        self.start(SyntaxKind::BLOCK_MAPPING);
        let ghost b = *self;
        let ghost e = grammar::explicit_entry(s, a.at(), indent as int);
        let r = self.parse_explicit_block_mapping_entry(indent);
        proof {
            parser::lemma_chain(a, b, *self, grammar::none(), e);
            parser::lemma_cat_none(e);
        }
        if r.is_err() {
            self.finish(Ghost(SyntaxKind::BLOCK_MAPPING), Ghost(a), Ghost(e));
            assert(self.parents() =~= a.parents());
            return r;
        }
        let ghost c = *self;
        let r2 = self.parse_block_mapping_tail(indent);
        let ghost tail = grammar::mapping_tail(s, c.at(), indent as int);
        proof {
            parser::lemma_chain(a, c, *self, e, tail);
            grammar::lemma_clear_join(e.elems, seq![], tail.elems);
            assert(seq![] + tail.elems =~= tail.elems);
        }
        self.finish(Ghost(SyntaxKind::BLOCK_MAPPING), Ghost(a), Ghost(grammar::cat(e, tail)));
        assert(self.parents() =~= a.parents());
        r2
    }
}

} // verus!

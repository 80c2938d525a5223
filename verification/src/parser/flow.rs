//! Flow collections.

use vstd::prelude::*;
use vstd::string::*;
use vstd::utf8::*;

use crate::error::ParseError;
use crate::grammar;
use crate::lexer::{LexHint, PlainStop};
use crate::parser;
use crate::parser::Parser;
use crate::syntax::green::builder_checkpoint;
use crate::syntax::kind::SyntaxKind;

verus! {

broadcast use vstd::utf8::encode_utf8_valid_utf8;

impl<'a> Parser<'a> {
    /// Adds a flow mapping.
    pub(super) fn parse_flow_mapping(&mut self) -> (r: Result<(), ParseError>)
        requires
            old(self).good(),
            grammar::at(old(self).bytes(), old(self).at(), SyntaxKind::L_BRACE),
        ensures
            parser::made(*old(self), *final(self), grammar::flow_mapping(old(self).bytes(), old(self).at())),
            parser::outcome(r, grammar::flow_mapping(old(self).bytes(), old(self).at()).fault),
            final(self).parents() == old(self).parents(),
        decreases grammar::left(old(self).bytes(), old(self).at()), 0nat,
    {
        let ghost a = *self;
        let ghost s = self.bytes();
        let ghost pos = self.at();
        self.start(SyntaxKind::FLOW_MAPPING);
        let ghost b0 = *self;
        self.bump_mark(SyntaxKind::L_BRACE);
        let ghost t1 = grammar::token(s, pos, SyntaxKind::L_BRACE, 1);
        proof {
            parser::lemma_chain(a, b0, *self, grammar::none(), t1);
            parser::lemma_cat_none(t1);
        }
        let ghost b1 = *self;
        self.eat_trivia();
        let ghost acc = grammar::cat(t1, grammar::trivia(s, pos + 1));
        proof {
            parser::lemma_chain(a, b1, *self, t1, grammar::trivia(s, pos + 1));
        }
        let ghost b2 = *self;
        let ghost mut last = grammar::none();
        let r = if self.at_kind(SyntaxKind::R_BRACE) {
            self.bump_mark(SyntaxKind::R_BRACE);
            proof {
                last = grammar::token(s, b2.at(), SyntaxKind::R_BRACE, 1);
            }
            Ok(())
        } else {
            proof {
                last = grammar::flow_mapping_items(s, b2.at());
            }
            self.parse_flow_mapping_items()
        };
        proof {
            parser::lemma_chain(a, b2, *self, acc, last);
        }
        self.finish(Ghost(SyntaxKind::FLOW_MAPPING), Ghost(a), Ghost(grammar::cat(acc, last)));
        assert(self.parents() =~= a.parents());
        r
    }

    /// Adds the entries of a flow mapping, and what closes it.
    pub(super) fn parse_flow_mapping_items(&mut self) -> (r: Result<(), ParseError>)
        requires
            old(self).good(),
        ensures
            parser::made(*old(self), *final(self), grammar::flow_mapping_items(old(self).bytes(), old(self).at())),
            parser::outcome(r, grammar::flow_mapping_items(old(self).bytes(), old(self).at()).fault),
            final(self).parents() == old(self).parents(),
        decreases grammar::left(old(self).bytes(), old(self).at()), 4nat,
    {
        let ghost a = *self;
        let ghost s = self.bytes();
        let ghost goal = grammar::flow_mapping_items(s, a.at());
        let ghost mut acc = grammar::none();
        proof {
            parser::lemma_cat_none(goal);
            assert(a.children() =~= a.children() + grammar::none().elems);
        }
        loop
            invariant
                a == *old(self),
                parser::made(a, *self, acc),
                acc.fault is None,
                s == a.bytes(),
                self.parents() == a.parents(),
                goal == grammar::flow_mapping_items(s, a.at()),
                grammar::cat(acc, grammar::flow_mapping_items(s, self.at())) == goal,
            decreases s.len() - self.at(),
        {
            let ghost b = *self;
            let ghost pos = b.at();
            let ghost e = grammar::flow_mapping_entry(s, pos);
            match self.parse_flow_mapping_entry() {
                Err(x) => {
                    proof {
                        parser::lemma_chain(a, b, *self, acc, e);
                    }
                    return Err(x);
                },
                Ok(_) => {},
            }
            let ghost c = *self;
            self.eat_trivia();
            let ghost t = grammar::cat(e, grammar::trivia(s, c.at()));
            proof {
                parser::lemma_chain(b, c, *self, e, grammar::trivia(s, c.at()));
            }
            let ghost d = *self;
            match self.lex.peek() {
                Some(LexHint::Token(SyntaxKind::COMMA)) => {
                    self.bump_mark(SyntaxKind::COMMA);
                    let ghost m = grammar::token(s, d.at(), SyntaxKind::COMMA, 1);
                    let ghost tm = grammar::cat(t, m);
                    let ghost d1 = *self;
                    self.eat_trivia();
                    let ghost tt = grammar::cat(tm, grammar::trivia(s, d1.at()));
                    proof {
                        parser::lemma_chain(b, d, d1, t, m);
                        parser::lemma_chain(b, d1, *self, tm, grammar::trivia(s, d1.at()));
                    }
                    let ghost d2 = *self;
                    if self.at_kind(SyntaxKind::R_BRACE) {
                        self.bump_mark(SyntaxKind::R_BRACE);
                        let ghost z = grammar::token(s, d2.at(), SyntaxKind::R_BRACE, 1);
                        proof {
                            parser::lemma_chain(b, d2, *self, tt, z);
                            parser::lemma_chain(a, b, *self, acc, grammar::cat(tt, z));
                        }
                        return Ok(());
                    }
                    proof {
                        parser::lemma_chain(a, b, *self, acc, tt);
                        parser::lemma_cat_assoc(acc, tt, grammar::flow_mapping_items(s, self.at()));
                        acc = grammar::cat(acc, tt);
                    }
                },
                Some(LexHint::Token(SyntaxKind::R_BRACE)) => {
                    self.bump_mark(SyntaxKind::R_BRACE);
                    let ghost z = grammar::token(s, d.at(), SyntaxKind::R_BRACE, 1);
                    proof {
                        parser::lemma_chain(b, d, *self, t, z);
                        parser::lemma_chain(a, b, *self, acc, grammar::cat(t, z));
                    }
                    return Ok(());
                },
                None => {
                    let here = self.lex.pos;
                    let x = self.fail(here, "expected '}' in flow mapping");
                    proof {
                        let f = grammar::fail(s, d.at(), d.at(), "expected '}' in flow mapping"@);
                        parser::lemma_chain(b, d, *self, t, f);
                        parser::lemma_chain(a, b, *self, acc, grammar::cat(t, f));
                    }
                    return Err(x);
                },
                _ => {
                    let here = self.lex.pos;
                    let x = self.fail(here, "expected ',' or '}' in flow mapping");
                    proof {
                        let f = grammar::fail(
                            s,
                            d.at(),
                            d.at(),
                            "expected ',' or '}' in flow mapping"@,
                        );
                        parser::lemma_chain(b, d, *self, t, f);
                        parser::lemma_chain(a, b, *self, acc, grammar::cat(t, f));
                    }
                    return Err(x);
                },
            }
        }
    }

    /// Adds a flow sequence.
    pub(super) fn parse_flow_sequence(&mut self) -> (r: Result<(), ParseError>)
        requires
            old(self).good(),
            grammar::at(old(self).bytes(), old(self).at(), SyntaxKind::L_BRACKET),
        ensures
            parser::made(*old(self), *final(self), grammar::flow_sequence(old(self).bytes(), old(self).at())),
            parser::outcome(r, grammar::flow_sequence(old(self).bytes(), old(self).at()).fault),
            final(self).parents() == old(self).parents(),
        decreases grammar::left(old(self).bytes(), old(self).at()), 0nat,
    {
        let ghost a = *self;
        let ghost s = self.bytes();
        let ghost pos = self.at();
        self.start(SyntaxKind::FLOW_SEQUENCE);
        let ghost b0 = *self;
        self.bump_mark(SyntaxKind::L_BRACKET);
        let ghost t1 = grammar::token(s, pos, SyntaxKind::L_BRACKET, 1);
        proof {
            parser::lemma_chain(a, b0, *self, grammar::none(), t1);
            parser::lemma_cat_none(t1);
        }
        let ghost b1 = *self;
        self.eat_trivia();
        let ghost acc = grammar::cat(t1, grammar::trivia(s, pos + 1));
        proof {
            parser::lemma_chain(a, b1, *self, t1, grammar::trivia(s, pos + 1));
        }
        let ghost b2 = *self;
        let ghost mut last = grammar::none();
        let r = if self.at_kind(SyntaxKind::R_BRACKET) {
            self.bump_mark(SyntaxKind::R_BRACKET);
            proof {
                last = grammar::token(s, b2.at(), SyntaxKind::R_BRACKET, 1);
            }
            Ok(())
        } else {
            proof {
                last = grammar::flow_sequence_items(s, b2.at());
            }
            self.parse_flow_sequence_items()
        };
        proof {
            parser::lemma_chain(a, b2, *self, acc, last);
        }
        self.finish(Ghost(SyntaxKind::FLOW_SEQUENCE), Ghost(a), Ghost(grammar::cat(acc, last)));
        assert(self.parents() =~= a.parents());
        r
    }

    /// Adds the entries of a flow sequence, and what closes it.
    pub(super) fn parse_flow_sequence_items(&mut self) -> (r: Result<(), ParseError>)
        requires
            old(self).good(),
        ensures
            parser::made(*old(self), *final(self), grammar::flow_sequence_items(old(self).bytes(), old(self).at())),
            parser::outcome(r, grammar::flow_sequence_items(old(self).bytes(), old(self).at()).fault),
            final(self).parents() == old(self).parents(),
        decreases grammar::left(old(self).bytes(), old(self).at()), 3nat,
    {
        let ghost a = *self;
        let ghost s = self.bytes();
        let ghost goal = grammar::flow_sequence_items(s, a.at());
        let ghost mut acc = grammar::none();
        proof {
            parser::lemma_cat_none(goal);
            assert(a.children() =~= a.children() + grammar::none().elems);
        }
        loop
            invariant
                a == *old(self),
                parser::made(a, *self, acc),
                acc.fault is None,
                s == a.bytes(),
                self.parents() == a.parents(),
                goal == grammar::flow_sequence_items(s, a.at()),
                grammar::cat(acc, grammar::flow_sequence_items(s, self.at())) == goal,
            decreases s.len() - self.at(),
        {
            let ghost b = *self;
            let ghost pos = b.at();
            let ghost e = grammar::flow_sequence_entry(s, pos);
            match self.parse_flow_sequence_entry() {
                Err(x) => {
                    proof {
                        parser::lemma_chain(a, b, *self, acc, e);
                    }
                    return Err(x);
                },
                Ok(_) => {},
            }
            let ghost c = *self;
            self.eat_trivia();
            let ghost t = grammar::cat(e, grammar::trivia(s, c.at()));
            proof {
                parser::lemma_chain(b, c, *self, e, grammar::trivia(s, c.at()));
            }
            let ghost d = *self;
            match self.lex.peek() {
                Some(LexHint::Token(SyntaxKind::COMMA)) => {
                    self.bump_mark(SyntaxKind::COMMA);
                    let ghost m = grammar::token(s, d.at(), SyntaxKind::COMMA, 1);
                    let ghost tm = grammar::cat(t, m);
                    let ghost d1 = *self;
                    self.eat_trivia();
                    let ghost tt = grammar::cat(tm, grammar::trivia(s, d1.at()));
                    proof {
                        parser::lemma_chain(b, d, d1, t, m);
                        parser::lemma_chain(b, d1, *self, tm, grammar::trivia(s, d1.at()));
                    }
                    let ghost d2 = *self;
                    if self.at_kind(SyntaxKind::R_BRACKET) {
                        self.bump_mark(SyntaxKind::R_BRACKET);
                        let ghost z = grammar::token(s, d2.at(), SyntaxKind::R_BRACKET, 1);
                        proof {
                            parser::lemma_chain(b, d2, *self, tt, z);
                            parser::lemma_chain(a, b, *self, acc, grammar::cat(tt, z));
                        }
                        return Ok(());
                    }
                    proof {
                        parser::lemma_chain(a, b, *self, acc, tt);
                        parser::lemma_cat_assoc(acc, tt, grammar::flow_sequence_items(s, self.at()));
                        acc = grammar::cat(acc, tt);
                    }
                },
                Some(LexHint::Token(SyntaxKind::R_BRACKET)) => {
                    self.bump_mark(SyntaxKind::R_BRACKET);
                    let ghost z = grammar::token(s, d.at(), SyntaxKind::R_BRACKET, 1);
                    proof {
                        parser::lemma_chain(b, d, *self, t, z);
                        parser::lemma_chain(a, b, *self, acc, grammar::cat(t, z));
                    }
                    return Ok(());
                },
                None => {
                    let here = self.lex.pos;
                    let x = self.fail(here, "expected ']' in flow sequence");
                    proof {
                        let f = grammar::fail(s, d.at(), d.at(), "expected ']' in flow sequence"@);
                        parser::lemma_chain(b, d, *self, t, f);
                        parser::lemma_chain(a, b, *self, acc, grammar::cat(t, f));
                    }
                    return Err(x);
                },
                _ => {
                    let here = self.lex.pos;
                    let x = self.fail(here, "expected ',' or ']' in flow sequence");
                    proof {
                        let f = grammar::fail(
                            s,
                            d.at(),
                            d.at(),
                            "expected ',' or ']' in flow sequence"@,
                        );
                        parser::lemma_chain(b, d, *self, t, f);
                        parser::lemma_chain(a, b, *self, acc, grammar::cat(t, f));
                    }
                    return Err(x);
                },
            }
        }
    }

    /// Adds one entry of a flow mapping.
    pub(super) fn parse_flow_mapping_entry(&mut self) -> (r: Result<(), ParseError>)
        requires
            old(self).good(),
        ensures
            parser::made(*old(self), *final(self), grammar::flow_mapping_entry(old(self).bytes(), old(self).at())),
            parser::outcome(r, grammar::flow_mapping_entry(old(self).bytes(), old(self).at()).fault),
            final(self).parents() == old(self).parents(),
        decreases grammar::left(old(self).bytes(), old(self).at()), 3nat,
    {
        let ghost a = *self;
        let ghost s = self.bytes();
        self.start(SyntaxKind::FLOW_MAPPING_ENTRY);
        let ghost b = *self;
        let r = self.parse_flow_entry_body();
        let ghost v = grammar::flow_entry_body(s, a.at());
        proof {
            parser::lemma_chain(a, b, *self, grammar::none(), v);
            parser::lemma_cat_none(v);
        }
        let ghost mut inner = v;
        if r.is_ok() {
            let ghost c = *self;
            self.eat_inline_trivia();
            proof {
                parser::lemma_chain(a, c, *self, v, grammar::inline_trivia(s, c.at()));
                inner = grammar::cat(v, grammar::inline_trivia(s, c.at()));
            }
        }
        self.finish(Ghost(SyntaxKind::FLOW_MAPPING_ENTRY), Ghost(a), Ghost(inner));
        assert(self.parents() =~= a.parents());
        r
    }

    #[verifier::rlimit(40)]
    /// Adds a flow mapping entry, without the node around it.
    pub(super) fn parse_flow_entry_body(&mut self) -> (r: Result<(), ParseError>)
        requires
            old(self).good(),
        ensures
            parser::made(
                *old(self),
                *final(self),
                grammar::flow_entry_body(old(self).bytes(), old(self).at()),
            ),
            parser::outcome(r, grammar::flow_entry_body(old(self).bytes(), old(self).at()).fault),
            final(self).parents() == old(self).parents(),
        decreases grammar::left(old(self).bytes(), old(self).at()), 2nat,
    {
        let ghost a = *self;
        let ghost s = self.bytes();
        let ghost pos = a.at();
        let ghost mut acc = grammar::flow_question(s, pos);
        if self.at_kind(SyntaxKind::QUESTION) {
            self.bump_mark(SyntaxKind::QUESTION);
            let ghost q = grammar::token(s, pos, SyntaxKind::QUESTION, 1);
            let ghost b = *self;
            self.eat_trivia();
            proof {
                parser::lemma_chain(a, b, *self, q, grammar::trivia(s, b.at()));
            }
        } else {
            assert(self.children() =~= a.children() + grammar::none().elems);
        }
        if self.at_node_property_start() {
            let ghost b = *self;
            let ghost p = grammar::properties(s, b.at());
            let q = self.parse_node_properties_with_alias_check();
            proof {
                parser::lemma_chain(a, b, *self, acc, p);
                acc = grammar::cat(acc, p);
            }
            match q {
                Err(e) => {
                    return Err(e);
                },
                Ok(alias) => {
                    let ghost c = *self;
                    self.eat_trivia();
                    proof {
                        parser::lemma_chain(a, c, *self, acc, grammar::trivia(s, c.at()));
                        acc = grammar::cat(acc, grammar::trivia(s, c.at()));
                    }
                    if alias {
                        return Ok(());
                    }
                },
            }
        }
        let ghost b = *self;
        let r = self.parse_flow_pair();
        proof {
            parser::lemma_chain(a, b, *self, acc, grammar::flow_pair(s, b.at()));
        }
        r
    }

    #[verifier::rlimit(40)]
    /// Adds the key of a flow mapping entry, and its colon and value.
    pub(super) fn parse_flow_pair(&mut self) -> (r: Result<(), ParseError>)
        requires
            old(self).good(),
        ensures
            parser::made(
                *old(self),
                *final(self),
                grammar::flow_pair(old(self).bytes(), old(self).at()),
            ),
            parser::outcome(r, grammar::flow_pair(old(self).bytes(), old(self).at()).fault),
            final(self).parents() == old(self).parents(),
        decreases grammar::left(old(self).bytes(), old(self).at()), 1nat,
    {
        let ghost a = *self;
        let ghost s = self.bytes();
        let ghost pos = a.at();
        let here = self.lex.pos;
        let mut quoted = false;
        let ghost mut k = grammar::none();
        let r = match self.lex.peek() {
            Some(LexHint::Token(SyntaxKind::L_BRACE)) => {
                proof {
                    k = grammar::flow_mapping(s, pos);
                }
                self.parse_flow_mapping()
            },
            Some(LexHint::Token(SyntaxKind::L_BRACKET)) => {
                proof {
                    k = grammar::flow_sequence(s, pos);
                }
                self.parse_flow_sequence()
            },
            Some(
                LexHint::PlainStart
                | LexHint::Token(
                    SyntaxKind::SINGLE_QUOTED_SCALAR | SyntaxKind::DOUBLE_QUOTED_SCALAR,
                ),
            ) => {
                proof {
                    k = grammar::scalar_node(s, pos, PlainStop::FlowKey, None);
                }
                quoted = self.at_kind(SyntaxKind::SINGLE_QUOTED_SCALAR) || self.at_kind(
                    SyntaxKind::DOUBLE_QUOTED_SCALAR,
                );
                self.parse_scalar_as_node(PlainStop::FlowKey, None)
            },
            Some(LexHint::Token(SyntaxKind::COLON | SyntaxKind::COMMA | SyntaxKind::R_BRACE))
            | None => {
                assert(self.children() =~= a.children() + grammar::none().elems);
                Ok(())
            },
            _ => {
                proof {
                    k = grammar::fail(s, pos, pos, "expected flow mapping key"@);
                }
                Err(self.fail(here, "expected flow mapping key"))
            },
        };
        assert(quoted == grammar::quoted_at(s, pos));
        match r {
            Err(e) => {
                return Err(e);
            },
            Ok(_) => {},
        }
        let ghost c = *self;
        self.eat_trivia();
        let ghost t = grammar::cat(k, grammar::trivia(s, c.at()));
        proof {
            parser::lemma_chain(a, c, *self, k, grammar::trivia(s, c.at()));
        }
        let has_colon = if quoted {
            self.lex.is_flow_colon_indicator_after_quoted()
        } else {
            self.lex.is_flow_colon_indicator()
        };
        if !has_colon {
            return Ok(());
        }
        let ghost d = *self;
        proof {
            self.lemma_token_byte();
        }
        self.bump_mark(SyntaxKind::COLON);
        let ghost m = grammar::token(s, d.at(), SyntaxKind::COLON, 1);
        let ghost tm = grammar::cat(t, m);
        proof {
            parser::lemma_chain(a, d, *self, t, m);
        }
        let ghost e = *self;
        let r = self.finish_flow_entry_after_key();
        proof {
            parser::lemma_chain(a, e, *self, tm, grammar::flow_value(s, e.at()));
        }
        r
    }

    #[verifier::rlimit(40)]
    /// Adds the value of a flow entry, behind its colon.
    pub(super) fn finish_flow_entry_after_key(&mut self) -> (r: Result<(), ParseError>)
        requires
            old(self).good(),
        ensures
            parser::made(*old(self), *final(self), grammar::flow_value(old(self).bytes(), old(self).at())),
            parser::outcome(r, grammar::flow_value(old(self).bytes(), old(self).at()).fault),
            final(self).parents() == old(self).parents(),
        decreases grammar::left(old(self).bytes(), old(self).at()), 1nat,
    {
        let ghost a = *self;
        let ghost s = self.bytes();
        let ghost pos = a.at();
        self.eat_trivia();
        let ghost mut acc = grammar::trivia(s, pos);
        let ghost p1 = self.at();
        if self.at_node_property_start() {
            let ghost b = *self;
            let ghost p = grammar::properties(s, p1);
            match self.parse_node_properties_with_alias_check() {
                Err(e) => {
                    proof {
                        parser::lemma_chain(a, b, *self, acc, p);
                    }
                    return Err(e);
                },
                Ok(alias) => {
                    proof {
                        parser::lemma_chain(a, b, *self, acc, p);
                        acc = grammar::cat(acc, p);
                    }
                    if alias {
                        return Ok(());
                    }
                    let ghost c = *self;
                    self.eat_trivia();
                    proof {
                        parser::lemma_chain(a, c, *self, acc, grammar::trivia(s, c.at()));
                        acc = grammar::cat(acc, grammar::trivia(s, c.at()));
                    }
                },
            }
        }
        let ghost b = *self;
        let ghost p = b.at();
        let ghost mut v = grammar::null_node();
        let r = match self.lex.peek() {
            Some(
                LexHint::Token(SyntaxKind::COMMA | SyntaxKind::R_BRACE | SyntaxKind::R_BRACKET),
            )
            | None => {
                self.emit_null();
                Ok(())
            },
            Some(LexHint::Token(SyntaxKind::L_BRACE)) => {
                proof {
                    v = grammar::flow_mapping(s, p);
                }
                self.parse_flow_mapping()
            },
            Some(LexHint::Token(SyntaxKind::L_BRACKET)) => {
                proof {
                    v = grammar::flow_sequence(s, p);
                }
                self.parse_flow_sequence()
            },
            Some(
                LexHint::PlainStart
                | LexHint::Token(
                    SyntaxKind::SINGLE_QUOTED_SCALAR | SyntaxKind::DOUBLE_QUOTED_SCALAR,
                ),
            ) => {
                proof {
                    v = grammar::scalar_node(s, p, PlainStop::FlowValue, None);
                }
                self.parse_scalar_as_node(PlainStop::FlowValue, None)
            },
            Some(LexHint::Token(k)) => {
                proof {
                    v = grammar::unexpected(s, p, k, " in flow entry value"@);
                }
                Err(self.unexpected(k, " in flow entry value"))
            },
        };
        proof {
            parser::lemma_chain(a, b, *self, acc, v);
        }
        r
    }

    #[verifier::rlimit(40)]
    /// Adds one entry of a flow sequence.
    pub(super) fn parse_flow_sequence_entry(&mut self) -> (r: Result<(), ParseError>)
        requires
            old(self).good(),
        ensures
            parser::made(*old(self), *final(self), grammar::flow_sequence_entry(old(self).bytes(), old(self).at())),
            parser::outcome(r, grammar::flow_sequence_entry(old(self).bytes(), old(self).at()).fault),
            final(self).parents() == old(self).parents(),
        decreases grammar::left(old(self).bytes(), old(self).at()), 2nat,
    {
        let ghost a = *self;
        let ghost s = self.bytes();
        let ghost pos = a.at();
        self.start(SyntaxKind::FLOW_SEQUENCE_ENTRY);
        let ghost mut acc = grammar::none();
        let mut alias = false;
        let mut r: Result<(), ParseError> = Ok(());
        if self.at_node_property_start() {
            let ghost b = *self;
            let ghost p = grammar::properties(s, pos);
            let q = self.parse_node_properties_with_alias_check();
            proof {
                parser::lemma_chain(a, b, *self, acc, p);
                parser::lemma_cat_none(p);
                acc = p;
            }
            match q {
                Err(e) => {
                    r = Err(e);
                },
                Ok(x) => {
                    alias = x;
                    if !alias {
                        let ghost c = *self;
                        self.eat_trivia();
                        proof {
                            parser::lemma_chain(a, c, *self, acc, grammar::trivia(s, c.at()));
                            acc = grammar::cat(acc, grammar::trivia(s, c.at()));
                        }
                    }
                },
            }
        }
        if r.is_ok() && !alias {
            let ghost b = *self;
            r = self.parse_flow_sequence_value();
            proof {
                parser::lemma_chain(a, b, *self, acc, grammar::flow_sequence_value(s, b.at()));
                acc = grammar::cat(acc, grammar::flow_sequence_value(s, b.at()));
            }
        }
        let ghost mut inner = acc;
        if r.is_ok() {
            let ghost c = *self;
            self.eat_inline_trivia();
            proof {
                parser::lemma_chain(a, c, *self, acc, grammar::inline_trivia(s, c.at()));
                inner = grammar::cat(acc, grammar::inline_trivia(s, c.at()));
            }
        }
        self.finish(Ghost(SyntaxKind::FLOW_SEQUENCE_ENTRY), Ghost(a), Ghost(inner));
        assert(self.parents() =~= a.parents());
        r
    }

    #[verifier::rlimit(40)]
    /// Adds the value of a flow sequence entry.
    pub(super) fn parse_flow_sequence_value(&mut self) -> (r: Result<(), ParseError>)
        requires
            old(self).good(),
            old(self).parents().len() > 0 ==> old(self).parents().last().1 <= old(self).children().len(),
        ensures
            parser::made(*old(self), *final(self), grammar::flow_sequence_value(old(self).bytes(), old(self).at())),
            parser::outcome(r, grammar::flow_sequence_value(old(self).bytes(), old(self).at()).fault),
            final(self).parents() == old(self).parents(),
        decreases grammar::left(old(self).bytes(), old(self).at()), 1nat,
    {
        let ghost a = *self;
        let ghost s = self.bytes();
        let ghost pos = a.at();
        let here = self.lex.pos;
        match self.lex.peek() {
            Some(LexHint::Token(SyntaxKind::L_BRACE)) => self.parse_flow_mapping(),
            Some(LexHint::Token(SyntaxKind::L_BRACKET)) => self.parse_flow_sequence(),
            Some(
                LexHint::PlainStart
                | LexHint::Token(
                    SyntaxKind::SINGLE_QUOTED_SCALAR | SyntaxKind::DOUBLE_QUOTED_SCALAR,
                ),
            ) => {
                let quoted = self.at_kind(SyntaxKind::SINGLE_QUOTED_SCALAR) || self.at_kind(
                    SyntaxKind::DOUBLE_QUOTED_SCALAR,
                );
                let cp = builder_checkpoint(&self.builder);
                let ghost k = grammar::scalar_node(s, pos, PlainStop::FlowKey, None);
                match self.parse_scalar_as_node(PlainStop::FlowKey, None) {
                    Err(e) => {
                        return Err(e);
                    },
                    Ok(_) => {},
                }
                let ghost b = *self;
                self.eat_trivia();
                let ghost t = grammar::cat(k, grammar::trivia(s, b.at()));
                proof {
                    parser::lemma_chain(a, b, *self, k, grammar::trivia(s, b.at()));
                }
                let has_colon = if quoted {
                    self.lex.is_flow_colon_indicator_after_quoted()
                } else {
                    self.lex.is_flow_colon_indicator()
                };
                if !has_colon {
                    return Ok(());
                }
                let ghost c = *self;
                self.start_at(cp, SyntaxKind::FLOW_MAPPING_ENTRY);
                let ghost d = *self;
                proof {
                    self.lemma_token_byte();
                }
                self.bump_mark(SyntaxKind::COLON);
                let ghost m = grammar::token(s, d.at(), SyntaxKind::COLON, 1);
                let ghost tm = grammar::cat(t, m);
                proof {
                    parser::lemma_chain(a, c, d, t, grammar::none());
                    parser::lemma_cat_none(t);
                    parser::lemma_chain(a, d, *self, t, m);
                }
                let ghost e = *self;
                let r = self.finish_flow_entry_after_key();
                let ghost v = grammar::cat(tm, grammar::flow_value(s, e.at()));
                proof {
                    parser::lemma_chain(a, e, *self, tm, grammar::flow_value(s, e.at()));
                }
                let ghost mut inner = v;
                if r.is_ok() {
                    let ghost f = *self;
                    self.eat_inline_trivia();
                    proof {
                        parser::lemma_chain(a, f, *self, v, grammar::inline_trivia(s, f.at()));
                        inner = grammar::cat(v, grammar::inline_trivia(s, f.at()));
                    }
                }
                self.finish(Ghost(SyntaxKind::FLOW_MAPPING_ENTRY), Ghost(a), Ghost(inner));
                assert(self.parents() =~= a.parents());
                r
            },
            Some(LexHint::Token(SyntaxKind::COMMA | SyntaxKind::R_BRACKET)) | None => {
                assert(self.children() =~= a.children() + grammar::none().elems);
                Ok(())
            },
            _ => Err(self.fail(here, "expected flow sequence entry")),
        }
    }
}

} // verus!

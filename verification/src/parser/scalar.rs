//! Scalars and node properties.

use vstd::prelude::*;
use vstd::string::*;
use vstd::utf8::*;

use crate::error::ParseError;
use crate::grammar;
use crate::lexer::{run, ByteClass, LexError, LexHint, Lexer, PlainStop};
use crate::parser;
use crate::parser::Parser;
use crate::syntax::kind::SyntaxKind;

verus! {

broadcast use vstd::utf8::encode_utf8_valid_utf8;

impl<'a> Parser<'a> {
    /// Adds the quoted scalar token here.
    pub(super) fn bump_quoted(&mut self) -> (r: Result<(), ParseError>)
        requires
            old(self).good(),
            grammar::quoted_at(old(self).bytes(), old(self).at()),
        ensures
            parser::made(
                *old(self),
                *final(self),
                grammar::quoted_token(old(self).bytes(), old(self).at()),
            ),
            parser::outcome(r, grammar::quoted_token(old(self).bytes(), old(self).at()).fault),
            final(self).parents() == old(self).parents(),
    {
        proof {
            reveal(grammar::quoted_token);
        }
        let mut probe = Lexer { src: self.lex.src, pos: self.lex.pos };
        let here = self.lex.pos;
        proof {
            self.lemma_token_byte();
        }
        match probe.bump_quoted() {
            Ok((k, _)) => {
                self.token(k, probe.pos);
                Ok(())
            },
            Err(LexError::UnterminatedSingleQuoted { .. }) => Err(
                self.fail(here, "unterminated single-quoted scalar"),
            ),
            Err(_) => Err(self.fail(here, "unterminated double-quoted scalar")),
        }
    }

    /// Adds a plain or quoted scalar.
    pub(super) fn parse_scalar_as_node(&mut self, stop: PlainStop, min_indent: Option<usize>) -> (r: Result<
        (),
        ParseError,
    >)
        requires
            old(self).good(),
        ensures
            parser::made(
                *old(self),
                *final(self),
                grammar::scalar_node(old(self).bytes(), old(self).at(), stop, min_indent),
            ),
            parser::outcome(
                r,
                grammar::scalar_node(old(self).bytes(), old(self).at(), stop, min_indent).fault,
            ),
            final(self).parents() == old(self).parents(),
    {
        proof {
            reveal(grammar::scalar_node);
            reveal(grammar::plain_token);
        }
        let ghost a = *self;
        let ghost s = self.bytes();
        let here = self.lex.pos;
        self.start(SyntaxKind::SCALAR);
        let ghost b = *self;
        let ghost mut inner = grammar::none();
        let r = match self.lex.peek() {
            Some(
                LexHint::Token(
                    SyntaxKind::SINGLE_QUOTED_SCALAR | SyntaxKind::DOUBLE_QUOTED_SCALAR,
                ),
            ) => {
                proof {
                    inner = grammar::quoted_token(s, a.at());
                }
                self.bump_quoted()
            },
            Some(LexHint::PlainStart) => {
                proof {
                    inner = grammar::plain_token(s, a.at(), stop, min_indent);
                }
                let mut probe = Lexer { src: self.lex.src, pos: here };
                let _ = probe.read_plain_with(stop, min_indent);
                if probe.pos == here {
                    Err(self.fail(here, "expected scalar content"))
                } else {
                    self.token(SyntaxKind::PLAIN_SCALAR, probe.pos);
                    Ok(())
                }
            },
            _ => {
                proof {
                    inner = grammar::fail(s, a.at(), a.at(), "expected scalar"@);
                }
                Err(self.fail(here, "expected scalar"))
            },
        };
        proof {
            parser::lemma_chain(a, b, *self, grammar::none(), inner);
            parser::lemma_cat_none(inner);
        }
        self.finish(Ghost(SyntaxKind::SCALAR), Ghost(a), Ghost(inner));
        assert(self.parents() =~= a.parents());
        r
    }

    /// Adds the block scalar here, the value of a node indented by
    /// `parent_indent`.
    pub(super) fn parse_block_scalar(&mut self, parent_indent: usize) -> (r: Result<(), ParseError>)
        requires
            old(self).good(),
            grammar::block_scalar_at(old(self).bytes(), old(self).at()),
        ensures
            parser::made(
                *old(self),
                *final(self),
                grammar::block_scalar(old(self).bytes(), old(self).at(), parent_indent as int),
            ),
            parser::outcome(
                r,
                grammar::block_scalar(
                    old(self).bytes(),
                    old(self).at(),
                    parent_indent as int,
                ).fault,
            ),
            final(self).parents() == old(self).parents(),
    {
        proof {
            reveal(grammar::block_scalar);
        }
        let ghost a = *self;
        let here = self.lex.pos;
        let mut probe = Lexer { src: self.lex.src, pos: here };
        proof {
            self.lemma_token_byte();
        }
        match probe.bump_block_scalar(parent_indent) {
            Ok((k, _)) => {
                self.start(SyntaxKind::SCALAR);
                let ghost b = *self;
                self.token(k, probe.pos);
                let ghost inner = grammar::token(
                    a.bytes(),
                    a.at(),
                    k,
                    (probe.pos - here) as nat,
                );
                proof {
                    parser::lemma_chain(a, b, *self, grammar::none(), inner);
                    parser::lemma_cat_none(inner);
                }
                self.finish(Ghost(SyntaxKind::SCALAR), Ghost(a), Ghost(inner));
                assert(self.parents() =~= a.parents());
                Ok(())
            },
            Err(_) => Err(self.fail(here, "malformed block scalar header")),
        }
    }

    /// Adds the anchor here.
    pub(super) fn consume_anchor(&mut self) -> (r: Result<(), ParseError>)
        requires
            old(self).good(),
            grammar::at(old(self).bytes(), old(self).at(), SyntaxKind::ANCHOR),
        ensures
            parser::made(
                *old(self),
                *final(self),
                grammar::property_token(old(self).bytes(), old(self).at()),
            ),
            parser::outcome(r, grammar::property_token(old(self).bytes(), old(self).at()).fault),
            final(self).parents() == old(self).parents(),
    {
        proof {
            reveal(grammar::property_token);
            reveal(grammar::name_token);
        }
        let here = self.lex.pos;
        let mut probe = Lexer { src: self.lex.src, pos: here };
        proof {
            self.lemma_token_byte();
        }
        match probe.bump_anchor() {
            Ok(_) => {
                self.token(SyntaxKind::ANCHOR, probe.pos);
                Ok(())
            },
            Err(_) => Err(self.fail(here, "anchor name cannot be empty")),
        }
    }

    /// Adds the alias here.
    pub(super) fn consume_alias(&mut self) -> (r: Result<(), ParseError>)
        requires
            old(self).good(),
            grammar::at(old(self).bytes(), old(self).at(), SyntaxKind::ALIAS),
        ensures
            ({
                let p = grammar::name_token(
                    old(self).bytes(),
                    old(self).at(),
                    SyntaxKind::ALIAS,
                    "alias name cannot be empty"@,
                );
                parser::made(*old(self), *final(self), p) && parser::outcome(r, p.fault)
            }),
            final(self).parents() == old(self).parents(),
    {
        proof {
            reveal(grammar::name_token);
        }
        let here = self.lex.pos;
        let mut probe = Lexer { src: self.lex.src, pos: here };
        proof {
            self.lemma_token_byte();
        }
        match probe.bump_alias() {
            Ok(_) => {
                self.token(SyntaxKind::ALIAS, probe.pos);
                Ok(())
            },
            Err(_) => Err(self.fail(here, "alias name cannot be empty")),
        }
    }

    /// Adds the tag here.
    pub(super) fn consume_tag(&mut self) -> (r: Result<(), ParseError>)
        requires
            old(self).good(),
            grammar::at(old(self).bytes(), old(self).at(), SyntaxKind::TAG),
        ensures
            parser::made(
                *old(self),
                *final(self),
                grammar::property_token(old(self).bytes(), old(self).at()),
            ),
            parser::outcome(r, grammar::property_token(old(self).bytes(), old(self).at()).fault),
            final(self).parents() == old(self).parents(),
    {
        proof {
            reveal(grammar::property_token);
            reveal(grammar::tag_token);
        }
        let here = self.lex.pos;
        let mut probe = Lexer { src: self.lex.src, pos: here };
        proof {
            self.lemma_token_byte();
        }
        match probe.bump_tag() {
            Ok(_) => {
                self.token(SyntaxKind::TAG, probe.pos);
                Ok(())
            },
            Err(_) => Err(self.fail(here, "unterminated verbatim tag")),
        }
    }

    /// Whether an anchor, alias or tag follows the blanks here.
    pub(super) fn next_non_ws_byte_is_property_sigil(&self) -> (r: bool)
        requires
            self.good(),
        ensures
            r == grammar::sigil_after(self.bytes(), self.at()),
    {
        proof {
            reveal(grammar::sigil_after);
        }
        let bytes = self.lex.src.as_bytes();
        let i = run(bytes, self.lex.pos, ByteClass::Blank);
        i < bytes.len() && (bytes[i] == 0x26 || bytes[i] == 0x2a || bytes[i] == 0x21)
    }

    /// Adds anchors and tags in a row.
    pub(super) fn parse_property_list(&mut self) -> (r: Result<(), ParseError>)
        requires
            old(self).good(),
        ensures
            parser::made(
                *old(self),
                *final(self),
                grammar::property_list(old(self).bytes(), old(self).at()),
            ),
            parser::outcome(r, grammar::property_list(old(self).bytes(), old(self).at()).fault),
            final(self).parents() == old(self).parents(),
    {
        proof {
            reveal(grammar::property_list);
        }
        let ghost a = *self;
        let ghost s = self.bytes();
        let ghost goal = grammar::property_list(s, a.at());
        let ghost mut acc = grammar::none();
        proof {
            parser::lemma_cat_none(goal);
            assert(a.children() =~= a.children() + grammar::none().elems);
        }
        loop
            invariant
                a == *old(self),
                parser::made(a, *self, acc),
                acc.fault is None,
                s == a.bytes(),
                self.parents() == a.parents(),
                goal == grammar::property_list(s, a.at()),
                grammar::cat(acc, grammar::property_list(s, self.at())) == goal,
            decreases s.len() - self.at(),
        {
            proof {
                reveal(grammar::property_list);
            }
            let ghost b = *self;
            let here = self.lex.pos;
            let ghost one = grammar::property_token(s, b.at());
            let r = match self.lex.peek() {
                Some(LexHint::Token(SyntaxKind::ANCHOR)) => self.consume_anchor(),
                Some(LexHint::Token(SyntaxKind::TAG)) => self.consume_tag(),
                Some(LexHint::Token(SyntaxKind::ALIAS)) => {
                    let e = self.fail(here, "alias cannot follow other node properties");
                    proof {
                        parser::lemma_chain(a, b, *self, acc, grammar::property_list(s, b.at()));
                    }
                    return Err(e);
                },
                _ => {
                    proof {
                        parser::lemma_cat_none(acc);
                    }
                    return Ok(());
                },
            };
            proof {
                parser::lemma_chain(a, b, *self, acc, one);
            }
            match r {
                Err(e) => {
                    proof {
                        lemma_property_fault(s, b.at());
                    }
                    return Err(e);
                },
                Ok(_) => {},
            }
            if self.at_kind(SyntaxKind::WHITESPACE) && self.next_non_ws_byte_is_property_sigil() {
                let ghost c = *self;
                let ghost ws = grammar::simple(s, c.at());
                self.bump_simple();
                proof {
                    parser::lemma_chain(a, c, *self, grammar::cat(acc, one), ws);
                    parser::lemma_cat_assoc(acc, one, ws);
                    parser::lemma_cat_assoc(
                        acc,
                        grammar::cat(one, ws),
                        grammar::property_list(s, self.at()),
                    );
                    acc = grammar::cat(grammar::cat(acc, one), ws);
                }
            } else {
                return Ok(());
            }
        }
    }

    /// Adds the properties of a node. Whether they are an alias, which is a
    /// node itself.
    pub(super) fn parse_node_properties_with_alias_check(&mut self) -> (r: Result<bool, ParseError>)
        requires
            old(self).good(),
            grammar::property_at(old(self).bytes(), old(self).at()),
        ensures
            parser::made(
                *old(self),
                *final(self),
                grammar::properties(old(self).bytes(), old(self).at()),
            ),
            match r {
                Ok(alias) => grammar::properties(old(self).bytes(), old(self).at()).fault is None
                    && alias == grammar::at(old(self).bytes(), old(self).at(), SyntaxKind::ALIAS),
                Err(e) => grammar::properties(old(self).bytes(), old(self).at()).fault == Some(
                    e@,
                ) && e.expected@.len() == 0,
            },
            final(self).parents() == old(self).parents(),
            final(self).at() > old(self).at(),
    {
        proof {
            reveal(grammar::properties);
        }
        let ghost a = *self;
        let ghost s = self.bytes();
        proof {
            grammar::lemma_properties_len(s, a.at());
        }
        if self.at_kind(SyntaxKind::ALIAS) {
            self.start(SyntaxKind::ALIAS_NODE);
            let ghost b = *self;
            let r = self.consume_alias();
            let ghost inner = grammar::name_token(
                s,
                a.at(),
                SyntaxKind::ALIAS,
                "alias name cannot be empty"@,
            );
            proof {
                parser::lemma_chain(a, b, *self, grammar::none(), inner);
                parser::lemma_cat_none(inner);
            }
            self.finish(Ghost(SyntaxKind::ALIAS_NODE), Ghost(a), Ghost(inner));
            assert(self.parents() =~= a.parents());
            return match r {
                Ok(_) => Ok(true),
                Err(e) => Err(e),
            };
        }
        self.start(SyntaxKind::NODE_PROPERTIES);
        let ghost b = *self;
        let r = self.parse_property_list();
        let ghost inner = grammar::property_list(s, a.at());
        proof {
            parser::lemma_chain(a, b, *self, grammar::none(), inner);
            parser::lemma_cat_none(inner);
        }
        self.finish(Ghost(SyntaxKind::NODE_PROPERTIES), Ghost(a), Ghost(inner));
        assert(self.parents() =~= a.parents());
        match r {
            Ok(_) => Ok(false),
            Err(e) => Err(e),
        }
    }

    /// Adds what stands before the content of an entry's value. Whether the
    /// value is an alias.
    pub(super) fn parse_value_head(&mut self) -> (r: Result<bool, ParseError>)
        requires
            old(self).good(),
        ensures
            parser::made(
                *old(self),
                *final(self),
                grammar::value_head(old(self).bytes(), old(self).at()),
            ),
            match r {
                Ok(alias) => grammar::value_head(old(self).bytes(), old(self).at()).fault is None
                    && alias == grammar::value_is_alias(old(self).bytes(), old(self).at()),
                Err(e) => grammar::value_head(old(self).bytes(), old(self).at()).fault == Some(
                    e@,
                ) && e.expected@.len() == 0,
            },
            final(self).parents() == old(self).parents(),
    {
        proof {
            reveal(grammar::value_head);
            reveal(grammar::value_is_alias);
        }
        let ghost a = *self;
        let ghost s = self.bytes();
        let ghost i = grammar::inline_trivia(s, a.at());
        self.eat_inline_trivia();
        if !self.at_node_property_start() {
            return Ok(false);
        }
        let ghost b = *self;
        let ghost p = grammar::properties(s, b.at());
        let q = self.parse_node_properties_with_alias_check();
        proof {
            parser::lemma_chain(a, b, *self, i, p);
        }
        match q {
            Err(e) => Err(e),
            Ok(alias) => {
                if !alias {
                    let ghost c = *self;
                    self.eat_inline_trivia();
                    proof {
                        parser::lemma_chain(
                            a,
                            c,
                            *self,
                            grammar::cat(i, p),
                            grammar::inline_trivia(s, c.at()),
                        );
                    }
                }
                Ok(alias)
            },
        }
    }
}

/// A faulty property is the end of its list.
proof fn lemma_property_fault(s: Seq<u8>, pos: int)
    requires
        grammar::at(s, pos, SyntaxKind::ANCHOR) || grammar::at(s, pos, SyntaxKind::TAG),
        grammar::property_token(s, pos).fault is Some,
    ensures
        grammar::property_list(s, pos) == grammar::property_token(s, pos),
{
    reveal(grammar::property_list);
}

} // verus!

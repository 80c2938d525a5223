//! Block nodes.

use vstd::prelude::*;
use vstd::utf8::*;

use crate::error::ParseError;
use crate::grammar;
use crate::lexer::LexHint;
use crate::parser;
use crate::parser::Parser;
use crate::syntax::kind::SyntaxKind;

verus! {

broadcast use vstd::utf8::encode_utf8_valid_utf8;

impl<'a> Parser<'a> {
    #[verifier::rlimit(40)]
    /// Adds a block node whose content is indented by `indent`. The further lines of a
    /// plain scalar are indented by more than `scalar_min_indent`.
    pub(super) fn parse_block_node(&mut self, indent: usize, scalar_min_indent: usize) -> (r: Result<(), ParseError>)
        requires
            old(self).good(),
            old(self).roomy(),
        ensures
            parser::made(*old(self), *final(self), grammar::block_node(old(self).bytes(), old(self).at(), indent as int, scalar_min_indent)),
            parser::outcome(r, grammar::block_node(old(self).bytes(), old(self).at(), indent as int, scalar_min_indent).fault),
            final(self).parents() == old(self).parents(),
        decreases grammar::left(old(self).bytes(), old(self).at()), 6nat,
    {
        let ghost a = *self;
        let ghost s = self.bytes();
        let ghost pos = a.at();
        match self.reject_tab_indent_at_line_start() {
            Err(e) => {
                return Err(e);
            },
            Ok(_) => {},
        }
        if !self.at_node_property_start() {
            return self.parse_block_content(indent, scalar_min_indent);
        }
        let ghost p = grammar::properties(s, pos);
        match self.parse_node_properties_with_alias_check() {
            Err(e) => {
                return Err(e);
            },
            Ok(alias) => {
                if alias {
                    return Ok(());
                }
            },
        }
        proof {
            grammar::lemma_properties_len(s, pos);
        }
        let ghost b = *self;
        self.eat_inline_trivia();
        let ghost acc = grammar::cat(p, grammar::inline_trivia(s, b.at()));
        proof {
            parser::lemma_chain(a, b, *self, p, grammar::inline_trivia(s, b.at()));
        }
        let ghost c = *self;
        let r = self.parse_propertied_node(indent, scalar_min_indent);
        proof {
            parser::lemma_chain(
                a,
                c,
                *self,
                acc,
                grammar::propertied_node(s, c.at(), indent as int, scalar_min_indent),
            );
        }
        r
    }

    #[verifier::rlimit(40)]
    /// Adds a block node, behind its properties. The value may stand on a further
    /// line; else the properties stand for a null.
    pub(super) fn parse_propertied_node(&mut self, indent: usize, scalar_min_indent: usize) -> (r: Result<(), ParseError>)
        requires
            old(self).good(),
            old(self).roomy(),
        ensures
            parser::made(*old(self), *final(self), grammar::propertied_node(old(self).bytes(), old(self).at(), indent as int, scalar_min_indent)),
            parser::outcome(r, grammar::propertied_node(old(self).bytes(), old(self).at(), indent as int, scalar_min_indent).fault),
            final(self).parents() == old(self).parents(),
        decreases grammar::left(old(self).bytes(), old(self).at()), 7nat,
    {
        let ghost a = *self;
        let ghost s = self.bytes();
        let ghost pos = a.at();
        let line_end = match self.lex.peek() {
            None | Some(LexHint::Token(SyntaxKind::NEWLINE | SyntaxKind::COMMENT)) => true,
            _ => false,
        };
        if !line_end {
            return self.parse_block_content(indent, scalar_min_indent);
        }
        let col = match self.column_past_trivia() {
            Some((col, _)) => col,
            None => {
                assert(self.children() =~= a.children() + grammar::none().elems);
                return Ok(());
            },
        };
        if col < indent {
            assert(self.children() =~= a.children() + grammar::none().elems);
            return Ok(());
        }
        self.eat_trivia();
        if self.at_document_start_marker() || self.at_document_end_marker() {
            return Ok(());
        }
        let ghost b = *self;
        let r = self.parse_block_node(col, scalar_min_indent);
        proof {
            parser::lemma_chain(
                a,
                b,
                *self,
                grammar::trivia(s, pos),
                grammar::block_node(s, b.at(), col as int, scalar_min_indent),
            );
        }
        r
    }

    #[verifier::rlimit(40)]
    /// Adds a block node, its properties aside.
    pub(super) fn parse_block_content(&mut self, indent: usize, scalar_min_indent: usize) -> (r: Result<(), ParseError>)
        requires
            old(self).good(),
            old(self).roomy(),
        ensures
            parser::made(*old(self), *final(self), grammar::block_content(old(self).bytes(), old(self).at(), indent as int, scalar_min_indent)),
            parser::outcome(r, grammar::block_content(old(self).bytes(), old(self).at(), indent as int, scalar_min_indent).fault),
            final(self).parents() == old(self).parents(),
        decreases grammar::left(old(self).bytes(), old(self).at()), 5nat,
    {
        let ghost a = *self;
        let ghost s = self.bytes();
        let ghost pos = a.at();
        let ghost w = grammar::leading_whitespace(s, pos);
        match self.peek_past_leading_whitespace() {
            None => {
                assert(self.children() =~= a.children() + grammar::none().elems);
                Ok(())
            },
            Some(LexHint::Token(SyntaxKind::L_BRACE)) => {
                self.eat_leading_whitespace();
                let ghost b = *self;
                let r = self.parse_flow_mapping();
                proof {
                    parser::lemma_chain(a, b, *self, w, grammar::flow_mapping(s, b.at()));
                }
                r
            },
            Some(LexHint::Token(SyntaxKind::L_BRACKET)) => {
                self.eat_leading_whitespace();
                let ghost b = *self;
                let r = self.parse_flow_sequence();
                proof {
                    parser::lemma_chain(a, b, *self, w, grammar::flow_sequence(s, b.at()));
                }
                r
            },
            Some(LexHint::Token(SyntaxKind::DASH)) => self.parse_block_sequence(indent),
            Some(
                LexHint::PlainStart
                | LexHint::Token(
                    SyntaxKind::QUESTION
                    | SyntaxKind::SINGLE_QUOTED_SCALAR
                    | SyntaxKind::DOUBLE_QUOTED_SCALAR,
                ),
            ) => self.parse_block_mapping_or_scalar_ext(indent, scalar_min_indent),
            Some(LexHint::Token(SyntaxKind::LITERAL_SCALAR | SyntaxKind::FOLDED_SCALAR)) => {
                self.eat_leading_whitespace();
                let ghost b = *self;
                let r = self.parse_block_scalar(indent);
                proof {
                    parser::lemma_chain(a, b, *self, w, grammar::block_scalar(s, b.at(), indent as int));
                }
                r
            },
            Some(LexHint::Token(k)) => Err(self.unexpected(k, "")),
        }
    }
}

} // verus!

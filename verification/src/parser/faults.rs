//! Errors and implicit nulls.

use vstd::prelude::*;
use vstd::string::*;
use vstd::utf8::*;

use crate::error::ParseError;
use crate::grammar;
use crate::grammar::{Fault, Parsed};
use crate::parser;
use crate::parser::Parser;
use crate::syntax::blanks;
use crate::syntax::clear;
use crate::syntax::green;
use crate::syntax::green::{builder_finish_node, Tree};
use crate::syntax::kind;
use crate::syntax::kind::SyntaxKind;
use crate::syntax::known;
use crate::text;
use crate::text::{chars_of, string_of};

verus! {

broadcast use vstd::utf8::encode_utf8_valid_utf8;

impl<'a> Parser<'a> {
    /// Closes the innermost node, of kind `k`, which was opened around what was
    /// added since `a`, namely `p`.
    pub(super) fn finish(&mut self, Ghost(k): Ghost<SyntaxKind>, Ghost(a): Ghost<Parser<'a>>, Ghost(p): Ghost<
        Parsed,
    >)
        requires
            parser::made(a, *old(self), p),
            old(self).parents().len() > 0,
            old(self).parents().last() == (k.code(), a.children().len()),
            k == SyntaxKind::BLOCK_MAPPING ==> clear::clear_row(p.elems),
        ensures
            parser::made(a, *final(self), grammar::wrap(k, p)),
            final(self).parents() == old(self).parents().drop_last(),
    {
        let ghost cs = self.children();
        let ghost n = a.children().len() as int;
        let ghost s = self.bytes();
        assert(cs.skip(n) =~= p.elems);
        assert(cs.take(n) =~= a.children());
        proof {
            is_char_boundary_start_end_of_seq(s);
            text::lemma_chars_between(s, 0, self.at());
            green::lemma_trees_len_part(cs, n, cs.len() as int);
            assert(cs.subrange(n, cs.len() as int) =~= cs.skip(n));
        }
        builder_finish_node(&mut self.builder);
        let ghost node = Tree::Node { kind: k.code(), children: p.elems };
        assert(self.children() =~= a.children() + seq![node]);
        proof {
            green::lemma_trees_text_add(a.children(), p.elems);
            green::lemma_trees_text_add(a.children(), seq![node]);
            green::lemma_trees_text_one(node);
            assert(cs =~= a.children() + p.elems);
            reveal(Parser::all_known);
            known::lemma_known_add(a.children(), p.elems);
            known::lemma_known_add(a.children(), seq![node]);
            kind::lemma_kind_round_trip(k);
            known::lemma_each_known(seq![node]);
            reveal(Parser::all_apart);
            blanks::lemma_kinds_add(a.children(), p.elems);
            blanks::lemma_kinds_add(a.children(), seq![node]);
            blanks::lemma_kinds_one(node);
            reveal(Parser::all_clear);
            clear::lemma_clear_add(a.children(), p.elems);
            clear::lemma_clear_add(a.children(), seq![node]);
            clear::lemma_clear_one(node);
            kind::lemma_kind_round_trip(SyntaxKind::BLOCK_MAPPING);
        }
    }

    /// Adds the rest of the text as an `ERROR` token: the error.
    pub(super) fn fail(&mut self, offset: usize, message: &str) -> (e: ParseError)
        requires
            old(self).good(),
            offset <= old(self).bytes().len(),
        ensures
            parser::made(
                *old(self),
                *final(self),
                grammar::fail(old(self).bytes(), old(self).at(), offset as int, message@),
            ),
            final(self).parents() == old(self).parents(),
            e@ == (Fault { offset: offset as int, message: message@ }),
            e.expected@.len() == 0,
    {
        let ghost s = self.bytes();
        let len = self.lex.src.as_bytes().len();
        proof {
            is_char_boundary_start_end_of_seq(s);
        }
        if self.lex.pos < len {
            self.token(SyntaxKind::ERROR, len);
        } else {
            assert(self.children() =~= old(self).children() + Seq::<Tree>::empty());
        }
        ParseError::new(offset as u32, message)
    }

    /// The error for the token of kind `k` at the place.
    pub(super) fn unexpected(&mut self, k: SyntaxKind, place: &str) -> (e: ParseError)
        requires
            old(self).good(),
        ensures
            parser::made(
                *old(self),
                *final(self),
                grammar::unexpected(old(self).bytes(), old(self).at(), k, place@),
            ),
            final(self).parents() == old(self).parents(),
            grammar::unexpected(old(self).bytes(), old(self).at(), k, place@).fault == Some(e@),
            e.expected@.len() == 0,
    {
        proof {
            reveal(grammar::unexpected);
        }
        let mut message = string_of(&chars_of("unexpected token "));
        message.push_str(k.as_str());
        message.push_str(place);
        assert(message@ =~= "unexpected token "@ + k.name() + place@);
        let here = self.lex.pos;
        self.fail(here, message.as_str())
    }

    /// Adds an implicit null.
    pub(super) fn emit_null(&mut self)
        requires
            old(self).good(),
        ensures
            parser::made(*old(self), *final(self), grammar::null_node()),
            final(self).parents() == old(self).parents(),
    {
        let ghost a = *self;
        self.start(SyntaxKind::NULL_SCALAR);
        self.finish(Ghost(SyntaxKind::NULL_SCALAR), Ghost(a), Ghost(grammar::none()));
        assert(self.parents() =~= a.parents());
    }
}

} // verus!

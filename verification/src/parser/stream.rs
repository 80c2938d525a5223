//! Documents and the whole text.

use vstd::prelude::*;
use vstd::string::*;
use vstd::utf8::*;

use crate::error::ParseError;
use crate::grammar;
use crate::grammar::Parsed;
use crate::parser;
use crate::parser::Parser;
use crate::syntax::kind::SyntaxKind;

verus! {

broadcast use vstd::utf8::encode_utf8_valid_utf8;

impl<'a> Parser<'a> {
    /// Adds the directives here.
    fn parse_directives(&mut self)
        requires
            old(self).good(),
        ensures
            parser::made(
                *old(self),
                *final(self),
                grammar::wrap(
                    SyntaxKind::DIRECTIVES,
                    grammar::directive_list(old(self).bytes(), old(self).at()),
                ),
            ),
            grammar::directive_list(old(self).bytes(), old(self).at()).fault is None,
            final(self).parents() == old(self).parents(),
    {
        proof {
            reveal(grammar::directive_list);
        }
        let ghost a = *self;
        let ghost s = self.bytes();
        let ghost goal = grammar::directive_list(s, a.at());
        self.start(SyntaxKind::DIRECTIVES);
        let ghost b = *self;
        let ghost mut acc = grammar::none();
        proof {
            parser::lemma_cat_none(goal);
        }
        while self.at_kind(SyntaxKind::DIRECTIVE)
            invariant
                parser::made(a, *self, acc),
                acc.fault is None,
                s == a.bytes(),
                self.parents() == b.parents(),
                grammar::cat(acc, grammar::directive_list(s, self.at())) == goal,
            decreases s.len() - self.at(),
        {
            proof {
                reveal(grammar::directive_list);
                grammar::lemma_simple_len(s, self.at());
            }
            let ghost c = *self;
            self.bump_simple();
            let ghost d = *self;
            self.eat_trivia();
            proof {
                let x = grammar::simple(s, c.at());
                let t = grammar::trivia(s, d.at());
                let rest = grammar::directive_list(s, self.at());
                parser::lemma_chain(a, c, d, acc, x);
                parser::lemma_chain(a, d, *self, grammar::cat(acc, x), t);
                parser::lemma_cat_assoc(acc, x, t);
                parser::lemma_cat_assoc(acc, grammar::cat(x, t), rest);
                acc = grammar::cat(acc, grammar::cat(x, t));
            }
        }
        proof {
            parser::lemma_cat_none(acc);
        }
        self.finish(Ghost(SyntaxKind::DIRECTIVES), Ghost(a), Ghost(goal));
        assert(self.parents() =~= a.parents());
    }

    /// Adds the content of a document, if there is any.
    fn parse_document_body_if_any(&mut self) -> (r: Result<(), ParseError>)
        requires
            old(self).good(),
            old(self).roomy(),
        ensures
            parser::made(
                *old(self),
                *final(self),
                grammar::document_body(old(self).bytes(), old(self).at()),
            ),
            parser::outcome(r, grammar::document_body(old(self).bytes(), old(self).at()).fault),
            final(self).parents() == old(self).parents(),
    {
        proof {
            reveal(grammar::document_body);
        }
        if self.lex.at_eof() || self.at_document_start_marker() || self.at_document_end_marker() {
            assert(self.children() =~= old(self).children() + grammar::none().elems);
            return Ok(());
        }
        let col = self.lex.column();
        self.parse_block_node(col, col)
    }

    /// Adds what may follow the document `d`, which began at `a`.
    fn finish_document(&mut self, Ghost(a): Ghost<Parser<'a>>, Ghost(d): Ghost<Parsed>)
        requires
            parser::made(a, *old(self), d),
            d.fault is None,
        ensures
            parser::made(a, *final(self), grammar::document_end(a.bytes(), a.at(), d)),
            grammar::document_end(a.bytes(), a.at(), d).fault is None,
            final(self).parents() == old(self).parents(),
    {
        let ghost s = a.bytes();
        let ghost b = *self;
        self.eat_trivia();
        let ghost t = grammar::cat(d, grammar::trivia(s, b.at()));
        proof {
            parser::lemma_chain(a, b, *self, d, grammar::trivia(s, b.at()));
        }
        if self.at_document_end_marker() {
            let ghost c = *self;
            self.bump_marker(SyntaxKind::DOCUMENT_END);
            let ghost m = grammar::token(s, c.at(), SyntaxKind::DOCUMENT_END, 3);
            proof {
                parser::lemma_chain(a, c, *self, t, m);
            }
            let ghost e = *self;
            self.eat_trivia();
            proof {
                parser::lemma_chain(
                    a,
                    e,
                    *self,
                    grammar::cat(t, m),
                    grammar::trivia(s, e.at()),
                );
            }
        }
    }

    #[verifier::rlimit(30)]
    /// Adds one document, with its directives and what may follow it.
    fn parse_document(&mut self, first: bool) -> (r: Result<(), ParseError>)
        requires
            old(self).good(),
        ensures
            parser::made(
                *old(self),
                *final(self),
                grammar::document(old(self).bytes(), old(self).at(), first),
            ),
            parser::outcome(r, grammar::document(old(self).bytes(), old(self).at(), first).fault),
            final(self).parents() == old(self).parents(),
            r is Ok && !first ==> final(self).at() > old(self).at(),
    {
        proof {
            reveal(grammar::document);
        }
        let ghost a = *self;
        let ghost s = self.bytes();
        let ghost mut d = grammar::none();
        let directives = self.at_kind(SyntaxKind::DIRECTIVE);
        if directives {
            self.parse_directives();
            proof {
                d = grammar::wrap(SyntaxKind::DIRECTIVES, grammar::directive_list(s, a.at()));
            }
        } else {
            assert(self.children() =~= a.children() + grammar::none().elems);
        }
        let ghost b = *self;
        if self.at_document_start_marker() {
            self.start(SyntaxKind::DOCUMENT);
            let ghost b1 = *self;
            self.bump_marker(SyntaxKind::DIRECTIVES_END);
            let ghost m = grammar::token(s, b.at(), SyntaxKind::DIRECTIVES_END, 3);
            proof {
                parser::lemma_chain(b, b1, *self, grammar::none(), m);
                parser::lemma_cat_none(m);
            }
            let ghost c = *self;
            self.eat_trivia();
            let ghost t = grammar::cat(m, grammar::trivia(s, c.at()));
            proof {
                parser::lemma_chain(b, c, *self, m, grammar::trivia(s, c.at()));
            }
            let ghost e = *self;
            let ghost body = grammar::document_body(s, e.at());
            let r = self.parse_document_body_if_any();
            proof {
                parser::lemma_chain(b, e, *self, t, body);
            }
            self.close_document(Ghost(b), Ghost(grammar::cat(t, body)), &r);
            proof {
                let doc = grammar::wrap(SyntaxKind::DOCUMENT, grammar::cat(t, body));
                parser::lemma_chain(a, b, *self, d, grammar::document_end(s, b.at(), doc));
            }
            return r;
        }
        if directives {
            let here = self.lex.pos;
            let e = self.fail(here, "expected '---' after directives");
            proof {
                parser::lemma_chain(
                    a,
                    b,
                    *self,
                    d,
                    grammar::fail(s, b.at(), b.at(), "expected '---' after directives"@),
                );
            }
            return Err(e);
        }
        if !first {
            let here = self.lex.pos;
            return Err(
                self.fail(here, "unexpected content after document; expected '---' or '...'"),
            );
        }
        self.start(SyntaxKind::DOCUMENT);
        let ghost b1 = *self;
        let ghost body = grammar::document_body(s, a.at());
        let r = self.parse_document_body_if_any();
        proof {
            parser::lemma_chain(b, b1, *self, grammar::none(), body);
            parser::lemma_cat_none(body);
        }
        self.close_document(Ghost(b), Ghost(body), &r);
        r
    }

    /// Closes the document that began at `a` and holds `body`, and adds what may
    /// follow it.
    fn close_document(
        &mut self,
        Ghost(a): Ghost<Parser<'a>>,
        Ghost(body): Ghost<Parsed>,
        r: &Result<(), ParseError>,
    )
        requires
            parser::made(a, *old(self), body),
            old(self).parents() == a.parents().push(
                (SyntaxKind::DOCUMENT.code(), a.children().len()),
            ),
            parser::outcome(*r, body.fault),
        ensures
            parser::made(
                a,
                *final(self),
                grammar::document_end(
                    a.bytes(),
                    a.at(),
                    grammar::wrap(SyntaxKind::DOCUMENT, body),
                ),
            ),
            parser::outcome(
                *r,
                grammar::document_end(
                    a.bytes(),
                    a.at(),
                    grammar::wrap(SyntaxKind::DOCUMENT, body),
                ).fault,
            ),
            final(self).parents() == a.parents(),
    {
        let ghost d = grammar::wrap(SyntaxKind::DOCUMENT, body);
        self.finish(Ghost(SyntaxKind::DOCUMENT), Ghost(a), Ghost(body));
        assert(self.parents() =~= a.parents());
        if r.is_ok() {
            self.finish_document(Ghost(a), Ghost(d));
        }
    }

    /// Adds all documents.
    fn parse_documents(&mut self) -> (r: Result<(), ParseError>)
        requires
            old(self).good(),
        ensures
            parser::made(
                *old(self),
                *final(self),
                grammar::documents(old(self).bytes(), old(self).at(), true),
            ),
            parser::outcome(r, grammar::documents(old(self).bytes(), old(self).at(), true).fault),
            final(self).parents() == old(self).parents(),
            final(self).at() == final(self).bytes().len(),
    {
        let ghost a = *self;
        let ghost s = self.bytes();
        let ghost goal = grammar::documents(s, a.at(), true);
        let ghost mut acc = grammar::none();
        let mut first = true;
        proof {
            parser::lemma_cat_none(goal);
            assert(a.children() =~= a.children() + grammar::none().elems);
        }
        while !self.lex.at_eof()
            invariant
                a == *old(self),
                parser::made(a, *self, acc),
                acc.fault is None,
                s == a.bytes(),
                self.parents() == a.parents(),
                goal == grammar::documents(s, a.at(), true),
                grammar::cat(acc, grammar::documents(s, self.at(), first)) == goal,
            decreases
                    if first {
                        1nat
                    } else {
                        0nat
                    },
                    s.len() - self.at(),
        {
            proof {
                reveal(grammar::documents);
            }
            let ghost b = *self;
            let ghost d = grammar::document(s, b.at(), first);
            let r = self.parse_document(first);
            proof {
                parser::lemma_chain(a, b, *self, acc, d);
            }
            if r.is_err() {
                return r;
            }
            first = false;
            proof {
                parser::lemma_cat_assoc(acc, d, grammar::documents(s, self.at(), false));
                acc = grammar::cat(acc, d);
            }
        }
        proof {
            reveal(grammar::documents);
            parser::lemma_cat_none(acc);
        }
        Ok(())
    }

    /// Adds the whole text.
    pub(super) fn parse_stream(&mut self) -> (r: Result<(), ParseError>)
        requires
            old(self).good(),
            old(self).at() == 0,
        ensures
            parser::made(*old(self), *final(self), grammar::stream(old(self).bytes())),
            parser::outcome(r, grammar::stream(old(self).bytes()).fault),
            final(self).parents() == old(self).parents(),
            final(self).at() == final(self).bytes().len(),
    {
        let ghost a = *self;
        let ghost s = self.bytes();
        self.start(SyntaxKind::STREAM);
        let ghost b = *self;
        let ghost mut m = grammar::none();
        if self.at_kind(SyntaxKind::BOM) {
            self.bump_simple();
            proof {
                m = grammar::simple(s, 0);
                parser::lemma_chain(a, b, *self, grammar::none(), m);
                parser::lemma_cat_none(m);
            }
        }
        let ghost c = *self;
        self.eat_trivia();
        let ghost t = grammar::cat(m, grammar::trivia(s, c.at()));
        proof {
            parser::lemma_chain(a, c, *self, m, grammar::trivia(s, c.at()));
        }
        let ghost d = *self;
        let r = self.parse_documents();
        let ghost inner = grammar::cat(t, grammar::documents(s, d.at(), true));
        proof {
            parser::lemma_chain(a, d, *self, t, grammar::documents(s, d.at(), true));
        }
        self.finish(Ghost(SyntaxKind::STREAM), Ghost(a), Ghost(inner));
        assert(self.parents() =~= a.parents());
        r
    }
}

} // verus!

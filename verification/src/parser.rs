//! The parser: builds the syntax tree that the grammar says.

mod entry;
mod explicit;
mod mapping;
mod node;
mod sequence;
mod stream;
mod tail;
mod faults;
mod flow;
mod scalar;
mod trivia;

use vstd::prelude::*;
use vstd::string::*;
use vstd::utf8::*;

use crate::error::ParseError;
use crate::grammar;
use crate::grammar::{Fault, Parsed};
use crate::lexer;
use crate::lexer::Lexer;
use crate::syntax::blanks;
use crate::syntax::clear;
use crate::syntax::green;
use crate::syntax::green::{
    builder_finish, builder_new, builder_start, builder_start_at, builder_token, Tree, MAX_LEN,
};
use crate::syntax::kind;
use crate::syntax::kind::SyntaxKind;
use crate::syntax::known;
use crate::syntax::node::SyntaxNode;
use crate::syntax::tree::SyntaxTree;
use crate::text;
use crate::text::slice;

verus! {

broadcast use vstd::utf8::encode_utf8_valid_utf8;

/// A place in a text, and the tree of what lies before it.
pub struct Parser<'a> {
    lex: Lexer<'a>,
    builder: rowan::GreenNodeBuilder<'static>,
}

/// Whether `b` came from `a` by adding `p`; a fault takes all that is left of
/// the text. The open nodes are another matter.
spec fn made(a: Parser<'_>, b: Parser<'_>, p: Parsed) -> bool {
    &&& b.good()
    &&& b.lex.src == a.lex.src
    &&& b.at() == a.at() + p.len
    &&& b.children() == a.children() + p.elems
    &&& p.fault is Some ==> b.at() == b.bytes().len()
}

/// Whether a result is an error just where there is a fault, and that one.
spec fn outcome(r: Result<(), ParseError>, fault: Option<Fault>) -> bool {
    match r {
        Ok(_) => fault is None,
        Err(e) => fault == Some(e@) && e.expected@.len() == 0,
    }
}

/// Adding `p` and then `q` is adding both.
proof fn lemma_chain(a: Parser<'_>, b: Parser<'_>, c: Parser<'_>, p: Parsed, q: Parsed)
    requires
        made(a, b, p),
        made(b, c, q),
        p.fault is None,
    ensures
        made(a, c, grammar::cat(p, q)),
{
    assert(c.children() =~= a.children() + (p.elems + q.elems));
}

/// `cat` is associative.
proof fn lemma_cat_assoc(a: Parsed, b: Parsed, c: Parsed)
    ensures
        grammar::cat(grammar::cat(a, b), c) == grammar::cat(a, grammar::cat(b, c)),
{
    assert((a.elems + b.elems) + c.elems =~= a.elems + (b.elems + c.elems));
}

/// Nothing added at either end changes nothing.
proof fn lemma_cat_none(a: Parsed)
    ensures
        grammar::cat(grammar::none(), a) == a,
        grammar::cat(a, grammar::none()) == a,
{
    assert(grammar::none().elems + a.elems =~= a.elems);
    assert(a.elems + grammar::none().elems =~= a.elems);
}

/// The tree of a text, and its first error if it has one. On an error all that
/// is left of the text becomes one `ERROR` token, so that the tree still holds
/// all of it.
pub fn parse_recover(source: &str) -> (r: (SyntaxTree, Vec<ParseError>))
    requires
        source.spec_bytes().len() <= MAX_LEN,
    ensures
        r.0.wf(),
        seq![r.0@] == grammar::stream(source.spec_bytes()).elems,
        r.0@.text() == source@,
        known::known(r.0@),
        blanks::apart(blanks::kinds(r.0@)),
        clear::clear(r.0@),
        match grammar::stream(source.spec_bytes()).fault {
            None => r.1@.len() == 0,
            Some(f) => r.1@.len() == 1 && r.1@[0]@ == f && r.1@[0].expected@.len() == 0,
        },
{
    let mut p = Parser::new(source);
    let ghost s = p.bytes();
    let ghost g = grammar::stream(s);
    let mut errors: Vec<ParseError> = Vec::new();
    if let Err(e) = p.parse_stream() {
        errors.push(e);
    }
    assert(p.children() =~= g.elems);
    assert(g.elems.len() == 1 && g.elems[0] is Node);
    proof {
        reveal(Parser::all_known);
        known::lemma_all_known(p.children(), 0);
        reveal(Parser::all_apart);
        blanks::lemma_kinds_one(g.elems[0]);
        reveal(Parser::all_clear);
        clear::lemma_all_clear(p.children(), 0);
    }
    let green = builder_finish(p.builder);
    let tree = SyntaxTree::new(SyntaxNode::new_root(green));
    proof {
        assert(seq![tree@] =~= g.elems);
        green::lemma_trees_text_one(tree@);
        assert(s.subrange(0, s.len() as int) =~= s);
        encode_utf8_decode_utf8(source@);
    }
    (tree, errors)
}

/// The tree of a text without errors; else its first error.
pub fn parse(source: &str) -> (r: Result<SyntaxTree, ParseError>)
    requires
        source.spec_bytes().len() <= MAX_LEN,
    ensures
        match r {
            Ok(t) => grammar::stream(source.spec_bytes()).fault is None && t.wf() && seq![t@]
                == grammar::stream(source.spec_bytes()).elems && t@.text() == source@ && known::known(
                t@,
            ) && blanks::apart(blanks::kinds(t@)) && clear::clear(t@),
            Err(e) => grammar::stream(source.spec_bytes()).fault == Some(e@) && e.expected@.len()
                == 0,
        },
{
    let (tree, errors) = parse_recover(source);
    let mut errors = errors;
    match errors.pop() {
        Some(e) => Err(e),
        None => Ok(tree),
    }
}

impl<'a> Parser<'a> {
    /// The bytes of the text.
    spec fn bytes(&self) -> Seq<u8> {
        self.lex.bytes()
    }

    /// The place.
    spec fn at(&self) -> int {
        self.lex.pos as int
    }

    /// The open nodes.
    spec fn parents(&self) -> Seq<(u16, nat)> {
        green::builder_parents(self.builder)
    }

    /// The finished trees.
    spec fn children(&self) -> Seq<Tree> {
        green::builder_children(self.builder)
    }

    /// The finished trees hold the text up to the place, which is a character
    /// boundary.
    spec fn good(&self) -> bool {
        &&& self.lex.on_boundary()
        &&& self.bytes().len() <= MAX_LEN
        &&& green::trees_text(self.children()) == text::chars_between(self.bytes(), 0, self.at())
        &&& self.all_known()
        &&& self.all_apart()
        &&& self.all_clear()
    }

    /// Whether no whitespace among the finished trees, and before the place, stands
    /// right behind whitespace.
    #[verifier::opaque]
    spec fn all_apart(&self) -> bool {
        let ks = blanks::all_kinds(self.children());
        &&& blanks::apart(ks)
        &&& blanks::ends_blank(ks) ==> !self.at_blank(self.at())
    }

    /// Whether a space or a tab stands at `i`.
    spec fn at_blank(&self, i: int) -> bool {
        0 <= i < self.bytes().len() && lexer::is_blank(self.bytes()[i])
    }

    /// Whether the finished trees are of known kinds.
    #[verifier::opaque]
    spec fn all_known(&self) -> bool {
        known::all_known(self.children())
    }

    /// Whether the entries of the finished trees hold their indentation.
    #[verifier::opaque]
    spec fn all_clear(&self) -> bool {
        clear::all_clear(self.children())
    }

    /// Whether the children of the innermost open node begin among the finished
    /// trees.
    spec fn roomy(&self) -> bool {
        self.parents().len() > 0 ==> self.parents().last().1 <= self.children().len()
    }

    /// A parser at the start of `source`.
    fn new(source: &'a str) -> (r: Self)
        requires
            source.spec_bytes().len() <= MAX_LEN,
        ensures
            r.good(),
            r.lex.src == source,
            r.at() == 0,
            r.parents() == Seq::<(u16, nat)>::empty(),
            r.children() == Seq::<Tree>::empty(),
    {
        let r = Parser { lex: Lexer::new(source), builder: builder_new() };
        reveal(Parser::all_known);
        reveal(Parser::all_apart);
        reveal(Parser::all_clear);
        assert(r.bytes().subrange(0, 0) =~= seq![]);
        r
    }

    /// Opens a node.
    fn start(&mut self, k: SyntaxKind)
        requires
            old(self).good(),
        ensures
            made(*old(self), *final(self), grammar::none()),
            final(self).parents() == old(self).parents().push(
                (k.code(), old(self).children().len()),
            ),
    {
        builder_start(&mut self.builder, k.raw());
        assert(self.children() =~= old(self).children() + grammar::none().elems);
        assert(self.all_known() && self.all_apart() && self.all_clear()) by {
            reveal(Parser::all_known);
            reveal(Parser::all_apart);
            reveal(Parser::all_clear);
            assert(self.children() =~= old(self).children());
        }
    }

    /// Opens a node around what was added since the checkpoint.
    fn start_at(&mut self, cp: rowan::Checkpoint, k: SyntaxKind)
        requires
            old(self).good(),
            green::checkpoint_of(cp) <= old(self).children().len(),
            old(self).parents().len() > 0 ==> green::checkpoint_of(cp) >= old(
                self,
            ).parents().last().1,
        ensures
            made(*old(self), *final(self), grammar::none()),
            final(self).parents() == old(self).parents().push(
                (k.code(), green::checkpoint_of(cp)),
            ),
    {
        builder_start_at(&mut self.builder, cp, k.raw());
        assert(self.children() =~= old(self).children() + grammar::none().elems);
        assert(self.all_known() && self.all_apart() && self.all_clear()) by {
            reveal(Parser::all_known);
            reveal(Parser::all_apart);
            reveal(Parser::all_clear);
            assert(self.children() =~= old(self).children());
        }
    }

    /// Adds a token of kind `k` over the text up to `end`.
    fn token(&mut self, k: SyntaxKind, end: usize)
        requires
            old(self).good(),
            old(self).at() <= end <= old(self).bytes().len(),
            is_char_boundary(old(self).bytes(), end as int),
            k == SyntaxKind::WHITESPACE ==> old(self).at_blank(old(self).at()) && !old(
                self,
            ).at_blank(end as int),
        ensures
            made(
                *old(self),
                *final(self),
                grammar::token(old(self).bytes(), old(self).at(), k, (end - old(self).at()) as nat),
            ),
            final(self).parents() == old(self).parents(),
    {
        let ghost s = self.bytes();
        let ghost cs = self.children();
        let start = self.lex.pos;
        let t = slice(self.lex.src, start, end);
        builder_token(&mut self.builder, k.raw(), t);
        self.lex.pos = end;
        let ghost tok = Tree::Token {
            kind: k.code(),
            text: text::chars_between(s, start as int, end as int),
        };
        assert(self.children() =~= cs + seq![tok]);
        proof {
            is_char_boundary_start_end_of_seq(s);
            text::lemma_chars_join(s, 0, start as int, end as int);
            green::lemma_trees_text_add(cs, seq![tok]);
            green::lemma_trees_text_one(tok);
            reveal(Parser::all_known);
            known::lemma_known_add(cs, seq![tok]);
            kind::lemma_kind_round_trip(k);
            known::lemma_each_known(seq![tok]);
            reveal(Parser::all_apart);
            blanks::lemma_kinds_add(cs, seq![tok]);
            blanks::lemma_kinds_one(tok);
            kind::lemma_kind_round_trip(SyntaxKind::WHITESPACE);
            reveal(Parser::all_clear);
            text::lemma_chars_between(s, start as int, end as int);
            if k == SyntaxKind::WHITESPACE {
                assert(start < end);
                assert(encode_utf8(tok.text()).len() > 0);
            }
            clear::lemma_clear_add(cs, seq![tok]);
            clear::lemma_clear_one(tok);
        }
    }
}

} // verus!

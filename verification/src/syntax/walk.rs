//! Neighbours in a tree: the tokens before and after a place.

use vstd::prelude::*;
use vstd::string::*;
use vstd::utf8::*;

use crate::syntax::green;
use crate::syntax::green::Tree;
use crate::syntax::node::{SyntaxElement, SyntaxNode, SyntaxToken};
use crate::syntax::path;

verus! {

/// The path of the last token of `t`, which stands at `path`. There is none
/// where the last child, at some depth, is a node without children (or with
/// more than a machine word can count).
pub open spec fn last_leaf(t: Tree, path: Seq<usize>) -> Option<Seq<usize>>
    decreases t,
{
    match t {
        Tree::Token { .. } => Some(path),
        Tree::Node { children, .. } => if children.len() == 0 || children.len() > usize::MAX {
            None
        } else {
            last_leaf(children[children.len() - 1], path.push((children.len() - 1) as usize))
        },
    }
}

/// The path of the first token of `t`, which stands at `path`. There is none
/// where the first child, at some depth, is a node without children.
pub open spec fn first_leaf(t: Tree, path: Seq<usize>) -> Option<Seq<usize>>
    decreases t,
{
    match t {
        Tree::Token { .. } => Some(path),
        Tree::Node { children, .. } => if children.len() == 0 {
            None
        } else {
            first_leaf(children[0], path.push(0))
        },
    }
}

/// The path of the token before the place `path`: the last token of what stands
/// before it.
pub open spec fn prev_leaf(whole: Tree, path: Seq<usize>) -> Option<Seq<usize>>
    decreases path.len(),
{
    if path.len() == 0 {
        None
    } else {
        let up = path.drop_last();
        let i = path.last() as int;
        if i > 0 {
            last_leaf(
                path::tree_at(whole, up)->0.children()[i - 1],
                up.push((i - 1) as usize),
            )
        } else {
            prev_leaf(whole, up)
        }
    }
}

// ---- Order ----

/// The number of nodes and tokens in a tree.
pub open spec fn size(t: Tree) -> nat
    decreases t,
{
    match t {
        Tree::Token { .. } => 1,
        Tree::Node { children, .. } => 1 + sizes(children),
    }
}

/// The number of nodes and tokens in trees in a row.
pub open spec fn sizes(ts: Seq<Tree>) -> nat
    decreases ts,
{
    if ts.len() == 0 {
        0
    } else {
        sizes(ts.drop_last()) + size(ts.last())
    }
}

/// The number of nodes and tokens that stand before the place `path`.
pub open spec fn before(whole: Tree, path: Seq<usize>) -> nat
    decreases path.len(),
{
    if path.len() == 0 {
        0
    } else {
        let up = path.drop_last();
        before(whole, up) + 1 + sizes(
            path::tree_at(whole, up)->0.children().take(path.last() as int),
        )
    }
}

/// The last token of a tree stands in it.
pub proof fn lemma_last_leaf(whole: Tree, t: Tree, path: Seq<usize>)
    requires
        path::tree_at(whole, path) == Some(t),
        last_leaf(t, path) is Some,
    ensures
        ({
            let q = last_leaf(t, path)->0;
            &&& path::tree_at(whole, q) is Some
            &&& path::tree_at(whole, q)->0 is Token
            &&& path.len() <= q.len()
            &&& before(whole, q) < before(whole, path) + size(t)
        }),
    decreases t,
{
    match t {
        Tree::Token { .. } => {},
        Tree::Node { children, .. } => {
            let n = children.len();
            let deeper = path.push((n - 1) as usize);
            assert(deeper.drop_last() =~= path);
            assert(path::tree_at(whole, deeper) == Some(children[n - 1]));
            assert(children.take(n - 1) =~= children.drop_last());
            lemma_last_leaf(whole, children[n - 1], deeper);
        },
    }
}

/// The first token of a tree stands in it.
pub proof fn lemma_first_leaf(whole: Tree, t: Tree, path: Seq<usize>)
    requires
        path::tree_at(whole, path) == Some(t),
        first_leaf(t, path) is Some,
    ensures
        ({
            let q = first_leaf(t, path)->0;
            &&& path::tree_at(whole, q) is Some
            &&& path::tree_at(whole, q)->0 is Token
            &&& path.len() <= q.len()
        }),
    decreases t,
{
    match t {
        Tree::Token { .. } => {},
        Tree::Node { children, .. } => {
            let deeper = path.push(0usize);
            assert(deeper.drop_last() =~= path);
            assert(path::tree_at(whole, deeper) == Some(children[0]));
            lemma_first_leaf(whole, children[0], deeper);
        },
    }
}

/// The token before a place is a token, and stands before it.
pub proof fn lemma_prev_leaf(whole: Tree, path: Seq<usize>)
    requires
        path::tree_at(whole, path) is Some,
        prev_leaf(whole, path) is Some,
    ensures
        ({
            let q = prev_leaf(whole, path)->0;
            &&& path::tree_at(whole, q) is Some
            &&& path::tree_at(whole, q)->0 is Token
            &&& q.len() > 0
            &&& before(whole, q) < before(whole, path)
        }),
    decreases path.len(),
{
    let up = path.drop_last();
    let i = path.last() as int;
    if i > 0 {
        let cs = path::tree_at(whole, up)->0.children();
        let side = up.push((i - 1) as usize);
        assert(side.drop_last() =~= up);
        assert(path::tree_at(whole, side) == Some(cs[i - 1]));
        assert(cs.take(i).drop_last() =~= cs.take(i - 1));
        lemma_last_leaf(whole, cs[i - 1], side);
    } else {
        lemma_prev_leaf(whole, up);
    }
}

// ---- Tokens ----

impl SyntaxToken {
    /// The token's path.
    pub open spec fn place(self) -> Seq<usize> {
        self.parent.path@.push(self.index)
    }

    /// Whether this is the token at `q` in the tree `whole`.
    pub open spec fn stands_at(self, whole: Tree, q: Seq<usize>) -> bool {
        &&& self.wf()
        &&& self.parent.whole() == whole
        &&& self.place() == q
        &&& path::tree_at(whole, q) == Some(self.tree())
    }

    /// The token before this one.
    pub fn prev_token(&self) -> (r: Option<SyntaxToken>)
        requires
            self.wf(),
        ensures
            match prev_leaf(self.parent.whole(), self.place()) {
                Some(q) => r is Some && r->0.stands_at(self.parent.whole(), q),
                None => r is None,
            },
    {
        assert(self.place().drop_last() =~= self.parent.path@);
        if self.index > 0 {
            let before = self.parent.child_or_token(self.index - 1);
            last_token_of(before, Ghost(self.parent), self.index - 1)
        } else {
            token_before(&self.parent)
        }
    }
}

/// The last token of an element, which is the child at `i` of `p`.
fn last_token_of(e: SyntaxElement, Ghost(p): Ghost<SyntaxNode>, i: usize) -> (r: Option<
    SyntaxToken,
>)
    requires
        e.is_at(p, i as int),
        p.wf(),
    ensures
        match last_leaf(e.tree(), p.path@.push(i)) {
            Some(q) => r is Some && r->0.stands_at(p.whole(), q),
            None => r is None,
        },
{
    match e {
        SyntaxElement::Token(t) => {
            assert(p.path@.push(i).drop_last() =~= p.path@);
            Some(t)
        },
        SyntaxElement::Node(n) => n.last_token(),
    }
}

/// The token before a node.
pub fn token_before(n: &SyntaxNode) -> (r: Option<SyntaxToken>)
    requires
        n.wf(),
    ensures
        match prev_leaf(n.whole(), n.path@) {
            Some(q) => r is Some && r->0.stands_at(n.whole(), q),
            None => r is None,
        },
    decreases n.path@.len(),
{
    match n.parent() {
        None => None,
        Some(p) => {
            let i = n.index();
            if i > 0 {
                let before = p.child_or_token(i - 1);
                last_token_of(before, Ghost(p), i - 1)
            } else {
                token_before(&p)
            }
        },
    }
}

impl SyntaxNode {
    /// The last token of the node.
    pub fn last_token(&self) -> (r: Option<SyntaxToken>)
        requires
            self.wf(),
        ensures
            match last_leaf(self.tree(), self.path@) {
                Some(q) => r is Some && r->0.stands_at(self.whole(), q),
                None => r is None,
            },
        decreases self.tree(),
    {
        let n = self.len();
        if n == 0 {
            return None;
        }
        let ghost t = self.tree();
        assert(t->Node_children == self.parts());
        assert(decreases_to!(t => t->Node_children));
        assert(decreases_to!(self.parts() => self.parts()[n - 1]));
        match self.child_or_token(n - 1) {
            SyntaxElement::Token(t) => {
                let ghost q = self.path@.push((n - 1) as usize);
                assert(q.drop_last() =~= self.path@);
                assert(last_leaf(self.parts()[n - 1], q) == Some(q));
                Some(t)
            },
            SyntaxElement::Node(c) => c.last_token(),
        }
    }

    /// The first token of the node.
    pub fn first_token(&self) -> (r: Option<SyntaxToken>)
        requires
            self.wf(),
        ensures
            match first_leaf(self.tree(), self.path@) {
                Some(q) => r is Some && r->0.stands_at(self.whole(), q),
                None => r is None,
            },
        decreases self.tree(),
    {
        let n = self.len();
        if n == 0 {
            return None;
        }
        let ghost t = self.tree();
        assert(t->Node_children == self.parts());
        assert(decreases_to!(t => t->Node_children));
        assert(decreases_to!(self.parts() => self.parts()[0]));
        match self.child_or_token(0) {
            SyntaxElement::Token(t) => {
                let ghost q = self.path@.push(0usize);
                assert(q.drop_last() =~= self.path@);
                assert(first_leaf(self.parts()[0], q) == Some(q));
                Some(t)
            },
            SyntaxElement::Node(c) => c.first_token(),
        }
    }
}

// ---- Offsets ----

/// The text before the place `path`.
pub open spec fn text_before(whole: Tree, path: Seq<usize>) -> Seq<char>
    decreases path.len(),
{
    if path.len() == 0 {
        seq![]
    } else {
        let up = path.drop_last();
        text_before(whole, up) + green::trees_text(
            path::tree_at(whole, up)->0.children().take(path.last() as int),
        )
    }
}

/// How many bytes of text stand before the place `path`.
pub open spec fn offset(whole: Tree, path: Seq<usize>) -> nat {
    encode_utf8(text_before(whole, path)).len()
}

/// How many bytes of text stand before the end of the tree at `path`.
pub open spec fn end_offset(whole: Tree, path: Seq<usize>) -> nat {
    encode_utf8(text_before(whole, path) + path::tree_at(whole, path)->0.text()).len()
}

/// Where a text begins and ends, in bytes.
#[derive(Debug, Clone, Copy, PartialEq, Eq, Structural)]
pub struct TextRange {
    pub start: usize,
    pub end: usize,
}

/// Appends the text of the first `n` children.
fn push_text_of(n: &SyntaxNode, k: usize, out: &mut String)
    requires
        n.wf(),
        k <= n.parts().len(),
    ensures
        final(out)@ == old(out)@ + green::trees_text(n.parts().take(k as int)),
{
    let ghost cs = n.parts();
    let mut i: usize = 0;
    assert(cs.take(0) =~= seq![]);
    assert(out@ =~= old(out)@ + green::trees_text(cs.take(0)));
    while i < k
        invariant
            n.wf(),
            cs == n.parts(),
            i <= k <= cs.len(),
            out@ == old(out)@ + green::trees_text(cs.take(i as int)),
        decreases k - i,
    {
        let ghost before = out@;
        match n.child_or_token(i) {
            SyntaxElement::Node(c) => {
                green::emit_node(&c.green, out);
            },
            SyntaxElement::Token(t) => {
                out.push_str(t.text());
            },
        }
        proof {
            green::lemma_trees_text_push(cs, i as int);
            assert(out@ =~= old(out)@ + green::trees_text(cs.take(i + 1)));
        }
        i = i + 1;
    }
}

/// The text before a node.
fn collect_before(n: &SyntaxNode) -> (r: String)
    requires
        n.wf(),
    ensures
        r@ == text_before(n.whole(), n.path@),
    decreases n.path@.len(),
{
    match n.parent() {
        None => {
            let r = String::new();
            assert(r@ =~= seq![]);
            r
        },
        Some(p) => {
            let mut out = collect_before(&p);
            push_text_of(&p, n.index(), &mut out);
            out
        },
    }
}

impl SyntaxNode {
    /// Where the node's text begins and ends.
    pub fn text_range(&self) -> (r: TextRange)
        requires
            self.wf(),
        ensures
            r.start == offset(self.whole(), self.path@),
            r.end == end_offset(self.whole(), self.path@),
    {
        let mut out = collect_before(self);
        let start = out.as_str().as_bytes().len();
        green::emit_node(&self.green, &mut out);
        TextRange { start, end: out.as_str().as_bytes().len() }
    }
}

impl SyntaxToken {
    /// Where the token's text begins and ends.
    pub fn text_range(&self) -> (r: TextRange)
        requires
            self.wf(),
        ensures
            r.start == offset(self.parent.whole(), self.place()),
            r.end == end_offset(self.parent.whole(), self.place()),
    {
        assert(self.place().drop_last() =~= self.parent.path@);
        let mut out = collect_before(&self.parent);
        push_text_of(&self.parent, self.index, &mut out);
        let start = out.as_str().as_bytes().len();
        out.push_str(self.text());
        TextRange { start, end: out.as_str().as_bytes().len() }
    }
}

} // verus!

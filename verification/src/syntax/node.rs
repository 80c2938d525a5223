//! Nodes and tokens in their tree.

use vstd::prelude::*;
use vstd::string::*;

use crate::syntax::green;
use crate::syntax::green::{
    emit_node, node_child, node_clone, node_kind, node_len, token_clone, token_kind, token_text,
    GreenElement, Tree,
};
use crate::syntax::kind;
use crate::syntax::kind::{SyntaxKind, YamlLang};
use crate::syntax::path;
use crate::syntax::path::resolve;
use crate::text;

verus! {

/// A node in its tree: the tree's root, the path from there and what stands at
/// its end.
pub struct SyntaxNode {
    pub root: rowan::GreenNode,
    pub path: Vec<usize>,
    pub green: rowan::GreenNode,
}

/// A token in its tree: the node that holds it, and which child it is.
pub struct SyntaxToken {
    pub parent: SyntaxNode,
    pub index: usize,
    pub green: rowan::GreenToken,
}

/// A node or a token in its tree.
pub enum SyntaxElement {
    Node(SyntaxNode),
    Token(SyntaxToken),
}

/// A path as a sequence, with one step more.
pub(crate) fn deeper(path: &Vec<usize>, i: usize) -> (r: Vec<usize>)
    ensures
        r@ == path@.push(i),
{
    let mut r = copy_path(path, path.len());
    assert(path@.take(path@.len() as int) =~= path@);
    r.push(i);
    r
}

/// The first `n` steps of a path.
pub(crate) fn copy_path(path: &Vec<usize>, n: usize) -> (r: Vec<usize>)
    requires
        n <= path@.len(),
    ensures
        r@ == path@.take(n as int),
{
    let mut r: Vec<usize> = Vec::new();
    let mut i: usize = 0;
    while i < n
        invariant
            i <= n <= path@.len(),
            r@ == path@.take(i as int),
        decreases n - i,
    {
        r.push(path[i]);
        assert(r@ =~= path@.take(i + 1));
        i = i + 1;
    }
    r
}

impl SyntaxNode {
    /// The whole tree that the node stands in.
    pub open spec fn whole(self) -> Tree {
        green::node_tree(self.root)
    }

    /// What the node holds.
    pub open spec fn tree(self) -> Tree {
        green::node_tree(self.green)
    }

    /// The node's children.
    pub open spec fn parts(self) -> Seq<Tree> {
        green::node_children_of(self.green)
    }

    /// What the node holds is what stands at the end of its path.
    pub open spec fn wf(self) -> bool {
        path::tree_at(self.whole(), self.path@) == Some(self.tree())
    }

    /// Whether the node is the child at `i` of `p`.
    pub open spec fn is_child_of(self, p: SyntaxNode, i: int) -> bool {
        &&& self.wf()
        &&& 0 <= i < p.parts().len()
        &&& self.tree() == p.parts()[i]
        &&& self.whole() == p.whole()
        &&& i <= usize::MAX
        &&& self.path@ == p.path@.push(i as usize)
    }

    /// The root of a tree.
    pub fn new_root(green: rowan::GreenNode) -> (r: SyntaxNode)
        ensures
            r.wf(),
            r.tree() == green::node_tree(green),
            r.whole() == green::node_tree(green),
            r.path@ == Seq::<usize>::empty(),
    {
        SyntaxNode { root: node_clone(&green), path: Vec::new(), green }
    }

    /// Another handle to the same node.
    pub fn handle(&self) -> (r: SyntaxNode)
        ensures
            r.whole() == self.whole(),
            r.tree() == self.tree(),
            r.path@ == self.path@,
            self.wf() ==> r.wf(),
    {
        let path = copy_path(&self.path, self.path.len());
        assert(path@ =~= self.path@);
        SyntaxNode { root: node_clone(&self.root), path, green: node_clone(&self.green) }
    }

    /// The node's green node.
    pub fn green(&self) -> (r: rowan::GreenNode)
        ensures
            green::node_tree(r) == self.tree(),
    {
        node_clone(&self.green)
    }

    /// The node's kind. A tree of this library has only kinds of the library.
    pub fn kind(&self) -> (r: SyntaxKind)
        requires
            kind::kind_of(self.tree().kind()) is Some,
        ensures
            kind::kind_of(self.tree().kind()) == Some(r),
    {
        match YamlLang::kind_from_raw(node_kind(&self.green)) {
            Some(k) => k,
            None => SyntaxKind::ERROR,
        }
    }

    /// Whether the node is of kind `k`.
    pub fn is(&self, k: SyntaxKind) -> (r: bool)
        ensures
            r == (self.tree().kind() == k.code()),
    {
        node_kind(&self.green) == k.raw()
    }

    /// The text of the node.
    pub fn text(&self) -> (r: String)
        ensures
            r@ == self.tree().text(),
    {
        let mut out = String::new();
        emit_node(&self.green, &mut out);
        assert(Seq::<char>::empty() + self.tree().text() =~= self.tree().text());
        out
    }

    /// The number of the node's children, tokens among them.
    pub fn len(&self) -> (r: usize)
        ensures
            r == self.parts().len(),
    {
        node_len(&self.green)
    }

    /// The child at `i`.
    pub fn child_or_token(&self, i: usize) -> (r: SyntaxElement)
        requires
            self.wf(),
            i < self.parts().len(),
        ensures
            r.is_at(*self, i as int),
    {
        let ghost p = self.path@.push(i);
        assert(p.drop_last() =~= self.path@);
        match node_child(&self.green, i) {
            GreenElement::Node(c) => SyntaxElement::Node(
                SyntaxNode { root: node_clone(&self.root), path: deeper(&self.path, i), green: c },
            ),
            GreenElement::Token(c) => SyntaxElement::Token(
                SyntaxToken { parent: self.handle(), index: i, green: c },
            ),
        }
    }

    /// All children, in order.
    pub fn children_with_tokens(&self) -> (r: Vec<SyntaxElement>)
        requires
            self.wf(),
        ensures
            r@.len() == self.parts().len(),
            forall|i: int| 0 <= i < r@.len() ==> (#[trigger] r@[i]).is_at(*self, i),
    {
        let len = self.len();
        let mut r: Vec<SyntaxElement> = Vec::new();
        let mut i: usize = 0;
        while i < len
            invariant
                self.wf(),
                i <= len,
                len == self.parts().len(),
                r@.len() == i,
                forall|j: int| 0 <= j < i ==> (#[trigger] r@[j]).is_at(*self, j),
            decreases len - i,
        {
            r.push(self.child_or_token(i));
            i = i + 1;
        }
        r
    }

    /// The children that are nodes, in order.
    pub fn children(&self) -> (r: Vec<SyntaxNode>)
        requires
            self.wf(),
        ensures
            r@.len() == places(self.parts(), any_node()).len(),
            forall|i: int|
                0 <= i < r@.len() ==> (#[trigger] r@[i]).is_child_of(
                    *self,
                    places(self.parts(), any_node())[i],
                ),
    {
        let len = self.len();
        let ghost cs = self.parts();
        let mut r: Vec<SyntaxNode> = Vec::new();
        let mut i: usize = 0;
        assert(cs.take(0) =~= seq![]);
        while i < len
            invariant
                self.wf(),
                i <= len,
                cs == self.parts(),
                len == cs.len(),
                r@.len() == places(cs.take(i as int), any_node()).len(),
                forall|j: int|
                    0 <= j < r@.len() ==> (#[trigger] r@[j]).is_child_of(
                        *self,
                        places(cs.take(i as int), any_node())[j],
                    ),
            decreases len - i,
        {
            proof {
                assert(cs.take(i + 1).drop_last() =~= cs.take(i as int));
            }
            match self.child_or_token(i) {
                SyntaxElement::Node(n) => {
                    r.push(n);
                },
                SyntaxElement::Token(_) => {},
            }
            i = i + 1;
        }
        assert(cs.take(len as int) =~= cs);
        r
    }

    /// The node that holds this one.
    pub fn parent(&self) -> (r: Option<SyntaxNode>)
        requires
            self.wf(),
        ensures
            match r {
                Some(p) => self.path@.len() > 0 && p.wf() && p.whole() == self.whole() && p.path@
                    == self.path@.drop_last(),
                None => self.path@.len() == 0,
            },
    {
        let n = self.path.len();
        if n == 0 {
            return None;
        }
        let path = copy_path(&self.path, n - 1);
        assert(path@ =~= self.path@.drop_last());
        let green = resolve(&self.root, &self.path, n - 1);
        Some(SyntaxNode { root: node_clone(&self.root), path, green })
    }

    /// Which child of its parent the node is; 0 for a root.
    pub fn index(&self) -> (r: usize)
        ensures
            r == (if self.path@.len() == 0 {
                0
            } else {
                self.path@.last()
            }),
    {
        let n = self.path.len();
        if n == 0 {
            0
        } else {
            self.path[n - 1]
        }
    }

    /// The first token of kind `k` among the children.
    pub fn first_child_token(&self, k: SyntaxKind) -> (r: Option<SyntaxToken>)
        requires
            self.wf(),
        ensures
            match place_from(self.parts(), 0, tokens_of(k)) {
                Some(i) => r is Some && r->0.is_child_of(*self, i),
                None => r is None,
            },
    {
        let len = self.len();
        let mut i: usize = 0;
        while i < len
            invariant
                self.wf(),
                i <= len,
                len == self.parts().len(),
                place_from(self.parts(), i as int, tokens_of(k)) == place_from(
                    self.parts(),
                    0,
                    tokens_of(k),
                ),
            decreases len - i,
        {
            if let SyntaxElement::Token(t) = self.child_or_token(i) {
                if t.is(k) {
                    return Some(t);
                }
            }
            i = i + 1;
        }
        None
    }

    /// The tokens of kind `k` among the children, in order.
    pub fn child_tokens(&self, k: SyntaxKind) -> (r: Vec<SyntaxToken>)
        requires
            self.wf(),
        ensures
            r@.len() == places(self.parts(), tokens_of(k)).len(),
            forall|i: int|
                0 <= i < r@.len() ==> (#[trigger] r@[i]).is_child_of(
                    *self,
                    places(self.parts(), tokens_of(k))[i],
                ),
    {
        let len = self.len();
        let ghost cs = self.parts();
        let mut r: Vec<SyntaxToken> = Vec::new();
        let mut i: usize = 0;
        assert(cs.take(0) =~= seq![]);
        while i < len
            invariant
                self.wf(),
                i <= len,
                cs == self.parts(),
                len == cs.len(),
                r@.len() == places(cs.take(i as int), tokens_of(k)).len(),
                forall|j: int|
                    0 <= j < r@.len() ==> (#[trigger] r@[j]).is_child_of(
                        *self,
                        places(cs.take(i as int), tokens_of(k))[j],
                    ),
            decreases len - i,
        {
            proof {
                assert(cs.take(i + 1).drop_last() =~= cs.take(i as int));
            }
            if let SyntaxElement::Token(t) = self.child_or_token(i) {
                if t.is(k) {
                    r.push(t);
                }
            }
            i = i + 1;
        }
        assert(cs.take(len as int) =~= cs);
        r
    }

    /// Whether two nodes of one tree are the same node.
    pub fn same(&self, other: &SyntaxNode) -> (r: bool)
        ensures
            r == (self.path@ == other.path@),
    {
        let n = self.path.len();
        if n != other.path.len() {
            return false;
        }
        let mut i: usize = 0;
        while i < n
            invariant
                i <= n,
                n == self.path@.len(),
                n == other.path@.len(),
                forall|j: int| 0 <= j < i ==> self.path@[j] == other.path@[j],
            decreases n - i,
        {
            if self.path[i] != other.path[i] {
                return false;
            }
            i = i + 1;
        }
        assert(self.path@ =~= other.path@);
        true
    }
}

/// The places in `cs` at which `f` holds.
pub open spec fn places(cs: Seq<Tree>, f: spec_fn(Tree) -> bool) -> Seq<int>
    decreases cs.len(),
{
    if cs.len() == 0 {
        seq![]
    } else {
        let r = places(cs.drop_last(), f);
        if f(cs.last()) {
            r.push(cs.len() - 1)
        } else {
            r
        }
    }
}

/// The first place in `cs` from `i` on at which `f` holds.
pub open spec fn place_from(cs: Seq<Tree>, i: int, f: spec_fn(Tree) -> bool) -> Option<int>
    decreases cs.len() - i,
{
    if i >= cs.len() {
        None
    } else if f(cs[i]) {
        Some(i)
    } else {
        place_from(cs, i + 1, f)
    }
}

/// At each of the places `f` holds.
pub proof fn lemma_places(cs: Seq<Tree>, f: spec_fn(Tree) -> bool)
    ensures
        forall|i: int|
            #![trigger places(cs, f)[i]]
            0 <= i < places(cs, f).len() ==> 0 <= places(cs, f)[i] < cs.len() && f(
                cs[places(cs, f)[i]],
            ),
    decreases cs.len(),
{
    if cs.len() > 0 {
        lemma_places(cs.drop_last(), f);
        let p = places(cs.drop_last(), f);
        assert forall|i: int| #![trigger places(cs, f)[i]] 0 <= i < places(cs, f).len() implies 0
            <= places(cs, f)[i] < cs.len() && f(cs[places(cs, f)[i]]) by {
            if i < p.len() {
                assert(places(cs, f)[i] == p[i]);
            }
        }
    }
}

/// The trees that are nodes.
pub open spec fn any_node() -> spec_fn(Tree) -> bool {
    |t: Tree| t is Node
}

/// The nodes of kind `k`.
pub open spec fn nodes_of(k: SyntaxKind) -> spec_fn(Tree) -> bool {
    |t: Tree| t.is_node_of(k)
}

/// The tokens of kind `k`.
pub open spec fn tokens_of(k: SyntaxKind) -> spec_fn(Tree) -> bool {
    |t: Tree| t.is_token_of(k)
}

impl SyntaxToken {
    /// What the token holds.
    pub open spec fn tree(self) -> Tree {
        green::token_tree(self.green)
    }

    /// The token stands at its place in its node.
    pub open spec fn wf(self) -> bool {
        &&& self.parent.wf()
        &&& self.index < self.parent.parts().len()
        &&& self.parent.parts()[self.index as int] == self.tree()
    }

    /// Whether this is the child at `i` of `p`.
    pub open spec fn is_child_of(self, p: SyntaxNode, i: int) -> bool {
        &&& self.wf()
        &&& self.index == i
        &&& self.parent.whole() == p.whole()
        &&& self.parent.tree() == p.tree()
        &&& self.parent.path@ == p.path@
    }

    /// Whether the token is of whitespace, a line break or a comment.
    pub fn is_trivia(&self) -> (r: bool)
        ensures
            r == self.tree().is_trivia(),
    {
        self.is(SyntaxKind::WHITESPACE) || self.is(SyntaxKind::NEWLINE) || self.is(
            SyntaxKind::COMMENT,
        )
    }

    /// Another handle to the same token.
    pub fn handle(&self) -> (r: SyntaxToken)
        ensures
            r.parent.whole() == self.parent.whole(),
            r.parent.tree() == self.parent.tree(),
            r.parent.path@ == self.parent.path@,
            r.index == self.index,
            r.tree() == self.tree(),
            self.wf() ==> r.wf(),
    {
        SyntaxToken {
            parent: self.parent.handle(),
            index: self.index,
            green: token_clone(&self.green),
        }
    }

    /// The token's kind. A tree of this library has only kinds of the library.
    pub fn kind(&self) -> (r: SyntaxKind)
        requires
            kind::kind_of(self.tree().kind()) is Some,
        ensures
            kind::kind_of(self.tree().kind()) == Some(r),
    {
        match YamlLang::kind_from_raw(token_kind(&self.green)) {
            Some(k) => k,
            None => SyntaxKind::ERROR,
        }
    }

    /// Whether the token is of kind `k`.
    pub fn is(&self, k: SyntaxKind) -> (r: bool)
        ensures
            r == (self.tree().kind() == k.code()),
    {
        token_kind(&self.green) == k.raw()
    }

    /// The token's text.
    pub fn text(&self) -> (r: &str)
        ensures
            r@ == self.tree().text(),
    {
        token_text(&self.green)
    }
}

impl SyntaxElement {
    /// What the element holds.
    pub open spec fn tree(self) -> Tree {
        match self {
            SyntaxElement::Node(n) => n.tree(),
            SyntaxElement::Token(t) => t.tree(),
        }
    }

    /// Whether this is the child at `i` of `p`.
    pub open spec fn is_at(self, p: SyntaxNode, i: int) -> bool {
        &&& 0 <= i < p.parts().len()
        &&& self.tree() == p.parts()[i]
        &&& match self {
            SyntaxElement::Node(n) => n.is_child_of(p, i),
            SyntaxElement::Token(t) => t.is_child_of(p, i),
        }
    }
}

} // verus!

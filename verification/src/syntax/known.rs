//! Trees of known kinds: each kind in them is one of this library's.

use vstd::prelude::*;

use crate::syntax::green::{node_kind, token_kind, Tree};
use crate::syntax::kind;
use crate::syntax::kind::YamlLang;
use crate::syntax::node::{SyntaxElement, SyntaxNode};
use crate::syntax::path;
use crate::syntax::tree::SyntaxTree;

verus! {

/// Whether all kinds in a tree are kinds of this library.
pub open spec fn known(t: Tree) -> bool
    decreases t,
{
    &&& kind::kind_of(t.kind()) is Some
    &&& match t {
        Tree::Token { .. } => true,
        Tree::Node { children, .. } => all_known(children),
    }
}

/// Whether all kinds in trees are kinds of this library.
pub open spec fn all_known(ts: Seq<Tree>) -> bool
    decreases ts,
{
    ts.len() > 0 ==> all_known(ts.drop_last()) && known(ts.last())
}

/// All of the trees are known.
pub proof fn lemma_all_known(ts: Seq<Tree>, i: int)
    requires
        all_known(ts),
        0 <= i < ts.len(),
    ensures
        known(ts[i]),
    decreases ts.len(),
{
    if i < ts.len() - 1 {
        lemma_all_known(ts.drop_last(), i);
    }
}

/// Where each tree is known, all are.
pub proof fn lemma_each_known(ts: Seq<Tree>)
    requires
        forall|i: int| 0 <= i < ts.len() ==> known(#[trigger] ts[i]),
    ensures
        all_known(ts),
    decreases ts.len(),
{
    if ts.len() > 0 {
        let us = ts.drop_last();
        assert forall|i: int| 0 <= i < us.len() implies known(#[trigger] us[i]) by {
            assert(us[i] == ts[i]);
        }
        lemma_each_known(us);
    }
}

/// Known trees one behind another are known, and are known only so.
pub proof fn lemma_known_add(a: Seq<Tree>, b: Seq<Tree>)
    ensures
        all_known(a + b) == (all_known(a) && all_known(b)),
    decreases b.len(),
{
    if b.len() == 0 {
        assert(a + b =~= a);
    } else {
        lemma_known_add(a, b.drop_last());
        assert((a + b).drop_last() =~= a + b.drop_last());
    }
}

/// What stands in a tree of known kinds is of known kinds.
pub proof fn lemma_known_at(t: Tree, p: Seq<usize>)
    requires
        known(t),
        path::tree_at(t, p) is Some,
    ensures
        known(path::tree_at(t, p)->0),
    decreases p.len(),
{
    if p.len() > 0 {
        lemma_known_at(t, p.drop_last());
        let up = path::tree_at(t, p.drop_last())->0;
        lemma_all_known(up.children(), p.last() as int);
    }
}

/// A tree of known kinds, put into one, leaves one.
pub proof fn lemma_known_replaced(t: Tree, p: Seq<usize>, new: Tree)
    requires
        known(t),
        known(new),
        path::tree_at(t, p) is Some,
    ensures
        known(path::replaced(t, p, new)),
    decreases p.len(),
{
    if p.len() > 0 {
        let q = p.drop_last();
        lemma_known_at(t, q);
        let up = path::tree_at(t, q)->0;
        let cs = up.children().update(p.last() as int, new);
        assert forall|i: int| 0 <= i < cs.len() implies known(#[trigger] cs[i]) by {
            if i != p.last() {
                lemma_all_known(up.children(), i);
            }
        }
        lemma_each_known(cs);
        lemma_known_replaced(t, q, path::with_children(up, cs));
    }
}

/// Whether all kinds under a node are known.
fn node_is_known(n: &SyntaxNode) -> (r: bool)
    requires
        n.wf(),
    ensures
        r == known(n.tree()),
    decreases n.tree(),
{
    if YamlLang::kind_from_raw(node_kind(&n.green)).is_none() {
        return false;
    }
    let len = n.len();
    let ghost cs = n.parts();
    let mut i: usize = 0;
    while i < len
        invariant
            n.wf(),
            cs == n.parts(),
            i <= len,
            len == cs.len(),
            all_known(cs.take(i as int)),
        decreases len - i,
    {
        proof {
            assert(cs.take(i + 1).drop_last() =~= cs.take(i as int));
        }
        let ok = match n.child_or_token(i) {
            SyntaxElement::Node(c) => {
                assert(decreases_to!(n.tree() => n.tree()->children[i as int]));
                node_is_known(&c)
            },
            SyntaxElement::Token(t) => YamlLang::kind_from_raw(token_kind(&t.green)).is_some(),
        };
        if !ok {
            proof {
                if known(n.tree()) {
                    lemma_all_known(cs, i as int);
                }
            }
            return false;
        }
        assert(known(cs[i as int]));
        assert(cs.take(i + 1).last() == cs[i as int]);
        i = i + 1;
    }
    assert(cs.take(len as int) =~= cs);
    true
}

/// Whether all kinds in a tree are kinds of this library, as they are in each tree
/// that was parsed.
pub fn has_known_kinds(tree: &SyntaxTree) -> (r: bool)
    requires
        tree.wf(),
    ensures
        r == known(tree@),
{
    node_is_known(&tree.root)
}

} // verus!

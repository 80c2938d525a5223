//! Places that outlast edits of tokens.
//!
//! A path counts all children, so it goes stale when a token before it comes or
//! goes. A place counts nodes alone: comments, whitespace and the texts of scalars
//! may change, and it still leads to the node.

use vstd::prelude::*;

use crate::syntax::green::Tree;
use crate::syntax::node;
use crate::syntax::node::{SyntaxElement, SyntaxNode};
use crate::syntax::path;

verus! {

/// The path of the node at `place` in `whole`.
pub open spec fn path_of_place(whole: Tree, place: Seq<usize>) -> Option<Seq<usize>>
    decreases place.len(),
{
    if place.len() == 0 {
        Some(seq![])
    } else {
        match path_of_place(whole, place.drop_last()) {
            Some(p) => {
                let q = node::places(path::tree_at(whole, p)->0.children(), node::any_node());
                if place.last() < q.len() {
                    Some(p.push(q[place.last() as int] as usize))
                } else {
                    None
                }
            },
            None => None,
        }
    }
}

/// The places before the last are those of the trees before.
proof fn lemma_places_take(cs: Seq<Tree>, i: int)
    requires
        0 <= i < cs.len(),
        cs[i] is Node,
    ensures
        ({
            let k = node::places(cs.take(i), node::any_node()).len() as int;
            &&& k < node::places(cs, node::any_node()).len()
            &&& node::places(cs, node::any_node())[k] == i
        }),
    decreases cs.len(),
{
    let f = node::any_node();
    if i == cs.len() - 1 {
        assert(cs.take(i) =~= cs.drop_last());
    } else {
        lemma_places_take(cs.drop_last(), i);
        assert(cs.drop_last().take(i) =~= cs.take(i));
    }
}

/// How many of the first `n` children are nodes.
fn nodes_before(p: &SyntaxNode, n: usize) -> (r: usize)
    requires
        p.wf(),
        n <= p.parts().len(),
    ensures
        r == node::places(p.parts().take(n as int), node::any_node()).len(),
        r <= n,
{
    let ghost cs = p.parts();
    let mut r: usize = 0;
    let mut i: usize = 0;
    assert(cs.take(0) =~= seq![]);
    while i < n
        invariant
            p.wf(),
            cs == p.parts(),
            i <= n <= cs.len(),
            r <= i,
            r == node::places(cs.take(i as int), node::any_node()).len(),
        decreases n - i,
    {
        assert(cs.take(i + 1).drop_last() =~= cs.take(i as int));
        match p.child_or_token(i) {
            SyntaxElement::Node(_) => {
                r = r + 1;
            },
            SyntaxElement::Token(_) => {},
        }
        i = i + 1;
    }
    r
}

/// The place of a node.
pub fn place_of(n: &SyntaxNode) -> (r: Vec<usize>)
    requires
        n.wf(),
    ensures
        path_of_place(n.whole(), r@) == Some(n.path@),
    decreases n.path@.len(),
{
    match n.parent() {
        None => {
            assert(n.path@ =~= seq![]);
            Vec::new()
        },
        Some(p) => {
            let mut r = place_of(&p);
            let ghost before = r@;
            let i = n.index();
            let k = nodes_before(&p, i);
            r.push(k);
            proof {
                assert(r@.drop_last() =~= before);
                lemma_places_take(p.parts(), i as int);
                assert(n.path@ =~= p.path@.push(i));
            }
            r
        },
    }
}

/// The node at a place of the tree that `root` is the root of.
pub fn node_at(root: &SyntaxNode, place: &Vec<usize>) -> (r: Option<SyntaxNode>)
    requires
        root.wf(),
        root.path@.len() == 0,
    ensures
        match path_of_place(root.whole(), place@) {
            Some(p) => r is Some && r->0.wf() && r->0.whole() == root.whole() && r->0.path@ == p,
            None => r is None,
        },
{
    let mut n = root.handle();
    let mut i: usize = 0;
    assert(place@.take(0) =~= seq![]);
    assert(n.path@ =~= seq![]);
    while i < place.len()
        invariant
            i <= place@.len(),
            n.wf(),
            n.whole() == root.whole(),
            path_of_place(root.whole(), place@.take(i as int)) == Some(n.path@),
        decreases place@.len() - i,
    {
        let mut kids = n.children();
        let k = place[i];
        assert(place@.take(i + 1).drop_last() =~= place@.take(i as int));
        if k >= kids.len() {
            proof {
                lemma_no_place(root.whole(), place@, i + 1);
            }
            return None;
        }
        n = kids.swap_remove(k);
        i = i + 1;
    }
    assert(place@.take(i as int) =~= place@);
    Some(n)
}

/// Where a beginning of a place leads nowhere, the place does.
proof fn lemma_no_place(whole: Tree, place: Seq<usize>, i: int)
    requires
        0 <= i <= place.len(),
        path_of_place(whole, place.take(i)) is None,
    ensures
        path_of_place(whole, place) is None,
    decreases place.len(),
{
    if i < place.len() {
        assert(place.drop_last().take(i) =~= place.take(i));
        lemma_no_place(whole, place.drop_last(), i);
    } else {
        assert(place.take(i) =~= place);
    }
}

} // verus!

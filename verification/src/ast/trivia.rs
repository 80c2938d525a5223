//! The trivia around a node.

use vstd::prelude::*;

use crate::syntax::green::Tree;
use crate::syntax::node::{SyntaxNode, SyntaxToken};
use crate::syntax::path;
use crate::syntax::walk;

verus! {

/// The places of the trivia right before `path`, in document order, as far as it
/// does not begin before the offset `low`.
pub open spec fn trivia_before(whole: Tree, path: Seq<usize>, low: int) -> Seq<Seq<usize>>
    decreases walk::before(whole, path),
    when path::tree_at(whole, path) is Some
{
    match walk::prev_leaf(whole, path) {
        None => seq![],
        Some(q) => {
            proof {
                walk::lemma_prev_leaf(whole, path);
            }
            if path::tree_at(whole, q)->0.is_trivia() && low <= walk::offset(whole, q) {
                trivia_before(whole, q, low).push(q)
            } else {
                seq![]
            }
        },
    }
}

/// The places of the trivia that ends at `path`, in document order, as far as it
/// lies between two offsets.
pub open spec fn trivia_up_to(
    whole: Tree,
    path: Seq<usize>,
    low: int,
    high: int,
) -> Seq<Seq<usize>>
    decreases walk::before(whole, path),
    when path::tree_at(whole, path) is Some
{
    if path::tree_at(whole, path)->0.is_trivia() && low <= walk::offset(whole, path)
        && walk::end_offset(whole, path) <= high {
        match walk::prev_leaf(whole, path) {
            None => seq![path],
            Some(q) => {
                proof {
                    walk::lemma_prev_leaf(whole, path);
                }
                trivia_up_to(whole, q, low, high).push(path)
            },
        }
    } else {
        seq![]
    }
}

/// The places of the leading trivia of the node at `path`: that before its first
/// token, in its parent.
pub open spec fn leading_places(whole: Tree, path: Seq<usize>) -> Seq<Seq<usize>> {
    match walk::first_leaf(path::tree_at(whole, path)->0, path) {
        None => seq![],
        Some(q) => trivia_before(
            whole,
            q,
            if path.len() == 0 {
                0
            } else {
                walk::offset(whole, path.drop_last()) as int
            },
        ),
    }
}

/// The places of the trailing trivia of the node at `path`: that at its end.
pub open spec fn trailing_places(whole: Tree, path: Seq<usize>) -> Seq<Seq<usize>> {
    match walk::last_leaf(path::tree_at(whole, path)->0, path) {
        None => seq![],
        Some(q) => trivia_up_to(
            whole,
            q,
            walk::offset(whole, path) as int,
            walk::end_offset(whole, path) as int,
        ),
    }
}

/// Whether `r` are the tokens at these places.
pub open spec fn tokens_at(r: Seq<SyntaxToken>, whole: Tree, places: Seq<Seq<usize>>) -> bool {
    &&& r.len() == places.len()
    &&& forall|i: int| 0 <= i < r.len() ==> (#[trigger] r[i]).stands_at(whole, places[i])
}

/// The trivia right before a token.
fn collect_trivia_before(t: &SyntaxToken, low: usize) -> (r: Vec<SyntaxToken>)
    requires
        t.wf(),
        path::tree_at(t.parent.whole(), t.place()) is Some,
    ensures
        tokens_at(
            r@,
            t.parent.whole(),
            trivia_before(t.parent.whole(), t.place(), low as int),
        ),
    decreases walk::before(t.parent.whole(), t.place()),
{
    match t.prev_token() {
        None => Vec::new(),
        Some(p) => {
            proof {
                walk::lemma_prev_leaf(t.parent.whole(), t.place());
            }
            if p.is_trivia() && low <= p.text_range().start {
                let mut r = collect_trivia_before(&p, low);
                r.push(p);
                r
            } else {
                Vec::new()
            }
        },
    }
}

/// The trivia that ends with a token.
fn collect_trivia_up_to(t: SyntaxToken, low: usize, high: usize) -> (r: Vec<SyntaxToken>)
    requires
        t.stands_at(t.parent.whole(), t.place()),
    ensures
        tokens_at(
            r@,
            t.parent.whole(),
            trivia_up_to(t.parent.whole(), t.place(), low as int, high as int),
        ),
    decreases walk::before(t.parent.whole(), t.place()),
{
    let range = t.text_range();
    if t.is_trivia() && low <= range.start && range.end <= high {
        let mut r = match t.prev_token() {
            None => Vec::new(),
            Some(p) => {
                proof {
                    walk::lemma_prev_leaf(t.parent.whole(), t.place());
                }
                collect_trivia_up_to(p, low, high)
            },
        };
        r.push(t);
        r
    } else {
        Vec::new()
    }
}

/// The trivia right before a node, in document order. It does not reach out of
/// the node's parent.
pub fn leading_trivia(n: &SyntaxNode) -> (r: Vec<SyntaxToken>)
    requires
        n.wf(),
    ensures
        tokens_at(r@, n.whole(), leading_places(n.whole(), n.path@)),
{
    let low = match n.parent() {
        Some(p) => p.text_range().start,
        None => 0,
    };
    match n.first_token() {
        Some(t) => collect_trivia_before(&t, low),
        None => Vec::new(),
    }
}

/// The trivia at the end of a node, in document order.
pub fn trailing_trivia(n: &SyntaxNode) -> (r: Vec<SyntaxToken>)
    requires
        n.wf(),
    ensures
        tokens_at(r@, n.whole(), trailing_places(n.whole(), n.path@)),
{
    let range = n.text_range();
    match n.last_token() {
        Some(t) => collect_trivia_up_to(t, range.start, range.end),
        None => Vec::new(),
    }
}

} // verus!

//! Places outlast edits of tokens.

use vstd::prelude::*;

use crate::scripting::place;
use crate::syntax::green::Tree;
use crate::syntax::node;
use crate::syntax::path;

verus! {

/// The nodes of a tree, without the tokens.
pub struct Shape {
    pub kind: u16,
    pub parts: Seq<Shape>,
}

/// The nodes of a tree.
pub open spec fn shape(t: Tree) -> Shape
    decreases t,
{
    match t {
        Tree::Token { kind, .. } => Shape { kind, parts: seq![] },
        Tree::Node { kind, children } => Shape { kind, parts: shapes(children) },
    }
}

/// The nodes among trees in a row.
pub open spec fn shapes(ts: Seq<Tree>) -> Seq<Shape>
    decreases ts,
{
    if ts.len() == 0 {
        seq![]
    } else if ts.last() is Node {
        shapes(ts.drop_last()).push(shape(ts.last()))
    } else {
        shapes(ts.drop_last())
    }
}

/// Whether the children of each node can be counted.
pub open spec fn countable(t: Tree) -> bool
    decreases t,
{
    match t {
        Tree::Token { .. } => true,
        Tree::Node { children, .. } => children.len() <= usize::MAX && forall|i: int|
            0 <= i < children.len() ==> countable(#[trigger] children[i]),
    }
}

/// Trees one behind another.
proof fn lemma_shapes_add(a: Seq<Tree>, b: Seq<Tree>)
    ensures
        shapes(a + b) == shapes(a) + shapes(b),
    decreases b.len(),
{
    if b.len() == 0 {
        assert(a + b =~= a);
        assert(shapes(a) + shapes(b) =~= shapes(a));
    } else {
        lemma_shapes_add(a, b.drop_last());
        assert((a + b).drop_last() =~= a + b.drop_last());
        assert(shapes(a + b) =~= shapes(a) + shapes(b));
    }
}

/// Tokens alone have no nodes.
proof fn lemma_no_shapes(ts: Seq<Tree>)
    requires
        forall|i: int| 0 <= i < ts.len() ==> #[trigger] ts[i] is Token,
    ensures
        shapes(ts).len() == 0,
    decreases ts.len(),
{
    if ts.len() > 0 {
        assert(ts.last() == ts[ts.len() - 1]);
        assert forall|i: int| 0 <= i < ts.len() - 1 implies #[trigger] ts.drop_last()[i] is Token by {
            assert(ts.drop_last()[i] == ts[i]);
        }
        lemma_no_shapes(ts.drop_last());
    }
}

/// The nodes among trees in a row are those at the places of nodes.
proof fn lemma_shapes(ts: Seq<Tree>)
    ensures
        shapes(ts).len() == node::places(ts, node::any_node()).len(),
        forall|k: int|
            0 <= k < shapes(ts).len() ==> {
                let i = #[trigger] node::places(ts, node::any_node())[k];
                0 <= i < ts.len() && ts[i] is Node && shapes(ts)[k] == shape(ts[i])
            },
    decreases ts.len(),
{
    if ts.len() > 0 {
        let ds = ts.drop_last();
        lemma_shapes(ds);
        let q = node::places(ds, node::any_node());
        assert forall|k: int| 0 <= k < shapes(ts).len() implies {
            let i = #[trigger] node::places(ts, node::any_node())[k];
            0 <= i < ts.len() && ts[i] is Node && shapes(ts)[k] == shape(ts[i])
        } by {
            if k < q.len() {
                assert(node::places(ts, node::any_node())[k] == q[k]);
                assert(ds[q[k]] == ts[q[k]]);
            }
        }
    }
}

/// A tree with a node like another in its place has the same nodes.
proof fn lemma_replaced_shape(t: Tree, p: Seq<usize>, new: Tree)
    requires
        path::tree_at(t, p) is Some,
        path::tree_at(t, p)->0 is Node,
        new is Node,
        shape(new) == shape(path::tree_at(t, p)->0),
    ensures
        path::replaced(t, p, new) is Node,
        shape(path::replaced(t, p, new)) == shape(t),
    decreases p.len(),
{
    if p.len() > 0 {
        let q = p.drop_last();
        let up = path::tree_at(t, q)->0;
        let i = p.last() as int;
        let cs = up.children();
        let ds = cs.update(i, new);
        let one = seq![cs[i]];
        assert(cs =~= cs.take(i) + one + cs.skip(i + 1));
        assert(ds =~= cs.take(i) + seq![new] + cs.skip(i + 1));
        lemma_shapes_add(cs.take(i), one);
        lemma_shapes_add(cs.take(i) + one, cs.skip(i + 1));
        lemma_shapes_add(cs.take(i), seq![new]);
        lemma_shapes_add(cs.take(i) + seq![new], cs.skip(i + 1));
        lemma_shape_one(cs[i]);
        lemma_shape_one(new);
        lemma_replaced_shape(t, q, path::with_children(up, ds));
    }
}

/// One node.
proof fn lemma_shape_one(t: Tree)
    requires
        t is Node,
    ensures
        shapes(seq![t]) == seq![shape(t)],
{
    assert(seq![t].drop_last() =~= seq![]);
    assert(shapes(seq![t].drop_last()) =~= seq![]);
    assert(shapes(seq![t]) =~= seq![shape(t)]);
}

/// A place leads to the same node in trees with the same nodes, or nowhere in
/// both.
pub proof fn lemma_place_leads_alike(a: Tree, b: Tree, p: Seq<usize>)
    requires
        a is Node,
        b is Node,
        countable(a),
        countable(b),
        shape(a) == shape(b),
    ensures
        match place::path_of_place(a, p) {
            Some(q) => {
                &&& place::path_of_place(b, p) is Some
                &&& path::tree_at(a, q) is Some
                &&& path::tree_at(a, q)->0 is Node
                &&& countable(path::tree_at(a, q)->0)
                &&& ({
                    let r = place::path_of_place(b, p)->0;
                    &&& path::tree_at(b, r) is Some
                    &&& path::tree_at(b, r)->0 is Node
                    &&& countable(path::tree_at(b, r)->0)
                    &&& shape(path::tree_at(b, r)->0) == shape(path::tree_at(a, q)->0)
                })
            },
            None => place::path_of_place(b, p) is None,
        },
    decreases p.len(),
{
    if p.len() > 0 {
        let up = p.drop_last();
        lemma_place_leads_alike(a, b, up);
        if let Some(q) = place::path_of_place(a, up) {
            let r = place::path_of_place(b, up)->0;
            let cs = path::tree_at(a, q)->0.children();
            let ds = path::tree_at(b, r)->0.children();
            lemma_shapes(cs);
            lemma_shapes(ds);
            let k = p.last() as int;
            if k < shapes(cs).len() {
                let i = node::places(cs, node::any_node())[k];
                let j = node::places(ds, node::any_node())[k];
                assert(q.push(i as usize).drop_last() =~= q);
                assert(r.push(j as usize).drop_last() =~= r);
                assert(cs[i] is Node && ds[j] is Node);
            }
        }
    }
}

/// A place outlasts edits of tokens: where tokens of a node are taken out and
/// others are put in, each place leads to a node of the same kind, with the same
/// nodes in it, as before.
pub proof fn lemma_place_outlasts_token_edits(
    t: Tree,
    at: Seq<usize>,
    start: int,
    end: int,
    new: Seq<Tree>,
    p: Seq<usize>,
)
    requires
        t is Node,
        path::tree_at(t, at) is Some,
        path::tree_at(t, at)->0 is Node,
        0 <= start <= end <= path::tree_at(t, at)->0.children().len(),
        forall|i: int| start <= i < end ==> #[trigger] path::tree_at(t, at)->0.children()[i] is Token,
        forall|i: int| 0 <= i < new.len() ==> #[trigger] new[i] is Token,
        countable(t),
        ({
            let n = path::tree_at(t, at)->0;
            let cs = path::spliced(n.children(), start, end, new);
            countable(path::replaced(t, at, path::with_children(n, cs)))
        }),
    ensures
        ({
            let n = path::tree_at(t, at)->0;
            let cs = path::spliced(n.children(), start, end, new);
            let u = path::replaced(t, at, path::with_children(n, cs));
            match place::path_of_place(t, p) {
                Some(q) => {
                    let r = place::path_of_place(u, p);
                    &&& r is Some
                    &&& path::tree_at(t, q) is Some
                    &&& path::tree_at(u, r->0) is Some
                    &&& shape(path::tree_at(u, r->0)->0) == shape(path::tree_at(t, q)->0)
                },
                None => place::path_of_place(u, p) is None,
            }
        }),
{
    let n = path::tree_at(t, at)->0;
    let cs = n.children();
    let a = cs.take(start);
    let gone = cs.subrange(start, end);
    let b = cs.skip(end);
    assert(cs =~= a + gone + b);
    assert forall|i: int| 0 <= i < gone.len() implies #[trigger] gone[i] is Token by {
        assert(gone[i] == cs[start + i]);
    }
    lemma_no_shapes(gone);
    lemma_no_shapes(new);
    lemma_shapes_add(a, gone);
    lemma_shapes_add(a + gone, b);
    lemma_shapes_add(a, new);
    lemma_shapes_add(a + new, b);
    let ds = path::spliced(cs, start, end, new);
    assert(ds =~= a + new + b);
    assert(shapes(ds) =~= shapes(cs));
    let x = path::with_children(n, ds);
    assert(shape(x) == shape(n));
    lemma_replaced_shape(t, at, x);
    lemma_place_leads_alike(t, path::replaced(t, at, x), p);
}

} // verus!

//! Places in a tree: a path names a tree by the positions of the children that
//! lead to it.

use vstd::prelude::*;
use vstd::utf8::*;

use crate::syntax::green;
use crate::syntax::green::{
    node_child, node_kind, node_len, node_new, GreenElement, Tree, MAX_LEN,
};
use crate::text;

verus! {

/// The tree at `path` in `t`.
pub open spec fn tree_at(t: Tree, path: Seq<usize>) -> Option<Tree>
    decreases path.len(),
{
    if path.len() == 0 {
        Some(t)
    } else {
        match tree_at(t, path.drop_last()) {
            Some(p) => if path.last() < p.children().len() {
                Some(p.children()[path.last() as int])
            } else {
                None
            },
            None => None,
        }
    }
}

/// A node like `p`, with other children.
pub open spec fn with_children(p: Tree, children: Seq<Tree>) -> Tree {
    Tree::Node { kind: p.kind(), children }
}

/// The children `cs` with those from `start` up to `end` replaced by `new`.
pub open spec fn spliced(cs: Seq<Tree>, start: int, end: int, new: Seq<Tree>) -> Seq<Tree> {
    cs.take(start) + new + cs.skip(end)
}

/// `t` with `new` in place of the tree at `path`.
pub open spec fn replaced(t: Tree, path: Seq<usize>, new: Tree) -> Tree
    decreases path.len(),
{
    if path.len() == 0 {
        new
    } else {
        match tree_at(t, path.drop_last()) {
            Some(p) => replaced(
                t,
                path.drop_last(),
                with_children(p, p.children().update(path.last() as int, new)),
            ),
            None => t,
        }
    }
}

/// The length of a tree's text, in bytes.
pub open spec fn tree_len(t: Tree) -> nat {
    encode_utf8(t.text()).len()
}

/// Each tree is no longer than the node that holds it.
pub proof fn lemma_child_len(cs: Seq<Tree>, i: int)
    requires
        0 <= i < cs.len(),
    ensures
        tree_len(cs[i]) <= green::trees_len(cs),
{
    green::lemma_trees_len_part(cs, i, i + 1);
    assert(cs.subrange(i, i + 1) =~= seq![cs[i]]);
    green::lemma_trees_text_one(cs[i]);
}

/// What is put into a tree is no longer than the tree is then.
pub proof fn lemma_replaced_len(t: Tree, path: Seq<usize>, new: Tree)
    requires
        tree_at(t, path) is Some,
    ensures
        tree_len(new) <= tree_len(replaced(t, path, new)),
    decreases path.len(),
{
    if path.len() > 0 {
        let q = path.drop_last();
        let p = tree_at(t, q)->0;
        let cs = p.children().update(path.last() as int, new);
        lemma_child_len(cs, path.last() as int);
        lemma_replaced_len(t, q, with_children(p, cs));
    }
}

/// What was put in place is there.
pub proof fn lemma_replaced_at(t: Tree, path: Seq<usize>, new: Tree)
    requires
        tree_at(t, path) is Some,
    ensures
        tree_at(replaced(t, path, new), path) == Some(new),
    decreases path.len(),
{
    if path.len() > 0 {
        let q = path.drop_last();
        let p = tree_at(t, q)->0;
        let cs = p.children().update(path.last() as int, new);
        lemma_replaced_at(t, q, with_children(p, cs));
    }
}

/// To replace a tree by itself changes nothing.
pub proof fn lemma_replaced_same(t: Tree, path: Seq<usize>)
    requires
        tree_at(t, path) is Some,
    ensures
        replaced(t, path, tree_at(t, path)->0) == t,
    decreases path.len(),
{
    if path.len() > 0 {
        let q = path.drop_last();
        let p = tree_at(t, q)->0;
        let new = tree_at(t, path)->0;
        let cs = p.children().update(path.last() as int, new);
        assert(cs =~= p.children());
        assert(with_children(p, cs) == p);
        lemma_replaced_same(t, q);
    }
}

/// Of two replacements of the same tree the second counts.
pub proof fn lemma_replaced_twice(t: Tree, p: Seq<usize>, x: Tree, y: Tree)
    requires
        tree_at(t, p) is Some,
    ensures
        replaced(replaced(t, p, x), p, y) == replaced(t, p, y),
    decreases p.len(),
{
    if p.len() > 0 {
        let q = p.drop_last();
        let up = tree_at(t, q)->0;
        let i = p.last() as int;
        let cs = up.children();
        let x2 = with_children(up, cs.update(i, x));
        let y2 = with_children(up, cs.update(i, y));
        lemma_replaced_at(t, q, x2);
        assert(cs.update(i, x).update(i, y) =~= cs.update(i, y));
        lemma_replaced_twice(t, q, x2, y2);
    }
}

/// Whether neither of two paths leads through the other's end.
pub open spec fn apart(a: Seq<usize>, b: Seq<usize>) -> bool {
    exists|k: int|
        0 <= k < a.len() && k < b.len() && #[trigger] a.take(k) == b.take(k) && a[k] != b[k]
}

/// What stands outside the tree that is replaced stays as it was.
pub proof fn lemma_replaced_apart(t: Tree, path: Seq<usize>, new: Tree, other: Seq<usize>)
    requires
        tree_at(t, path) is Some,
        apart(path, other),
    ensures
        tree_at(replaced(t, path, new), other) == tree_at(t, other),
    decreases path.len(), other.len(),
{
    let k = choose|k: int|
        0 <= k < path.len() && k < other.len() && #[trigger] path.take(k) == other.take(k)
            && path[k] != other[k];
    let q = path.drop_last();
    let p = tree_at(t, q)->0;
    let cs = p.children().update(path.last() as int, new);
    let up = with_children(p, cs);
    if k < path.len() - 1 {
        assert(q.take(k) =~= path.take(k));
        assert(q.take(k) == other.take(k) && q[k] != other[k]);
        assert(apart(q, other));
        lemma_replaced_apart(t, q, up, other);
    } else if other.len() > k + 1 {
        let o = other.drop_last();
        assert(o.take(k) =~= other.take(k));
        assert(path.take(k) == o.take(k) && path[k] != o[k]);
        assert(apart(path, o));
        lemma_replaced_apart(t, path, new, o);
    } else {
        assert(path.take(k) =~= q);
        assert(other.take(k) =~= other.drop_last());
        lemma_replaced_at(t, q, up);
    }
}

/// The node at the first `n` steps of `path`.
pub(crate) fn resolve(root: &rowan::GreenNode, path: &Vec<usize>, n: usize) -> (r: rowan::GreenNode)
    requires
        n <= path@.len(),
        tree_at(green::node_tree(*root), path@.take(n as int)) is Some,
        tree_at(green::node_tree(*root), path@.take(n as int))->0 is Node,
    ensures
        tree_at(green::node_tree(*root), path@.take(n as int)) == Some(green::node_tree(r)),
    decreases n,
{
    let ghost t = green::node_tree(*root);
    if n == 0 {
        assert(path@.take(0).len() == 0);
        return green::node_clone(root);
    }
    let ghost q = path@.take(n as int);
    assert(q.drop_last() =~= path@.take(n - 1));
    let up = resolve(root, path, n - 1);
    match node_child(&up, path[n - 1]) {
        GreenElement::Node(c) => c,
        GreenElement::Token(_) => up,
    }
}

/// The elements of a node.
pub(crate) fn elements(n: &rowan::GreenNode) -> (r: Vec<GreenElement>)
    ensures
        green::element_trees(r@) == green::node_children_of(*n),
{
    let len = node_len(n);
    let mut r: Vec<GreenElement> = Vec::new();
    let mut i: usize = 0;
    while i < len
        invariant
            i <= len,
            len == green::node_children_of(*n).len(),
            r@.len() == i,
            forall|j: int| 0 <= j < i ==> (#[trigger] r@[j])@ == green::node_children_of(*n)[j],
        decreases len - i,
    {
        r.push(node_child(n, i));
        i = i + 1;
    }
    assert(green::element_trees(r@) =~= green::node_children_of(*n));
    r
}

/// The node with the children from `start` up to `end` replaced by `new`.
pub(crate) fn splice_node(
    n: &rowan::GreenNode,
    start: usize,
    end: usize,
    new: Vec<GreenElement>,
) -> (r: rowan::GreenNode)
    requires
        start <= end <= green::node_children_of(*n).len(),
        green::trees_len(
            spliced(
                green::node_children_of(*n),
                start as int,
                end as int,
                green::element_trees(new@),
            ),
        ) <= MAX_LEN,
    ensures
        green::node_tree(r) == with_children(
            green::node_tree(*n),
            spliced(
                green::node_children_of(*n),
                start as int,
                end as int,
                green::element_trees(new@),
            ),
        ),
{
    let ghost cs = green::node_children_of(*n);
    let ghost goal = spliced(cs, start as int, end as int, green::element_trees(new@));
    let len = node_len(n);
    let mut r: Vec<GreenElement> = Vec::new();
    let mut i: usize = 0;
    while i < start
        invariant
            i <= start <= len,
            len == cs.len(),
            cs == green::node_children_of(*n),
            r@.len() == i,
            forall|j: int| 0 <= j < i ==> (#[trigger] r@[j])@ == cs[j],
        decreases start - i,
    {
        r.push(node_child(n, i));
        i = i + 1;
    }
    let mut new = new;
    let ghost middle = new@;
    r.append(&mut new);
    let ghost m = middle.len();
    let mut k: usize = end;
    while k < len
        invariant
            end <= k <= len,
            len == cs.len(),
            cs == green::node_children_of(*n),
            r@.len() == start + m + (k - end),
            m == middle.len(),
            forall|j: int| 0 <= j < start ==> (#[trigger] r@[j])@ == cs[j],
            forall|j: int| start <= j < start + m ==> (#[trigger] r@[j]) == middle[j - start],
            forall|j: int|
                start + m <= j < r@.len() ==> (#[trigger] r@[j])@ == cs[j - start - m + end],
        decreases len - k,
    {
        r.push(node_child(n, k));
        k = k + 1;
    }
    assert(green::element_trees(r@) =~= goal);
    node_new(node_kind(n), r)
}

/// The tree with another node at `path`.
pub(crate) fn replace_node(
    root: &rowan::GreenNode,
    path: &Vec<usize>,
    new: rowan::GreenNode,
) -> (r: rowan::GreenNode)
    requires
        tree_at(green::node_tree(*root), path@) is Some,
        tree_len(replaced(green::node_tree(*root), path@, green::node_tree(new))) <= MAX_LEN,
    ensures
        green::node_tree(r) == replaced(green::node_tree(*root), path@, green::node_tree(new)),
{
    let ghost t = green::node_tree(*root);
    let ghost goal = replaced(t, path@, green::node_tree(new));
    let mut cur = new;
    let mut n = path.len();
    assert(path@.take(n as int) =~= path@);
    while n > 0
        invariant
            n <= path@.len(),
            t == green::node_tree(*root),
            tree_at(t, path@.take(n as int)) is Some,
            replaced(t, path@.take(n as int), green::node_tree(cur)) == goal,
            tree_len(goal) <= MAX_LEN,
        decreases n,
    {
        let ghost q = path@.take(n as int);
        assert(q.drop_last() =~= path@.take(n - 1));
        let up = resolve(root, path, n - 1);
        let i = path[n - 1];
        let len = node_len(&up);
        assert(i < len);
        let ghost cs = green::node_children_of(up);
        let ghost one: Seq<GreenElement> = seq![GreenElement::Node(cur)];
        let ghost fresh = cs.update(i as int, green::node_tree(cur));
        proof {
            assert(green::element_trees(one) =~= seq![green::node_tree(cur)]);
            assert(spliced(cs, i as int, i + 1, green::element_trees(one)) =~= fresh);
            lemma_replaced_len(
                t,
                path@.take(n - 1),
                with_children(green::node_tree(up), fresh),
            );
        }
        let mut v: Vec<GreenElement> = Vec::new();
        v.push(GreenElement::Node(cur));
        assert(v@ =~= one);
        cur = splice_node(&up, i, i + 1, v);
        n = n - 1;
    }
    cur
}

} // verus!

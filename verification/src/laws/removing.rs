//! Taking an entry out of a mapping that was laid out.

use vstd::prelude::*;

use crate::builder::YamlModel;
use crate::edit::entry;
use crate::laws::layout;
use crate::laws::layout::Layout;
use crate::laws::relayout;
use crate::laws::shapes;
use crate::syntax::green::Tree;
use crate::syntax::kind::SyntaxKind;
use crate::syntax::node;
use crate::syntax::path;

verus! {

/// Where every second tree passes a test, the places are the even ones.
proof fn lemma_even_places(cs: Seq<Tree>, m: int, f: spec_fn(Tree) -> bool)
    requires
        0 <= m <= cs.len(),
        forall|j: int| 0 <= j < cs.len() ==> f(#[trigger] cs[j]) == (j % 2 == 0),
    ensures
        ({
            let p = node::places(cs.take(m), f);
            &&& p.len() == (m + 1) / 2
            &&& forall|q: int| 0 <= q < p.len() ==> #[trigger] p[q] == 2 * q
        }),
    decreases m,
{
    if m > 0 {
        lemma_even_places(cs, m - 1, f);
        assert(cs.take(m).drop_last() =~= cs.take(m - 1));
        assert(cs.take(m).last() == cs[m - 1]);
    }
}

/// The children of a mapping without an entry, and the line break that joined it to
/// the rest, are those of the mapping without the pair.
proof fn lemma_row_without(l: Layout, pairs: Seq<layout::Pair>, n: int, index: int)
    requires
        0 <= index < pairs.len(),
        pairs.len() >= 2,
    ensures
        ({
            let cs = shapes::pairs_trees(l, pairs, 0, n, n);
            let (start, end) = entry::removed_range(cs, 2 * index);
            &&& 0 <= start <= end <= cs.len()
            &&& path::spliced(cs, start, end, seq![]) == shapes::pairs_trees(
                l,
                pairs.remove(index),
                0,
                n,
                n,
            )
        }),
{
    let cs = shapes::pairs_trees(l, pairs, 0, n, n);
    let less = pairs.remove(index);
    let gs = shapes::pairs_trees(l, less, 0, n, n);
    relayout::lemma_pairs_row(l, pairs, 0, n, n);
    relayout::lemma_pairs_row(l, less, 0, n, n);
    let e = 2 * index;
    if index > 0 {
        assert(cs[e - 1] == shapes::feed());
    }
    if e + 1 < cs.len() {
        assert(cs[e + 1] == shapes::feed());
    }
    let (start, end) = entry::removed_range(cs, e);
    let ds = path::spliced(cs, start, end, seq![]);
    assert(ds.len() == gs.len());
    assert forall|j: int| 0 <= j < gs.len() implies #[trigger] ds[j] == gs[j] by {
        let k = if j < start {
            j
        } else {
            j + 2
        };
        assert(ds[j] == cs[k]);
        assert(k % 2 == j % 2);
        if j % 2 == 0 {
            let q = j / 2;
            assert(less[q] == if q < index {
                pairs[q]
            } else {
                pairs[q + 1]
            });
            if j >= start {
                assert(k / 2 == q + 1);
            }
        }
    }
    assert(ds =~= gs);
}

/// Taking an entry out of a mapping whose lines were laid out leaves the mapping as
/// it is laid out without that pair.
pub proof fn lemma_removing_takes_one_pair(
    t: Tree,
    path: Seq<usize>,
    l: Layout,
    pairs: Seq<layout::Pair>,
    n: int,
    index: int,
)
    requires
        path::tree_at(t, path) == Some(shapes::block_tree(l, YamlModel::Dict(pairs), n, n)),
        0 <= index < pairs.len(),
        pairs.len() >= 2,
    ensures
        path::tree_at(entry::without_entry(t, path, index), path) == Some(
            shapes::block_tree(l, YamlModel::Dict(pairs.remove(index)), n, n),
        ),
{
    let cs = shapes::pairs_trees(l, pairs, 0, n, n);
    let f = node::nodes_of(SyntaxKind::BLOCK_MAPPING_ENTRY);
    relayout::lemma_pairs_row(l, pairs, 0, n, n);
    assert forall|j: int| 0 <= j < cs.len() implies f(#[trigger] cs[j]) == (j % 2 == 0) by {}
    lemma_even_places(cs, cs.len() as int, f);
    assert(cs.take(cs.len() as int) =~= cs);
    let p = entry::entry_places(cs);
    assert(p[index] == 2 * index);
    lemma_row_without(l, pairs, n, index);
    let (start, end) = entry::removed_range(cs, 2 * index);
    let new = path::with_children(
        path::tree_at(t, path)->0,
        path::spliced(cs, start, end, seq![]),
    );
    path::lemma_replaced_at(t, path, new);
}

} // verus!

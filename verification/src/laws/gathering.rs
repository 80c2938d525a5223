//! What entries in a row stand for.

use vstd::prelude::*;

use crate::ast::collections;
use crate::ast::nodes;
use crate::ast::nodes::Node;
use crate::ast::scalar;
use crate::builder::read;
use crate::builder::YamlModel;
use crate::grammar::Parsed;
use crate::laws::layout;
use crate::laws::leaves;
use crate::syntax::green::Tree;
use crate::syntax::kind::SyntaxKind;
use crate::syntax::node;

verus! {

/// Whether a scalar stands for `m`, whatever is behind it.
pub open spec fn scalar_is(t: Tree, m: YamlModel) -> bool {
    forall|b: bool| #[trigger] read::scalar_model(t, b) == Ok::<YamlModel, Seq<char>>(m)
}

/// Whether a node stands for `m`, whatever is behind it.
pub open spec fn stands_for(t: Tree, m: YamlModel) -> bool {
    forall|b: bool| #[trigger] read::node_model(t, b) == Ok::<YamlModel, Seq<char>>(m)
}

/// Whether the items among trees stand for `x`, whatever is behind them.
pub open spec fn items_are(cs: Seq<Tree>, kind: SyntaxKind, x: Seq<YamlModel>) -> bool {
    forall|b: bool| #[trigger]
        read::items_model(cs, kind, b) == Ok::<Seq<YamlModel>, Seq<char>>(x)
}

/// Whether the pairs among trees stand for `x`, whatever is behind them.
pub open spec fn pairs_are(cs: Seq<Tree>, kind: SyntaxKind, x: Seq<layout::Pair>) -> bool {
    forall|b: bool| #[trigger]
        read::pairs_model(cs, kind, b) == Ok::<Seq<layout::Pair>, Seq<char>>(x)
}

/// Whether the documents among trees stand for `x`, whatever is behind them.
pub open spec fn documents_are(cs: Seq<Tree>, x: Seq<YamlModel>) -> bool {
    forall|b: bool| #[trigger]
        read::documents_model(cs, b) == Ok::<Seq<YamlModel>, Seq<char>>(x)
}

/// Whether what was made is tokens, and behind them a node that stands for `m`.
pub open spec fn yields(r: Parsed, len: int, m: YamlModel) -> bool {
    &&& r.fault is None
    &&& r.len == len
    &&& r.elems.len() > 0
    &&& all_tokens(r.elems.drop_last())
    &&& nodes::typed::<Node>()(r.elems.last())
    &&& stands_for(r.elems.last(), m)
}

/// Whether trees are tokens.
pub open spec fn all_tokens(ts: Seq<Tree>) -> bool {
    forall|i: int| 0 <= i < ts.len() ==> #[trigger] ts[i] is Token
}

/// No place, where a test fails everywhere.
pub proof fn lemma_no_place(cs: Seq<Tree>, f: spec_fn(Tree) -> bool)
    requires
        forall|i: int| 0 <= i < cs.len() ==> !f(#[trigger] cs[i]),
    ensures
        node::places(cs, f) == Seq::<int>::empty(),
    decreases cs.len(),
{
    if cs.len() > 0 {
        let ds = cs.drop_last();
        assert forall|i: int| 0 <= i < ds.len() implies !f(#[trigger] ds[i]) by {
            assert(ds[i] == cs[i]);
        }
        lemma_no_place(ds, f);
    }
}

/// The only place.
pub proof fn lemma_one_place(cs: Seq<Tree>, f: spec_fn(Tree) -> bool, k: int)
    requires
        0 <= k < cs.len(),
        f(cs[k]),
        forall|i: int| 0 <= i < cs.len() && i != k ==> !f(#[trigger] cs[i]),
    ensures
        node::places(cs, f) == seq![k],
    decreases cs.len(),
{
    let ds = cs.drop_last();
    assert forall|i: int| 0 <= i < ds.len() && i != k implies !f(#[trigger] ds[i]) by {
        assert(ds[i] == cs[i]);
    }
    if k == cs.len() - 1 {
        lemma_no_place(ds, f);
        assert(node::places(cs, f) =~= seq![k]);
    } else {
        assert(!f(cs[cs.len() - 1]));
        lemma_one_place(ds, f, k);
    }
}

/// The only two places.
proof fn lemma_two_places(cs: Seq<Tree>, f: spec_fn(Tree) -> bool, k: int)
    requires
        0 <= k < cs.len() - 1,
        f(cs[k]),
        f(cs.last()),
        forall|i: int| 0 <= i < cs.len() - 1 && i != k ==> !f(#[trigger] cs[i]),
    ensures
        node::places(cs, f) == seq![k, cs.len() - 1],
{
    let ds = cs.drop_last();
    assert forall|i: int| 0 <= i < ds.len() && i != k implies !f(#[trigger] ds[i]) by {
        assert(ds[i] == cs[i]);
    }
    lemma_one_place(ds, f, k);
    assert(node::places(cs, f) =~= seq![k, cs.len() - 1]);
}

/// What a sequence stands for.
pub proof fn lemma_list(kind: SyntaxKind, cs: Seq<Tree>, x: Seq<YamlModel>)
    requires
        kind == SyntaxKind::BLOCK_SEQUENCE ==> items_are(
            cs,
            SyntaxKind::BLOCK_SEQUENCE_ENTRY,
            x,
        ),
        kind == SyntaxKind::FLOW_SEQUENCE ==> items_are(cs, SyntaxKind::FLOW_SEQUENCE_ENTRY, x),
        kind == SyntaxKind::BLOCK_SEQUENCE || kind == SyntaxKind::FLOW_SEQUENCE,
    ensures
        stands_for(Tree::Node { kind: kind.code(), children: cs }, YamlModel::List(x)),
{
    let t = Tree::Node { kind: kind.code(), children: cs };
    assert forall|b: bool| #[trigger]
        read::node_model(t, b) == Ok::<YamlModel, Seq<char>>(YamlModel::List(x)) by {
        assert(read::items_model(cs, read::item_kind(t), b) is Ok);
    }
}

/// What a mapping stands for.
pub proof fn lemma_dict(kind: SyntaxKind, cs: Seq<Tree>, x: Seq<layout::Pair>)
    requires
        kind == SyntaxKind::BLOCK_MAPPING ==> pairs_are(cs, SyntaxKind::BLOCK_MAPPING_ENTRY, x),
        kind == SyntaxKind::FLOW_MAPPING ==> pairs_are(cs, SyntaxKind::FLOW_MAPPING_ENTRY, x),
        kind == SyntaxKind::BLOCK_MAPPING || kind == SyntaxKind::FLOW_MAPPING,
    ensures
        stands_for(Tree::Node { kind: kind.code(), children: cs }, YamlModel::Dict(x)),
{
    let t = Tree::Node { kind: kind.code(), children: cs };
    assert forall|b: bool| #[trigger]
        read::node_model(t, b) == Ok::<YamlModel, Seq<char>>(YamlModel::Dict(x)) by {
        assert(read::pairs_model(cs, read::pair_kind(t), b) is Ok);
    }
}

/// Tokens hold no items and no pairs.
pub proof fn lemma_tokens(cs: Seq<Tree>, kind: SyntaxKind)
    requires
        all_tokens(cs),
    ensures
        items_are(cs, kind, seq![]),
        pairs_are(cs, kind, seq![]),
    decreases cs.len(),
{
    if cs.len() > 0 {
        let ds = cs.drop_last();
        assert forall|i: int| 0 <= i < ds.len() implies #[trigger] ds[i] is Token by {
            assert(ds[i] == cs[i]);
        }
        lemma_tokens(ds, kind);
        assert(cs[cs.len() - 1] is Token);
        assert forall|b: bool| #[trigger]
            read::items_model(cs, kind, b) == Ok::<Seq<YamlModel>, Seq<char>>(seq![]) by {
            assert(read::items_model(ds, kind, scalar::begins_broken(cs.last())) is Ok);
        }
        assert forall|b: bool| #[trigger]
            read::pairs_model(cs, kind, b) == Ok::<Seq<layout::Pair>, Seq<char>>(seq![]) by {
            assert(read::pairs_model(ds, kind, scalar::begins_broken(cs.last())) is Ok);
        }
    }
}

/// Items one behind another.
pub proof fn lemma_items_add(
    a: Seq<Tree>,
    b: Seq<Tree>,
    kind: SyntaxKind,
    x: Seq<YamlModel>,
    y: Seq<YamlModel>,
)
    requires
        items_are(a, kind, x),
        items_are(b, kind, y),
    ensures
        items_are(a + b, kind, x + y),
{
    assert forall|br: bool| #[trigger]
        read::items_model(a + b, kind, br) == Ok::<Seq<YamlModel>, Seq<char>>(x + y) by {
        lemma_items_add_at(a, b, kind, x, y, br);
    }
}

/// Items one behind another, with what is behind them.
proof fn lemma_items_add_at(
    a: Seq<Tree>,
    b: Seq<Tree>,
    kind: SyntaxKind,
    x: Seq<YamlModel>,
    y: Seq<YamlModel>,
    br: bool,
)
    requires
        items_are(a, kind, x),
        read::items_model(b, kind, br) == Ok::<Seq<YamlModel>, Seq<char>>(y),
    ensures
        read::items_model(a + b, kind, br) == Ok::<Seq<YamlModel>, Seq<char>>(x + y),
    decreases b.len(),
{
    if b.len() == 0 {
        assert(a + b =~= a);
        assert(x + y =~= x);
    } else {
        let c = b.drop_last();
        assert((a + b).drop_last() =~= a + c);
        let next = scalar::begins_broken(b.last());
        assert(read::items_model(c, kind, next) is Ok);
        let z = read::items_model(c, kind, next)->Ok_0;
        lemma_items_add_at(a, c, kind, x, z, next);
        if collections::holding(kind)(b.last()) {
            assert(x + y =~= (x + z).push(y.last()));
        }
    }
}

/// Pairs one behind another.
pub proof fn lemma_pairs_add(
    a: Seq<Tree>,
    b: Seq<Tree>,
    kind: SyntaxKind,
    x: Seq<layout::Pair>,
    y: Seq<layout::Pair>,
)
    requires
        pairs_are(a, kind, x),
        pairs_are(b, kind, y),
    ensures
        pairs_are(a + b, kind, x + y),
{
    assert forall|br: bool| #[trigger]
        read::pairs_model(a + b, kind, br) == Ok::<Seq<layout::Pair>, Seq<char>>(x + y) by {
        lemma_pairs_add_at(a, b, kind, x, y, br);
    }
}

/// Pairs one behind another, with what is behind them.
proof fn lemma_pairs_add_at(
    a: Seq<Tree>,
    b: Seq<Tree>,
    kind: SyntaxKind,
    x: Seq<layout::Pair>,
    y: Seq<layout::Pair>,
    br: bool,
)
    requires
        pairs_are(a, kind, x),
        read::pairs_model(b, kind, br) == Ok::<Seq<layout::Pair>, Seq<char>>(y),
    ensures
        read::pairs_model(a + b, kind, br) == Ok::<Seq<layout::Pair>, Seq<char>>(x + y),
    decreases b.len(),
{
    if b.len() == 0 {
        assert(a + b =~= a);
        assert(x + y =~= x);
    } else {
        let c = b.drop_last();
        assert((a + b).drop_last() =~= a + c);
        let next = scalar::begins_broken(b.last());
        assert(read::pairs_model(c, kind, next) is Ok);
        let z = read::pairs_model(c, kind, next)->Ok_0;
        lemma_pairs_add_at(a, c, kind, x, z, next);
        if collections::holding(kind)(b.last()) {
            assert(x + y =~= (x + z).push(y.last()));
        }
    }
}

/// An entry of a sequence, made of tokens and what holds the value.
pub open spec fn item_tree(kind: SyntaxKind, head: Seq<Tree>, r: Parsed) -> Tree {
    Tree::Node { kind: kind.code(), children: head + r.elems }
}

/// What an entry of a sequence stands for.
pub proof fn lemma_item(
    kind: SyntaxKind,
    head: Seq<Tree>,
    r: Parsed,
    len: int,
    m: YamlModel,
)
    requires
        all_tokens(head),
        yields(r, len, m),
    ensures
        items_are(seq![item_tree(kind, head, r)], kind, seq![m]),
{
    let e = item_tree(kind, head, r);
    let cs = e.children();
    let f = nodes::typed::<Node>();
    let k = cs.len() - 1;
    assert(cs[k] == r.elems.last());
    assert forall|i: int| 0 <= i < cs.len() && i != k implies !f(#[trigger] cs[i]) by {
        if i >= head.len() {
            assert(r.elems.drop_last()[i - head.len()] is Token);
        }
    }
    lemma_one_place(cs, f, k);
    let one = seq![e];
    assert(one.drop_last() =~= seq![]);
    assert(one.last() == e);
    assert(collections::value_places(e) == seq![k]);
    assert(collections::holding(kind)(e));
    assert(Seq::<YamlModel>::empty().push(m) =~= seq![m]);
    assert forall|b: bool| #[trigger]
        read::items_model(one, kind, b) == Ok::<Seq<YamlModel>, Seq<char>>(seq![m]) by {
        assert(read::items_model(one.drop_last(), kind, scalar::begins_broken(e)) == Ok::<
            Seq<YamlModel>,
            Seq<char>,
        >(seq![]));
        assert(read::node_model(cs[k], scalar::broken_after(cs, k, b)) is Ok);
    }
}

/// An entry of a mapping, made of tokens, a key and what holds the value.
pub open spec fn pair_tree(
    kind: SyntaxKind,
    head: Seq<Tree>,
    key: Seq<char>,
    colon: Tree,
    r: Parsed,
) -> Tree {
    Tree::Node {
        kind: kind.code(),
        children: head + seq![leaves::scalar_tree(key)] + seq![colon] + r.elems,
    }
}

/// What an entry of a mapping stands for.
pub proof fn lemma_pair(
    kind: SyntaxKind,
    head: Seq<Tree>,
    key: Seq<char>,
    x: Seq<char>,
    colon: Tree,
    r: Parsed,
    len: int,
    m: YamlModel,
)
    requires
        all_tokens(head),
        colon is Token,
        scalar::scalar_text(leaves::scalar_tree(key).children()) == Ok::<
            Seq<char>,
            crate::ast::decode::DecodeFault,
        >(x),
        yields(r, len, m),
    ensures
        pairs_are(seq![pair_tree(kind, head, key, colon, r)], kind, seq![(x, m)]),
{
    let e = pair_tree(kind, head, key, colon, r);
    let cs = e.children();
    let f = nodes::typed::<Node>();
    let k = head.len() as int;
    assert(cs[k] == leaves::scalar_tree(key));
    assert(cs[k + 1] == colon);
    assert(cs.last() == r.elems.last());
    assert(f(cs[k]));
    assert forall|i: int| 0 <= i < cs.len() - 1 && i != k implies !f(#[trigger] cs[i]) by {
        if i >= k + 2 {
            assert(r.elems.drop_last()[i - k - 2] is Token);
        }
    }
    lemma_two_places(cs, f, k);
    let one = seq![e];
    assert(one.drop_last() =~= seq![]);
    assert(one.last() == e);
    assert(collections::value_places(e) == seq![k, cs.len() - 1]);
    assert(collections::holding(kind)(e));
    assert(Seq::<layout::Pair>::empty().push((x, m)) =~= seq![(x, m)]);
    assert forall|b: bool| #[trigger]
        read::pairs_model(one, kind, b) == Ok::<Seq<layout::Pair>, Seq<char>>(seq![(x, m)]) by {
        assert(read::pairs_model(one.drop_last(), kind, scalar::begins_broken(e)) == Ok::<
            Seq<layout::Pair>,
            Seq<char>,
        >(seq![]));
        assert(read::node_model(cs.last(), scalar::broken_after(cs, cs.len() - 1, b)) is Ok);
    }
}

} // verus!

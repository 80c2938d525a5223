//! An entry that was put in can be read, and taking it out undoes it.

use vstd::prelude::*;
use vstd::utf8::*;

use crate::builder;
use crate::builder::YamlModel;
use crate::edit::entry;
use crate::grammar;
use crate::laws::emitting;
use crate::laws::gathering;
use crate::laws::layout;
use crate::laws::leaves;
use crate::laws::padding;
use crate::laws::standing;
use crate::laws::surviving;
use crate::syntax::clear;
use crate::syntax::green::Tree;
use crate::syntax::kind::SyntaxKind;
use crate::syntax::node;
use crate::syntax::path;

verus! {

/// The places in trees one behind another.
proof fn lemma_places_add(a: Seq<Tree>, b: Seq<Tree>, f: spec_fn(Tree) -> bool)
    ensures
        node::places(a + b, f).len() == node::places(a, f).len() + node::places(b, f).len(),
        forall|j: int|
            0 <= j < node::places(b, f).len() ==> #[trigger] node::places(b, f)[j] + a.len()
                == node::places(a + b, f)[node::places(a, f).len() + j],
    decreases b.len(),
{
    if b.len() == 0 {
        assert(a + b =~= a);
    } else {
        let c = b.drop_last();
        assert((a + b).drop_last() =~= a + c);
        lemma_places_add(a, c, f);
        assert forall|j: int| 0 <= j < node::places(b, f).len() implies #[trigger] node::places(
            b,
            f,
        )[j] + a.len() == node::places(a + b, f)[node::places(a, f).len() + j] by {
            if j < node::places(c, f).len() {
                assert(node::places(b, f)[j] == node::places(c, f)[j]);
            }
        }
    }
}

/// As many places stand before a place as its number says.
proof fn lemma_places_before(cs: Seq<Tree>, f: spec_fn(Tree) -> bool, i: int)
    requires
        0 <= i < node::places(cs, f).len(),
    ensures
        0 <= node::places(cs, f)[i] < cs.len(),
        f(cs[node::places(cs, f)[i]]),
        node::places(cs.take(node::places(cs, f)[i]), f).len() == i,
    decreases cs.len(),
{
    let ds = cs.drop_last();
    let r = node::places(ds, f);
    if i < r.len() {
        lemma_places_before(ds, f, i);
        assert(cs.take(r[i]) =~= ds.take(r[i]));
    } else {
        assert(cs.take(cs.len() - 1) =~= ds);
    }
}

/// What is found is of the kind that was looked for.
proof fn lemma_found(t: Tree, k: SyntaxKind)
    ensures
        entry::find_node(t, k) matches Some(x) ==> x.is_node_of(k),
    decreases t, 0nat,
{
    match t {
        Tree::Token { .. } => {},
        Tree::Node { children, .. } => {
            lemma_found_in(children, k);
        },
    }
}

/// What is found in a row is of the kind that was looked for.
proof fn lemma_found_in(ts: Seq<Tree>, k: SyntaxKind)
    ensures
        entry::find_in(ts, k) matches Some(x) ==> x.is_node_of(k),
    decreases ts,
{
    if ts.len() > 0 {
        lemma_found_in(ts.drop_last(), k);
        lemma_found(ts.last(), k);
    }
}

/// Whether no whitespace stands right before the place where an entry is put in.
pub open spec fn has_clear_place(cs: Seq<Tree>, index: int) -> bool {
    let at = entry::insert_place(cs, index);
    at == cs.len() || at == 0 || !cs[at - 1].is_token_of(SyntaxKind::WHITESPACE)
}

/// The position of an entry that was put in at `index`.
pub open spec fn position(cs: Seq<Tree>, index: int) -> int {
    let n = entry::entry_places(cs).len();
    if index < n {
        index
    } else {
        n as int
    }
}

/// Among children, what is taken out is what was put in.
proof fn lemma_children_restored(cs: Seq<Tree>, index: int, e: Tree, col: int)
    requires
        0 <= index,
        0 <= col,
        e.is_node_of(SyntaxKind::BLOCK_MAPPING_ENTRY),
        has_clear_place(cs, index),
    ensures
        ({
            let at = entry::insert_place(cs, index);
            let ds = path::spliced(cs, at, at, entry::insert_trees(cs, index, e, col));
            let p = entry::entry_places(ds);
            let k = position(cs, index);
            let (start, end) = entry::removed_range(ds, p[k]);
            &&& k < p.len()
            &&& path::spliced(ds, start, end, seq![]) == cs
        }),
{
    let f = node::nodes_of(SyntaxKind::BLOCK_MAPPING_ENTRY);
    let at = entry::insert_place(cs, index);
    let k = position(cs, index);
    let new = entry::insert_trees(cs, index, e, col);
    let a = cs.take(at);
    let b = cs.skip(at);
    let ds = path::spliced(cs, at, at, new);
    let inner = index < entry::entry_places(cs).len();
    if inner {
        lemma_places_before(cs, f, index);
    } else {
        assert(a =~= cs);
    }
    let w: int = if col > 0 {
        1
    } else {
        0
    };
    let m: int = if inner {
        w
    } else {
        1 + w
    };
    assert(new[m] == e && f(e));
    lemma_first_place(new, f, m);
    assert(ds =~= a + (new + b));
    lemma_places_add(a, new + b, f);
    lemma_places_add(new, b, f);
    lemma_first_place(new + b, f, m);
    let p = entry::entry_places(ds);
    assert(node::places(new + b, f)[0] == m);
    assert(p[k] == at + m);
    assert(ds[at + m] == e);
    if inner {
        if w == 1 {
            assert(ds[at].is_token_of(SyntaxKind::WHITESPACE));
        }
        if at > 0 {
            assert(ds[at - 1] == cs[at - 1]);
        }
        assert(entry::blanks_start(ds, at) == at);
        assert(entry::blanks_start(ds, at + w) == at);
        assert(ds[at + w + 1].is_token_of(SyntaxKind::NEWLINE));
    } else {
        assert(ds[at].is_token_of(SyntaxKind::NEWLINE));
        assert(entry::blanks_start(ds, at + 1) == at + 1);
        if w == 1 {
            assert(ds[at + 1].is_token_of(SyntaxKind::WHITESPACE));
        }
        assert(entry::blanks_start(ds, at + 1 + w) == at + 1);
        assert(ds.len() == at + w + 2);
    }
    let (start, end) = entry::removed_range(ds, p[k]);
    assert(start == at && end == at + new.len());
    assert(path::spliced(ds, start, end, seq![]) =~= cs);
}

/// The first place.
proof fn lemma_first_place(cs: Seq<Tree>, f: spec_fn(Tree) -> bool, m: int)
    requires
        0 <= m < cs.len(),
        f(cs[m]),
        forall|i: int| 0 <= i < m ==> !f(#[trigger] cs[i]),
    ensures
        node::places(cs, f).len() > 0,
        node::places(cs, f)[0] == m,
    decreases cs.len(),
{
    let ds = cs.drop_last();
    if m < cs.len() - 1 {
        assert forall|i: int| 0 <= i < m implies !f(#[trigger] ds[i]) by {
            assert(ds[i] == cs[i]);
        }
        lemma_first_place(ds, f, m);
    } else {
        gathering::lemma_no_place(ds, f);
    }
}

/// Taking out the entry that was put into a mapping gives the tree as it was
/// before, where entries hold the whitespace before them, as they do in every tree
/// that was parsed.
pub proof fn lemma_removing_undoes_inserting(
    t: Tree,
    p: Seq<usize>,
    index: int,
    key: Seq<char>,
    value: YamlModel,
)
    requires
        path::tree_at(t, p) is Some,
        path::tree_at(t, p)->0.is_node_of(SyntaxKind::BLOCK_MAPPING),
        0 <= index,
        entry::entry_fits(key, value, entry::map_column(t, p) as int),
        clear::clear(t),
    ensures
        entry::without_entry(
            entry::with_entry(t, p, index, key, value),
            p,
            position(path::tree_at(t, p)->0.children(), index),
        ) == t,
{
    let map = path::tree_at(t, p)->0;
    let cs = map.children();
    let col = entry::map_column(t, p) as int;
    let s = entry::entry_text(key, value, col);
    let e = entry::entry_of_text(s)->0;
    lemma_found_in(
        grammar::stream(encode_utf8(s)).elems,
        SyntaxKind::BLOCK_MAPPING_ENTRY,
    );
    let at = entry::insert_place(cs, index);
    clear::lemma_clear_at(t, p);
    if index < entry::entry_places(cs).len() {
        lemma_places_before(cs, node::nodes_of(SyntaxKind::BLOCK_MAPPING_ENTRY), index);
    }
    lemma_children_restored(cs, index, e, col);
    let ds = path::spliced(cs, at, at, entry::insert_trees(cs, index, e, col));
    let x = path::with_children(map, ds);
    path::lemma_replaced_at(t, p, x);
    assert(path::with_children(map, cs) == map);
    path::lemma_replaced_twice(t, p, x, map);
    path::lemma_replaced_same(t, p);
}

/// What is found first in a tree that is one document.
proof fn lemma_found_first(map: Tree, e: Tree, r: grammar::Parsed, t: grammar::Parsed)
    requires
        e.is_node_of(SyntaxKind::BLOCK_MAPPING_ENTRY),
        map == (Tree::Node { kind: SyntaxKind::BLOCK_MAPPING.code(), children: seq![e] }),
        r.elems == seq![map],
        t.elems.len() == 1,
        t.elems[0] is Token,
    ensures
        entry::find_in(
            seq![surviving::one_document(r, t)],
            SyntaxKind::BLOCK_MAPPING_ENTRY,
        ) == Some(e),
{
    let k = SyntaxKind::BLOCK_MAPPING_ENTRY;
    lemma_find_one(e, k);
    assert(entry::find_node(e, k) == Some(e));
    lemma_find_one(map, k);
    assert(entry::find_node(map, k) == Some(e));
    let doc = Tree::Node { kind: SyntaxKind::DOCUMENT.code(), children: r.elems };
    assert(entry::find_node(doc, k) == Some(e));
    lemma_find_one(doc, k);
    let cs = seq![doc] + t.elems;
    assert(cs.drop_last() =~= seq![doc]);
    assert(entry::find_in(cs, k) == Some(e));
    let all = surviving::one_document(r, t);
    assert(entry::find_node(all, k) == Some(e));
    lemma_find_one(all, k);
}

/// What is found in one tree.
proof fn lemma_find_one(t: Tree, k: SyntaxKind)
    ensures
        entry::find_in(seq![t], k) == entry::find_node(t, k),
{
    let one = seq![t];
    assert(one.drop_last() =~= seq![]);
    assert(entry::find_in(one.drop_last(), k) is None);
    assert(one.last() == t);
}

/// The text of an entry has no error, and is the entry.
#[verifier::rlimit(40)]
pub proof fn lemma_entry_is_made(key: Seq<char>, value: YamlModel, col: int)
    requires
        surviving::is_tame(value),
        0 <= col,
        col + 2 * builder::depth(value) <= usize::MAX,
    ensures
        ({
            let s = entry::entry_text(key, value, col);
            &&& grammar::stream(encode_utf8(s)).fault is None
            &&& entry::entry_of_text(s) is Some
            &&& gathering::pairs_are(
                seq![entry::entry_of_text(s)->0],
                SyntaxKind::BLOCK_MAPPING_ENTRY,
                seq![(key, value)],
            )
        }),
{
    let pairs = seq![(key, value)];
    let none = Seq::<char>::empty();
    padding::lemma_entry_text(key, value, col);
    let b = layout::pairs_body(layout::two(), pairs, 0, col);
    let s = encode_utf8(b + seq!['\n']);
    assert(s.subrange(0, s.len() as int) =~= s);
    standing::lemma_parts(s, 0, b, seq!['\n']);
    let e = standing::size(b);
    assert(seq!['\n'] =~= seq!['\n'] + none);
    standing::lemma_first(s, e, '\n', none);
    assert(standing::size(none) == 0);
    standing::lemma_last_line(s, e);
    standing::lemma_break(s, e);
    let rest = layout::pairs_rest(layout::two(), pairs, 1, col);
    assert(rest =~= none);
    surviving::lemma_key(layout::two(), s, 0, key, value, col, rest);
    let w = builder::string_text(key);
    let q = standing::size(w);
    let c = layout::child_body(layout::two(), value, col);
    assert(e == q + 1 + standing::size(c));
    assert(standing::ends_before(s, e, 1));
    surviving::lemma_value(layout::two(), s, q + 1, value, col, 0);
    assert(standing::line_at(s, 0, 0));
    standing::lemma_line(s, 0, 0);
    emitting::lemma_scalar_hint(s, 0, w);
    surviving::lemma_unmarked(s, 0, w);
    emitting::lemma_first_key(s, 0, 0, w, 0, 0);
    surviving::lemma_from_key(s, 0, 0, w);
    let v = grammar::entry_value(s, q + 1, 0);
    let colon = grammar::token(s, q, SyntaxKind::COLON, 1);
    leaves::lemma_text(key);
    let head = grammar::leading_whitespace(s, 0).elems;
    gathering::lemma_pair(SyntaxKind::BLOCK_MAPPING_ENTRY, head, w, key, colon.elems[0], v, standing::size(c), value);
    let x = gathering::pair_tree(SyntaxKind::BLOCK_MAPPING_ENTRY, head, w, colon.elems[0], v);
    let r = grammar::block_node(s, 0, 0, 0);
    assert(grammar::block_content(s, 0, 0, 0) == grammar::block_mapping_or_scalar(s, 0, 0, 0));
    assert(grammar::mapping_tail(s, e, 0) == grammar::none());
    assert(seq![x] + grammar::none().elems =~= seq![x]);
    let map = Tree::Node { kind: SyntaxKind::BLOCK_MAPPING.code(), children: seq![x] };
    assert(r.elems =~= seq![map]);
    assert(r.elems.drop_last() =~= seq![]);
    gathering::lemma_dict(SyntaxKind::BLOCK_MAPPING, seq![x], pairs);
    assert(gathering::yields(r, e, YamlModel::Dict(pairs)));
    assert(grammar::trivia(s, 0) == grammar::none()) by {
        reveal(grammar::trivia);
    }
    surviving::lemma_one_document(s, e, YamlModel::Dict(pairs));
    lemma_found_first(map, x, r, standing::break_token(s, e));
}

/// An entry that was put into a mapping is read with its key and value, between
/// the entries before its place and those behind; they are read as before. (Left
/// out are entries that are read otherwise when something else comes behind them: a
/// block scalar that keeps its line breaks keeps the one that is put behind it.)
pub proof fn lemma_inserted_entry_is_readable(
    t: Tree,
    p: Seq<usize>,
    index: int,
    key: Seq<char>,
    value: YamlModel,
    before: Seq<layout::Pair>,
    behind: Seq<layout::Pair>,
)
    requires
        path::tree_at(t, p) is Some,
        path::tree_at(t, p)->0.is_node_of(SyntaxKind::BLOCK_MAPPING),
        0 <= index,
        surviving::is_tame(value),
        entry::map_column(t, p) + 2 * builder::depth(value) <= usize::MAX,
        ({
            let kind = SyntaxKind::BLOCK_MAPPING_ENTRY;
            let cs = path::tree_at(t, p)->0.children();
            let at = entry::insert_place(cs, index);
            &&& gathering::pairs_are(cs.take(at), kind, before)
            &&& gathering::pairs_are(cs.skip(at), kind, behind)
        }),
    ensures
        ({
            let kind = SyntaxKind::BLOCK_MAPPING_ENTRY;
            let cs = path::tree_at(t, p)->0.children();
            let new = path::tree_at(entry::with_entry(t, p, index, key, value), p);
            &&& gathering::pairs_are(cs, kind, before + behind)
            &&& new is Some
            &&& gathering::pairs_are(
                new->0.children(),
                kind,
                before + seq![(key, value)] + behind,
            )
        }),
{
    let kind = SyntaxKind::BLOCK_MAPPING_ENTRY;
    let map = path::tree_at(t, p)->0;
    let cs = map.children();
    let col = entry::map_column(t, p) as int;
    let s = entry::entry_text(key, value, col);
    lemma_entry_is_made(key, value, col);
    let e = entry::entry_of_text(s)->0;
    let at = entry::insert_place(cs, index);
    let f = node::nodes_of(kind);
    if index < entry::entry_places(cs).len() {
        lemma_places_before(cs, f, index);
    }
    let a = cs.take(at);
    let b = cs.skip(at);
    assert(a + b =~= cs);
    gathering::lemma_pairs_add(a, b, kind, before, behind);
    let new = entry::insert_trees(cs, index, e, col);
    lemma_new_trees(cs, index, e, col, (key, value));
    let ds = path::spliced(cs, at, at, new);
    gathering::lemma_pairs_add(a, new, kind, before, seq![(key, value)]);
    gathering::lemma_pairs_add(a + new, b, kind, before + seq![(key, value)], behind);
    path::lemma_replaced_at(t, p, path::with_children(map, ds));
}

/// What is put in for an entry is read as the entry is.
proof fn lemma_new_trees(cs: Seq<Tree>, index: int, e: Tree, col: int, pair: layout::Pair)
    requires
        gathering::pairs_are(seq![e], SyntaxKind::BLOCK_MAPPING_ENTRY, seq![pair]),
    ensures
        gathering::pairs_are(
            entry::insert_trees(cs, index, e, col),
            SyntaxKind::BLOCK_MAPPING_ENTRY,
            seq![pair],
        ),
{
    let kind = SyntaxKind::BLOCK_MAPPING_ENTRY;
    let none = Seq::<layout::Pair>::empty();
    let new = entry::insert_trees(cs, index, e, col);
    let inner = index < entry::entry_places(cs).len();
    let n = new.len();
    let k: int = if inner {
        n - 2
    } else {
        n - 1
    };
    let a = new.take(k);
    let b = new.skip(k + 1);
    assert(new[k] == e);
    assert(new =~= a + seq![e] + b);
    gathering::lemma_tokens(a, kind);
    gathering::lemma_tokens(b, kind);
    gathering::lemma_pairs_add(a, seq![e], kind, none, seq![pair]);
    gathering::lemma_pairs_add(a + seq![e], b, kind, none + seq![pair], none);
    assert(none + seq![pair] + none =~= seq![pair]);
}

} // verus!

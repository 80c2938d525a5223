//! Fixing the indentation of a text that was laid out.

use vstd::prelude::*;
use vstd::utf8::*;

use crate::builder;
use crate::builder::read;
use crate::builder::YamlModel;
use crate::fixers::indent;
use crate::grammar;
use crate::laws::emitting;
use crate::laws::indenting;
use crate::laws::layout;
use crate::laws::layout::Layout;
use crate::laws::leaves;
use crate::laws::shapes;
use crate::laws::standing;
use crate::laws::surviving;
use crate::syntax::green::Tree;
use crate::syntax::kind::SyntaxKind;
use crate::syntax::node;
use crate::syntax::tree_utils;
use crate::text;

verus! {

// ---- Entries ----

/// The dash of an item.
pub open spec fn dash() -> Tree {
    shapes::tok(SyntaxKind::DASH, seq!['-'])
}

/// The key of a pair and its colon.
pub open spec fn key_marks(key: Seq<char>) -> Seq<Tree> {
    seq![leaves::scalar_tree(builder::string_text(key))] + seq![
        shapes::tok(SyntaxKind::COLON, seq![':']),
    ]
}

/// An entry: its indentation, its marks and its value.
pub open spec fn entry_of(kind: SyntaxKind, lead: int, marks: Seq<Tree>, value: Seq<Tree>) -> Tree {
    Tree::Node { kind: kind.code(), children: shapes::margin_of(lead) + marks + value }
}

/// The entry of an item.
pub open spec fn item_entry(l: Layout, m: YamlModel, n: int, lead: int) -> Tree {
    entry_of(SyntaxKind::BLOCK_SEQUENCE_ENTRY, lead, seq![dash()], shapes::item_elems(l, m, n))
}

/// The entry of a pair.
pub open spec fn pair_entry(l: Layout, pair: layout::Pair, n: int, lead: int) -> Tree {
    entry_of(
        SyntaxKind::BLOCK_MAPPING_ENTRY,
        lead,
        key_marks(pair.0),
        shapes::child_elems(l, pair.1, n),
    )
}

/// How far the first entry of a block moves.
pub open spec fn moved(lead: int, col: int) -> int {
    if lead > 0 {
        col
    } else {
        0
    }
}

/// The entries of items stand at every second place.
proof fn lemma_items_row(l: Layout, items: Seq<YamlModel>, i: int, n: int, lead: int)
    requires
        0 <= i < items.len(),
    ensures
        ({
            let r = shapes::items_trees(l, items, i, n, lead);
            &&& r.len() == 2 * (items.len() - i) - 1
            &&& forall|j: int|
                0 <= j < r.len() ==> #[trigger] r[j] == if j % 2 == 1 {
                    shapes::feed()
                } else {
                    item_entry(
                        l,
                        items[i + j / 2],
                        n,
                        if j == 0 {
                            lead
                        } else {
                            n
                        },
                    )
                }
        }),
    decreases items.len() - i,
{
    let r = shapes::items_trees(l, items, i, n, lead);
    assert(r[0] == item_entry(l, items[i], n, lead));
    if i + 1 < items.len() {
        lemma_items_row(l, items, i + 1, n, n);
        let more = shapes::items_trees(l, items, i + 1, n, n);
        assert(r =~= seq![r[0], shapes::feed()] + more);
        assert forall|j: int| 2 <= j < r.len() implies #[trigger] r[j] == if j % 2 == 1 {
            shapes::feed()
        } else {
            item_entry(l, items[i + j / 2], n, n)
        } by {
            assert(r[j] == more[j - 2]);
            assert((j - 2) / 2 == j / 2 - 1);
            assert((j - 2) % 2 == j % 2);
        }
    } else {
        assert(r =~= seq![r[0]]);
    }
}

/// The entries of pairs stand at every second place.
pub(crate) proof fn lemma_pairs_row(l: Layout, pairs: Seq<layout::Pair>, i: int, n: int, lead: int)
    requires
        0 <= i < pairs.len(),
    ensures
        ({
            let r = shapes::pairs_trees(l, pairs, i, n, lead);
            &&& r.len() == 2 * (pairs.len() - i) - 1
            &&& forall|j: int|
                0 <= j < r.len() ==> #[trigger] r[j] == if j % 2 == 1 {
                    shapes::feed()
                } else {
                    pair_entry(
                        l,
                        pairs[i + j / 2],
                        n,
                        if j == 0 {
                            lead
                        } else {
                            n
                        },
                    )
                }
        }),
    decreases pairs.len() - i,
{
    let r = shapes::pairs_trees(l, pairs, i, n, lead);
    let e = pair_entry(l, pairs[i], n, lead);
    assert(r[0].children() =~= e.children());
    assert(r[0] == e);
    if i + 1 < pairs.len() {
        lemma_pairs_row(l, pairs, i + 1, n, n);
        let more = shapes::pairs_trees(l, pairs, i + 1, n, n);
        assert(r =~= seq![r[0], shapes::feed()] + more);
        assert forall|j: int| 2 <= j < r.len() implies #[trigger] r[j] == if j % 2 == 1 {
            shapes::feed()
        } else {
            pair_entry(l, pairs[i + j / 2], n, n)
        } by {
            assert(r[j] == more[j - 2]);
            assert((j - 2) / 2 == j / 2 - 1);
            assert((j - 2) % 2 == j % 2);
        }
    } else {
        assert(r =~= seq![r[0]]);
    }
}

// ---- No literal or folded scalars ----

/// A row of trees without literal and folded scalars.
proof fn lemma_none_in_row(ts: Seq<Tree>)
    requires
        forall|i: int| 0 <= i < ts.len() ==> !tree_utils::has_block_scalar(#[trigger] ts[i]),
    ensures
        !tree_utils::any_block_scalar(ts),
    decreases ts.len(),
{
    if ts.len() > 0 {
        assert forall|i: int| 0 <= i < ts.drop_last().len() implies !tree_utils::has_block_scalar(
            #[trigger] ts.drop_last()[i],
        ) by {
            assert(ts.drop_last()[i] == ts[i]);
        }
        lemma_none_in_row(ts.drop_last());
        assert(ts.last() == ts[ts.len() - 1]);
    }
}

/// A scalar that was written is neither literal nor folded.
proof fn lemma_none_in_scalar(w: Seq<char>)
    ensures
        !tree_utils::has_block_scalar(leaves::scalar_tree(w)),
{
    let t = leaves::scalar_tree(w);
    assert(!tree_utils::has_block_scalar(emitting::token_of(w)));
    lemma_none_in_row(t.children());
}

/// Nor is a value on one line.
proof fn lemma_none_in_leaf(m: YamlModel)
    ensures
        !tree_utils::has_block_scalar(shapes::leaf_tree(m)),
{
    match m {
        YamlModel::List(_) | YamlModel::Dict(_) => {
            lemma_none_in_row(shapes::leaf_tree(m).children());
        },
        _ => {
            lemma_none_in_scalar(layout::leaf_text(m));
        },
    }
}

/// Nothing that was laid out holds a literal or folded scalar.
proof fn lemma_none_in_block(l: Layout, m: YamlModel, n: int, lead: int)
    requires
        layout::is_tall(m),
    ensures
        !tree_utils::has_block_scalar(shapes::block_tree(l, m, n, lead)),
    decreases m, 3nat,
{
    match m {
        YamlModel::List(items) => {
            let r = shapes::items_trees(l, items, 0, n, lead);
            lemma_items_row(l, items, 0, n, lead);
            assert forall|j: int| 0 <= j < r.len() implies !tree_utils::has_block_scalar(
                #[trigger] r[j],
            ) by {
                if j % 2 == 0 {
                    lemma_none_in_item(l, items[j / 2], n, if j == 0 {
                        lead
                    } else {
                        n
                    });
                }
            }
            lemma_none_in_row(r);
        },
        YamlModel::Dict(pairs) => {
            let r = shapes::pairs_trees(l, pairs, 0, n, lead);
            lemma_pairs_row(l, pairs, 0, n, lead);
            assert forall|j: int| 0 <= j < r.len() implies !tree_utils::has_block_scalar(
                #[trigger] r[j],
            ) by {
                if j % 2 == 0 {
                    assert(decreases_to!(m => m->Dict_0));
                    assert(decreases_to!(pairs => pairs[j / 2]));
                    assert(decreases_to!(pairs[j / 2] => pairs[j / 2].1));
                    lemma_none_in_pair(l, pairs[j / 2].0, pairs[j / 2].1, n, if j == 0 {
                        lead
                    } else {
                        n
                    });
                }
            }
            lemma_none_in_row(r);
        },
        _ => {},
    }
}

/// Nor does the entry of an item.
proof fn lemma_none_in_item(l: Layout, m: YamlModel, n: int, lead: int)
    ensures
        !tree_utils::has_block_scalar(item_entry(l, m, n, lead)),
    decreases m, 5nat,
{
    let v = shapes::item_elems(l, m, n);
    if layout::is_tall(m) {
        if m is Dict {
            lemma_none_in_block(l, m, n + 2, 0);
        } else {
            lemma_none_in_block(l, m, n + 2, 0);
            lemma_none_in_block(l, m, n + l.step, n + l.step);
        }
    } else {
        lemma_none_in_leaf(m);
    }
    assert(!tree_utils::has_block_scalar(v[0]) && !tree_utils::has_block_scalar(v[1]));
    lemma_none_in_row(item_entry(l, m, n, lead).children());
}

/// Nor does the entry of a pair.
proof fn lemma_none_in_pair(l: Layout, key: Seq<char>, m: YamlModel, n: int, lead: int)
    ensures
        !tree_utils::has_block_scalar(pair_entry(l, (key, m), n, lead)),
    decreases m, 5nat,
{
    let v = shapes::child_elems(l, m, n);
    if layout::is_tall(m) {
        let c = layout::column_below(l, m, n);
        lemma_none_in_block(l, m, c, c);
    } else {
        lemma_none_in_leaf(m);
    }
    lemma_none_in_scalar(builder::string_text(key));
    assert(!tree_utils::has_block_scalar(v[0]) && !tree_utils::has_block_scalar(v[1]));
    lemma_none_in_row(pair_entry(l, (key, m), n, lead).children());
}

// ---- An entry moves ----

/// Whether the marks of an entry are what they are: a dash, or a key and a colon.
pub open spec fn are_marks(marks: Seq<Tree>) -> bool {
    ||| marks == seq![dash()]
    ||| marks.len() == 2 && marks[0].is_node_of(SyntaxKind::SCALAR) && marks[1] == shapes::tok(
        SyntaxKind::COLON,
        seq![':'],
    )
}

/// An entry with its indentation fixed: its whitespace is as wide as its column, and
/// the block in it stands two columns to the right of it.
#[verifier::rlimit(100)]
proof fn lemma_entry_moves(
    whole: Tree,
    path: Seq<usize>,
    kind: SyntaxKind,
    lead: int,
    marks: Seq<Tree>,
    v: Tree,
    x: Tree,
    y: Tree,
    own: bool,
    col: int,
)
    requires
        ({
            let e = entry_of(kind, lead, marks, seq![v, x]);
            let k = e.children().len() - 1;
            &&& lead >= 0
            &&& col >= 0
            &&& lead > 0 ==> own && col > 0
            &&& lead == 0 && own ==> col == 0
            &&& are_marks(marks)
            &&& v == shapes::gap() || v == shapes::feed()
            &&& x is Node
            &&& !tree_utils::has_block_scalar(e)
            &&& !indent::is_block(x) ==> y == x
            &&& indent::is_block(x) ==> y == indent::block_indented(
                whole,
                path.push(k as usize),
                x,
                col + 2,
            )
            &&& indent::is_block(x) && v == shapes::feed() ==> indent::first_entry_indent(x) is Some
            &&& indent::is_block(x) && v == shapes::gap() ==> marks == seq![dash()]
        }),
    ensures
        indent::entry_indented(whole, path, entry_of(kind, lead, marks, seq![v, x]), own, col)
            == entry_of(kind, moved(lead, col), marks, seq![v, y]),
{
    let e = entry_of(kind, lead, marks, seq![v, x]);
    let cs = e.children();
    let margin = shapes::margin_of(lead);
    let a = margin.len() as int;
    let b = a + marks.len();
    let k = b + 1;
    let m = cs.len() as int;
    assert(m == b + 2);
    assert(cs[b] == v && cs[b + 1] == x);
    assert forall|j: int| a <= j < b implies #[trigger] cs[j] == marks[j - a] by {}
    if a > 0 {
        assert(cs[0] == shapes::tok(SyntaxKind::WHITESPACE, text::spaces(lead)));
        assert(cs[0] == indent::blank(lead));
        indenting::lemma_blank_width(lead);
    } else {
        assert(cs[0] == marks[0]);
    }
    assert(indent::begins_blank(cs) == (a > 0));
    assert(shapes::gap() == indent::blank(1)) by {
        assert(text::spaces(1) =~= seq![' ']);
    }
    indenting::lemma_blank_width(1);
    indenting::lemma_blank_width(col);
    lemma_dash_width();
    reveal_with_fuel(indent::wide_gap, 7);
    assert(indent::wide_gap(cs, 0, false) is None);
    assert(indenting::regular_parts(cs)) by {
        reveal_with_fuel(indenting::clear_of, 7);
        assert forall|i: int| 0 <= i < cs.len() && indent::is_block(#[trigger] cs[i]) implies {
            &&& indenting::clear_of(cs, i, indent::blocks())
            &&& i >= 2 && cs[i - 1].is_token_of(SyntaxKind::WHITESPACE) ==> !cs[i - 2].is_token_of(
                SyntaxKind::NEWLINE,
            )
        } by {
            assert(i == k);
        }
    }
    assert(cs.take(m) =~= cs);
    indenting::lemma_parts(whole, path, e, m, own, col);
    assert(indenting::shed_count(e, own, col) == 0);
    assert(!indent::needs_indent(e, own, col));
    let ds = indent::parts_indented(whole, path, e, cs, own, col);
    let goal = entry_of(kind, moved(lead, col), marks, seq![v, y]);
    let gs = goal.children();
    assert(gs.len() == m);
    if indent::is_block(x) {
        assert(indent::child_column(whole, path, e, k, col) == col + 2) by {
            if v == shapes::gap() {
                reveal_with_fuel(indent::inline_offset, 4);
                assert(cs[a] == dash());
                assert(!indent::on_own_line(cs, k));
                let start: int = if indent::begins_blank(cs) {
                    1
                } else {
                    0
                };
                assert(start == a);
                assert(k == a + 2);
                assert(indent::inline_offset(cs, start, a) == 0);
                assert(indent::inline_offset(cs, start, a + 1) == 1);
                assert(indent::inline_offset(cs, start, a + 2) == 2);
            }
        }
    }
    assert forall|j: int| 0 <= j < m implies #[trigger] ds[j] == gs[j] by {
        assert(ds[j] == indenting::part(whole, path, e, j, own, col));
        if j == 0 && a > 0 {
            assert(gs[0] == indent::blank(col));
        } else if j < b {
            assert(cs[j] == marks[j - a]);
            assert(gs[j] == marks[j - a]);
        } else if j == b {
            assert(gs[j] == v);
            assert(indent::gap_change(e, j, own, col) is None);
        } else {
            assert(gs[j] == y);
        }
    }
    assert(ds =~= gs);
    assert(indent::given_indent(e, own, col) + ds =~= ds);
}

/// A dash is one column wide.
proof fn lemma_dash_width()
    ensures
        indent::width(dash()) == 1,
{
    standing::lemma_char('-');
}

// ---- Blocks move ----

/// Whether a block at `n`, whose first entry begins with `lead` spaces, can move to
/// the column `col`.
pub open spec fn can_move(n: int, lead: int, col: int) -> bool {
    &&& n >= 0 && col >= 0
    &&& n > 0 <==> col > 0
    &&& lead == n || lead == 0
}

/// The first entry of a block begins with its whitespace.
proof fn lemma_first_indent(l: Layout, m: YamlModel, n: int)
    requires
        layout::is_tall(m),
        n > 0,
    ensures
        indent::first_entry_indent(shapes::block_tree(l, m, n, n)) is Some,
        indent::is_block(shapes::block_tree(l, m, n, n)),
{
    let t = shapes::block_tree(l, m, n, n);
    let f = indent::block_entries();
    match m {
        YamlModel::List(items) => {
            lemma_items_row(l, items, 0, n, n);
            assert(t.children()[0] == item_entry(l, items[0], n, n));
        },
        YamlModel::Dict(pairs) => {
            lemma_pairs_row(l, pairs, 0, n, n);
            assert(t.children()[0] == pair_entry(l, pairs[0], n, n));
        },
        _ => {},
    }
    assert(f(t.children()[0]));
    assert(node::place_from(t.children(), 0, f) == Some(0int));
    assert(t.children()[0].children()[0] == shapes::margin_of(n)[0]);
}

/// A collection that was laid out, with its indentation fixed, is laid out by two
/// columns at `col`.
proof fn lemma_block_moves(
    whole: Tree,
    path: Seq<usize>,
    l: Layout,
    m: YamlModel,
    n: int,
    lead: int,
    col: int,
)
    requires
        layout::is_sound(l),
        !l.flush,
        !l.inline,
        layout::is_tall(m),
        can_move(n, lead, col),
    ensures
        indent::block_indented(whole, path, shapes::block_tree(l, m, n, lead), col)
            == shapes::block_tree(layout::two(), m, col, moved(lead, col)),
    decreases m, 3nat,
{
    match m {
        YamlModel::List(items) => {
            lemma_list_moves(whole, path, l, items, n, lead, col);
        },
        YamlModel::Dict(pairs) => {
            lemma_dict_moves(whole, path, l, pairs, n, lead, col);
        },
        _ => {},
    }
}

/// The entries of items move.
#[verifier::spinoff_prover]
#[verifier::rlimit(80)]
proof fn lemma_list_moves(
    whole: Tree,
    path: Seq<usize>,
    l: Layout,
    items: Seq<YamlModel>,
    n: int,
    lead: int,
    col: int,
)
    requires
        layout::is_sound(l),
        !l.flush,
        !l.inline,
        items.len() > 0,
        can_move(n, lead, col),
    ensures
        indent::block_indented(
            whole,
            path,
            shapes::block_tree(l, YamlModel::List(items), n, lead),
            col,
        ) == shapes::block_tree(layout::two(), YamlModel::List(items), col, moved(lead, col)),
    decreases items, 1nat,
{
    let cs = shapes::items_trees(l, items, 0, n, lead);
    let gs = shapes::items_trees(layout::two(), items, 0, col, moved(lead, col));
    let k = cs.len() as int;
    assert(cs.take(k) =~= cs);
    indenting::lemma_entries(whole, path, cs, k, col);
    let es = indent::entries_indented(whole, path, cs, cs, col);
    lemma_items_row(l, items, 0, n, lead);
    lemma_items_row(layout::two(), items, 0, col, moved(lead, col));
    assert forall|j: int| 0 <= j < k implies #[trigger] es[j] == gs[j] by {
        if j % 2 == 0 {
            let at = if j == 0 {
                lead
            } else {
                n
            };
            let x = items[j / 2];
            assert(cs[j] == item_entry(l, x, n, at));
            lemma_none_in_item(l, x, n, at);
            if j > 0 {
                assert(cs[j - 1] == shapes::feed());
            }
            lemma_begins(SyntaxKind::BLOCK_SEQUENCE_ENTRY, at, seq![dash()], shapes::item_elems(l, x, n));
            lemma_own(cs, j, at);
            assert(decreases_to!(items => items[j / 2]));
            lemma_item_moves(
                whole,
                path.push(j as usize),
                l,
                x,
                n,
                at,
                indent::own_indent(cs, j),
                col,
            );
            assert(gs[j] == item_entry(layout::two(), x, col, moved(at, col)));
        } else {
            assert(cs[j] == shapes::feed());
            assert(gs[j] == shapes::feed());
        }
    }
    assert(es =~= gs);
}

/// The entries of pairs move.
#[verifier::spinoff_prover]
#[verifier::rlimit(80)]
proof fn lemma_dict_moves(
    whole: Tree,
    path: Seq<usize>,
    l: Layout,
    pairs: Seq<layout::Pair>,
    n: int,
    lead: int,
    col: int,
)
    requires
        layout::is_sound(l),
        !l.flush,
        !l.inline,
        pairs.len() > 0,
        can_move(n, lead, col),
    ensures
        indent::block_indented(
            whole,
            path,
            shapes::block_tree(l, YamlModel::Dict(pairs), n, lead),
            col,
        ) == shapes::block_tree(layout::two(), YamlModel::Dict(pairs), col, moved(lead, col)),
    decreases pairs, 1nat,
{
    let cs = shapes::pairs_trees(l, pairs, 0, n, lead);
    let gs = shapes::pairs_trees(layout::two(), pairs, 0, col, moved(lead, col));
    let k = cs.len() as int;
    assert(cs.take(k) =~= cs);
    indenting::lemma_entries(whole, path, cs, k, col);
    let es = indent::entries_indented(whole, path, cs, cs, col);
    lemma_pairs_row(l, pairs, 0, n, lead);
    lemma_pairs_row(layout::two(), pairs, 0, col, moved(lead, col));
    assert forall|j: int| 0 <= j < k implies #[trigger] es[j] == gs[j] by {
        if j % 2 == 0 {
            let at = if j == 0 {
                lead
            } else {
                n
            };
            let x = pairs[j / 2];
            assert(cs[j] == pair_entry(l, x, n, at));
            lemma_none_in_pair(l, x.0, x.1, n, at);
            if j > 0 {
                assert(cs[j - 1] == shapes::feed());
            }
            lemma_begins(
                SyntaxKind::BLOCK_MAPPING_ENTRY,
                at,
                key_marks(x.0),
                shapes::child_elems(l, x.1, n),
            );
            lemma_own(cs, j, at);
            assert(decreases_to!(pairs => pairs[j / 2]));
            assert(decreases_to!(pairs[j / 2] => pairs[j / 2].1));
            lemma_pair_moves(
                whole,
                path.push(j as usize),
                l,
                x.0,
                x.1,
                n,
                at,
                indent::own_indent(cs, j),
                col,
            );
            assert(gs[j] == pair_entry(layout::two(), x, col, moved(at, col)));
        } else {
            assert(cs[j] == shapes::feed());
            assert(gs[j] == shapes::feed());
        }
    }
    assert(es =~= gs);
}

/// What an entry begins with.
proof fn lemma_begins(kind: SyntaxKind, lead: int, marks: Seq<Tree>, value: Seq<Tree>)
    requires
        are_marks(marks),
    ensures
        entry_of(kind, lead, marks, value).children().len() > 0,
        indent::begins_blank(entry_of(kind, lead, marks, value).children()) == (lead > 0),
{
    let cs = entry_of(kind, lead, marks, value).children();
    if lead > 0 {
        assert(cs[0] == shapes::margin_of(lead)[0]);
    } else {
        assert(cs[0] == marks[0]);
    }
}

/// Whether the entry at `j` moves by itself.
proof fn lemma_own(cs: Seq<Tree>, j: int, lead: int)
    requires
        0 <= j < cs.len(),
        !tree_utils::has_block_scalar(cs[j]),
        cs[j].children().len() > 0,
        j > 0 ==> cs[j - 1] == shapes::feed(),
        indent::begins_blank(cs[j].children()) == (lead > 0),
    ensures
        indent::own_indent(cs, j) == (lead > 0 || j > 0),
{
}

/// The entry of an item moves.
proof fn lemma_item_moves(
    whole: Tree,
    path: Seq<usize>,
    l: Layout,
    m: YamlModel,
    n: int,
    lead: int,
    own: bool,
    col: int,
)
    requires
        layout::is_sound(l),
        !l.flush,
        !l.inline,
        can_move(n, lead, col),
        lead > 0 ==> own,
        lead == 0 && own ==> col == 0,
    ensures
        indent::entry_indented(whole, path, item_entry(l, m, n, lead), own, col) == item_entry(
            layout::two(),
            m,
            col,
            moved(lead, col),
        ),
    decreases m, 5nat,
{
    let two = layout::two();
    let v = shapes::item_elems(l, m, n);
    let w = shapes::item_elems(two, m, col);
    let marks = seq![dash()];
    let kind = SyntaxKind::BLOCK_SEQUENCE_ENTRY;
    let k = item_entry(l, m, n, lead).children().len() - 1;
    lemma_none_in_item(l, m, n, lead);
    assert(v =~= seq![v[0], v[1]]);
    assert(w =~= seq![w[0], w[1]]);
    assert(v[0] == w[0]);
    if layout::is_tall(m) {
        if m is Dict {
            lemma_block_moves(whole, path.push(k as usize), l, m, n + 2, 0, col + 2);
        } else {
            lemma_first_indent(l, m, n + l.step);
            lemma_block_moves(
                whole,
                path.push(k as usize),
                l,
                m,
                n + l.step,
                n + l.step,
                col + 2,
            );
        }
    } else {
        lemma_leaf_no_block(m);
    }
    lemma_entry_moves(whole, path, kind, lead, marks, v[0], v[1], w[1], own, col);
}

/// The entry of a pair moves.
proof fn lemma_pair_moves(
    whole: Tree,
    path: Seq<usize>,
    l: Layout,
    key: Seq<char>,
    m: YamlModel,
    n: int,
    lead: int,
    own: bool,
    col: int,
)
    requires
        layout::is_sound(l),
        !l.flush,
        !l.inline,
        can_move(n, lead, col),
        lead > 0 ==> own,
        lead == 0 && own ==> col == 0,
    ensures
        indent::entry_indented(whole, path, pair_entry(l, (key, m), n, lead), own, col)
            == pair_entry(layout::two(), (key, m), col, moved(lead, col)),
    decreases m, 5nat,
{
    let two = layout::two();
    let v = shapes::child_elems(l, m, n);
    let w = shapes::child_elems(two, m, col);
    let marks = key_marks(key);
    let kind = SyntaxKind::BLOCK_MAPPING_ENTRY;
    let k = pair_entry(l, (key, m), n, lead).children().len() - 1;
    lemma_none_in_pair(l, key, m, n, lead);
    assert(v =~= seq![v[0], v[1]]);
    assert(w =~= seq![w[0], w[1]]);
    assert(v[0] == w[0]);
    assert(marks.len() == 2);
    assert(marks[0] == leaves::scalar_tree(builder::string_text(key)));
    if layout::is_tall(m) {
        lemma_first_indent(l, m, n + l.step);
        lemma_block_moves(whole, path.push(k as usize), l, m, n + l.step, n + l.step, col + 2);
    } else {
        lemma_leaf_no_block(m);
    }
    lemma_entry_moves(whole, path, kind, lead, marks, v[0], v[1], w[1], own, col);
}

/// A value on one line is no block.
proof fn lemma_leaf_no_block(m: YamlModel)
    ensures
        shapes::leaf_tree(m) is Node,
        !indent::is_block(shapes::leaf_tree(m)),
{
}

// ---- The law ----

/// Fixing the indentation of a text whose collections are indented by any number of
/// columns gives the tree of the same value's text with collections indented by two;
/// so it keeps the value, and what it gives is parsed without an error.
pub proof fn lemma_reindenting_lays_out(l: Layout, m: YamlModel)
    requires
        layout::is_sound(l),
        !l.flush,
        !l.inline,
        surviving::is_tame(m),
        layout::reach(l, builder::depth(m)) <= usize::MAX,
        2 * builder::depth(m) <= usize::MAX,
    ensures
        ({
            let before = grammar::stream(encode_utf8(layout::body(l, m, 0) + seq!['\n'])).elems[0];
            let after = grammar::stream(encode_utf8(builder::yaml_text(m)));
            &&& after.fault is None
            &&& indent::reindented(before) == after.elems[0]
            &&& read::single_model(indent::reindented(before)) == read::single_model(before)
            &&& read::single_model(before) == Ok::<YamlModel, Seq<char>>(m)
        }),
{
    let two = layout::two();
    surviving::lemma_layout_survives(l, m);
    surviving::lemma_layout_survives(two, m);
    surviving::lemma_body_end(two, m, 0);
    layout::lemma_yaml_text(m);
    let t = shapes::stream_tree(l, m);
    let u = shapes::stream_tree(two, m);
    let doc = t.children()[0];
    let root = shapes::root_tree(l, m);
    assert(doc.children() =~= seq![root]);
    indenting::lemma_documents(t, t.children());
    let f = indent::blocks();
    assert(node::place_from(doc.children(), 1, f) is None);
    if layout::is_tall(m) {
        lemma_block_moves(t, seq![0usize, 0usize], l, m, 0, 0, 0);
        assert(f(root));
        assert(indent::root_block(doc) == Some(0int));
        assert(doc.children().update(0, shapes::root_tree(two, m)) =~= seq![
            shapes::root_tree(two, m),
        ]);
    } else {
        lemma_leaf_no_block(m);
        assert(!f(root));
        assert(indent::root_block(doc) is None);
    }
    assert(indent::reindented(t).children() =~= u.children());
}

} // verus!

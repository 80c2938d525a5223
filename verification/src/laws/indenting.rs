//! Fixing indentation settles.

use vstd::prelude::*;
use vstd::utf8::*;

use crate::fixers::indent;
use crate::syntax::green;
use crate::syntax::green::Tree;
use crate::syntax::kind::SyntaxKind;
use crate::syntax::node;
use crate::syntax::path;
use crate::syntax::tree_utils;
use crate::text;

verus! {

// ---- Regular blocks ----

/// Whether nothing that `f` tells stands on the line before `k`.
pub open spec fn clear_of(cs: Seq<Tree>, k: int, f: spec_fn(Tree) -> bool) -> bool
    decreases k,
{
    k <= 0 || cs[k - 1].is_token_of(SyntaxKind::NEWLINE) || (!f(cs[k - 1]) && clear_of(cs, k - 1, f))
}

/// Whether nothing that `f` tells stands before `k` behind the last place at which a
/// line ends.
pub open spec fn clear_line(cs: Seq<Tree>, k: int, f: spec_fn(Tree) -> bool) -> bool
    decreases k,
{
    k <= 0 || tree_utils::breaks_line(cs[k - 1]) || (!f(cs[k - 1]) && clear_line(cs, k - 1, f))
}

/// Where nothing stands on the line, nothing stands behind its last end.
proof fn lemma_clear_line(cs: Seq<Tree>, k: int, f: spec_fn(Tree) -> bool)
    requires
        clear_of(cs, k, f),
    ensures
        clear_line(cs, k, f),
    decreases k,
{
    if k > 0 && !tree_utils::breaks_line(cs[k - 1]) {
        lemma_clear_line(cs, k - 1, f);
    }
}

/// A document ends its line.
proof fn lemma_clear_of_documents(cs: Seq<Tree>, k: int)
    ensures
        clear_line(cs, k, indent::with_block()),
    decreases k,
{
    if k > 0 {
        lemma_clear_of_documents(cs, k - 1);
    }
}

/// Whether the children of an entry stand in good order: whitespace at its
/// beginning is one token; a block on a line of its own has its indentation in
/// its entries; no two blocks share a line. (There are no more children than can be
/// counted.)
pub open spec fn regular_parts(cs: Seq<Tree>) -> bool {
    &&& cs.len() <= usize::MAX
    &&& cs.len() > 1 && cs[0].is_token_of(SyntaxKind::WHITESPACE) ==> !cs[1].is_token_of(
        SyntaxKind::WHITESPACE,
    )
    &&& forall|k: int|
        0 <= k < cs.len() && indent::is_block(#[trigger] cs[k]) ==> {
            &&& clear_of(cs, k, indent::blocks())
            &&& k >= 2 && cs[k - 1].is_token_of(SyntaxKind::WHITESPACE)
                ==> !cs[k - 2].is_token_of(SyntaxKind::NEWLINE)
        }
}

/// Whether the entry at `i` of a block stands in good order: no other is on its
/// line, if it holds a literal or folded scalar, and it has its indentation, if the
/// block is indented.
pub open spec fn regular_place(cs: Seq<Tree>, i: int, indented: bool) -> bool {
    &&& tree_utils::has_block_scalar(cs[i]) ==> clear_of(cs, i, indent::block_entries())
    &&& indented && i > 0 && cs[i - 1].is_token_of(SyntaxKind::NEWLINE) ==> indent::begins_blank(
        cs[i].children(),
    )
}

/// Whether a block is indented: it begins behind something on its line, or its
/// first entry begins with whitespace.
pub open spec fn is_indented(t: Tree, inline: bool) -> bool {
    inline || indent::first_entry_indent(t) is Some
}

/// Whether the entries of a block, at all depths, stand in good order.
/// `inline` says whether the block begins behind something on its line.
pub open spec fn regular_block(t: Tree, inline: bool) -> bool
    decreases t,
{
    match t {
        Tree::Token { .. } => true,
        Tree::Node { children, .. } => children.len() <= usize::MAX && regular_entries(
            children,
            children,
            is_indented(t, inline),
        ),
    }
}

/// Whether the entries among the first children, `ts`, of a block stand as they do
/// in good order.
pub open spec fn regular_entries(cs: Seq<Tree>, ts: Seq<Tree>, indented: bool) -> bool
    decreases ts,
{
    ts.len() > 0 ==> {
        &&& regular_entries(cs, ts.drop_last(), indented)
        &&& tree_utils::block_entry(ts.last()) ==> regular_place(cs, ts.len() - 1, indented)
            && regular_entry(ts.last())
    }
}

/// Whether an entry stands in good order.
pub open spec fn regular_entry(e: Tree) -> bool
    decreases e,
{
    match e {
        Tree::Token { .. } => true,
        Tree::Node { children, .. } => regular_parts(children) && regular_blocks(
            children,
            children,
        ),
    }
}

/// Whether the blocks among the first children, `ts`, of an entry are regular.
pub open spec fn regular_blocks(cs: Seq<Tree>, ts: Seq<Tree>) -> bool
    decreases ts,
{
    ts.len() > 0 ==> {
        &&& regular_blocks(cs, ts.drop_last())
        &&& indent::is_block(ts.last()) ==> regular_block(
            ts.last(),
            !indent::on_own_line(cs, ts.len() - 1),
        )
    }
}

/// Each entry is regular.
pub(crate) proof fn lemma_regular_entry(cs: Seq<Tree>, ts: Seq<Tree>, indented: bool, i: int)
    requires
        regular_entries(cs, ts, indented),
        0 <= i < ts.len(),
        tree_utils::block_entry(ts[i]),
    ensures
        regular_place(cs, i, indented),
        regular_entry(ts[i]),
    decreases ts.len(),
{
    if i < ts.len() - 1 {
        lemma_regular_entry(cs, ts.drop_last(), indented, i);
    }
}

/// Each block is regular.
pub(crate) proof fn lemma_regular_block(cs: Seq<Tree>, ts: Seq<Tree>, k: int)
    requires
        regular_blocks(cs, ts),
        0 <= k < ts.len(),
        indent::is_block(ts[k]),
    ensures
        regular_block(ts[k], !indent::on_own_line(cs, k)),
    decreases ts.len(),
{
    if k < ts.len() - 1 {
        lemma_regular_block(cs, ts.drop_last(), k);
    }
}

// ---- Widths ----

/// Spaces are as wide as they are many.
pub(crate) proof fn lemma_blank_width(n: int)
    requires
        n >= 0,
    ensures
        indent::width(indent::blank(n)) == n,
    decreases n,
{
    let s = text::spaces(n);
    if n == 0 {
        assert(s =~= seq![]);
    } else {
        let a = text::spaces(n - 1);
        lemma_blank_width(n - 1);
        assert(s =~= a + seq![' ']);
        text::lemma_encode_add(a, seq![' ']);
        reveal_with_fuel(encode_utf8, 2);
        assert(seq![' '].drop_first() =~= seq![]);
        assert(encode_utf8(seq![' ']).len() == 1);
    }
}

// ---- Block scalars ----

/// A row holds a literal or folded scalar where one of its trees does.
proof fn lemma_any_scalar(ts: Seq<Tree>)
    ensures
        tree_utils::any_block_scalar(ts) == exists|i: int|
            0 <= i < ts.len() && tree_utils::has_block_scalar(#[trigger] ts[i]),
    decreases ts.len(),
{
    if ts.len() > 0 {
        let head = ts.drop_last();
        lemma_any_scalar(head);
        if tree_utils::any_block_scalar(head) {
            let i = choose|i: int|
                0 <= i < head.len() && tree_utils::has_block_scalar(#[trigger] head[i]);
            assert(tree_utils::has_block_scalar(ts[i]));
        }
        if exists|i: int| 0 <= i < ts.len() && tree_utils::has_block_scalar(#[trigger] ts[i]) {
            let i = choose|i: int|
                0 <= i < ts.len() && tree_utils::has_block_scalar(#[trigger] ts[i]);
            if i < ts.len() - 1 {
                assert(tree_utils::has_block_scalar(head[i]));
            }
        }
    }
}

// ---- What is made of an entry ----

/// Whether the whitespace that an entry begins with goes away.
pub open spec fn sheds(e: Tree, own: bool, col: int) -> bool {
    own && indent::begins_blank(e.children()) && col == 0 && indent::width(e.children()[0]) != 0
}

/// How many children fewer an entry has then.
pub open spec fn shed_count(e: Tree, own: bool, col: int) -> int {
    if sheds(e, own, col) {
        1
    } else {
        0
    }
}

/// What the child at `k` becomes.
pub open spec fn part(
    whole: Tree,
    path: Seq<usize>,
    e: Tree,
    k: int,
    own: bool,
    col: int,
) -> Tree {
    let cs = e.children();
    match indent::gap_change(e, k, own, col) {
        Some(x) => x[0],
        None => if indent::is_block(cs[k]) {
            indent::block_indented(
                whole,
                path.push(k as usize),
                cs[k],
                indent::child_column(whole, path, e, k, col),
            )
        } else {
            cs[k]
        },
    }
}

/// The whitespace behind the mark is not the first child.
pub(crate) proof fn lemma_wide_gap(cs: Seq<Tree>, j: int, seen: bool)
    requires
        0 <= j,
    ensures
        match indent::wide_gap(cs, j, seen) {
            Some(k) => j <= k < cs.len() && (!seen ==> j < k) && cs[k].is_token_of(
                SyntaxKind::WHITESPACE,
            ),
            None => true,
        },
    decreases cs.len() - j,
{
    if j < cs.len() {
        if cs[j].is_token_of(SyntaxKind::DASH) || cs[j].is_token_of(SyntaxKind::COLON) {
            lemma_wide_gap(cs, j + 1, true);
        } else if !seen {
            lemma_wide_gap(cs, j + 1, false);
        }
    }
}

/// What is made of the first children, one by one.
pub(crate) proof fn lemma_parts(
    whole: Tree,
    path: Seq<usize>,
    e: Tree,
    n: int,
    own: bool,
    col: int,
)
    requires
        e is Node,
        0 <= n <= e.children().len(),
        col >= 0,
        regular_parts(e.children()),
        indent::begins_blank(e.children()) && !tree_utils::has_block_scalar(e) ==> own,
        own ==> !tree_utils::has_block_scalar(e),
    ensures
        ({
            let d = shed_count(e, own, col);
            let ds = indent::parts_indented(whole, path, e, e.children().take(n), own, col);
            &&& ds.len() == (if n < d {
                0
            } else {
                n - d
            })
            &&& forall|j: int|
                0 <= j < ds.len() ==> #[trigger] ds[j] == part(whole, path, e, j + d, own, col)
        }),
    decreases n,
{
    let cs = e.children();
    let d = shed_count(e, own, col);
    if n > 0 {
        lemma_parts(whole, path, e, n - 1, own, col);
        lemma_wide_gap(cs, 0, false);
        assert(cs.take(n).drop_last() =~= cs.take(n - 1));
        assert(cs.take(n).last() == cs[n - 1]);
        let k = n - 1;
        if k >= 1 && k + 1 < cs.len() && indent::is_block(cs[k + 1]) {
            assert(cs[k + 1 - 1] == cs[k]);
        }
    } else {
        assert(cs.take(0) =~= seq![]);
    }
}

/// A child keeps its kind, and a token that is no whitespace stays.
pub(crate) proof fn lemma_part_kind(
    whole: Tree,
    path: Seq<usize>,
    e: Tree,
    k: int,
    own: bool,
    col: int,
)
    requires
        e is Node,
        col >= 0,
        shed_count(e, own, col) <= k < e.children().len(),
        regular_parts(e.children()),
    ensures
        ({
            let t = e.children()[k];
            let u = part(whole, path, e, k, own, col);
            &&& u.kind() == t.kind()
            &&& (u is Node) == (t is Node)
            &&& !indent::is_block(t) && !t.is_token_of(SyntaxKind::WHITESPACE) ==> u == t
            &&& t.is_token_of(SyntaxKind::WHITESPACE) ==> u == t || u == indent::blank(col) || u
                == indent::blank(1)
        }),
{
    let cs = e.children();
    lemma_wide_gap(cs, 0, false);
    if k >= 1 && k + 1 < cs.len() && indent::is_block(cs[k + 1]) {
        assert(cs[k + 1 - 1] == cs[k]);
    }
}

/// Fixing the indentation of a block neither adds nor takes a literal or folded
/// scalar.
proof fn lemma_scalars_in_block(whole: Tree, path: Seq<usize>, t: Tree, col: int)
    ensures
        tree_utils::has_block_scalar(indent::block_indented(whole, path, t, col))
            == tree_utils::has_block_scalar(t),
    decreases t, 2int, 0nat,
{
    match t {
        Tree::Token { .. } => {},
        Tree::Node { children, .. } => {
            lemma_scalars_in_entries(whole, path, t, children.len() as int, col);
            assert(children.take(children.len() as int) =~= children);
        },
    }
}

/// The same of the first entries of a block.
proof fn lemma_scalars_in_entries(whole: Tree, path: Seq<usize>, t: Tree, n: int, col: int)
    requires
        t is Node,
        0 <= n <= t.children().len(),
    ensures
        tree_utils::any_block_scalar(
            indent::entries_indented(whole, path, t.children(), t.children().take(n), col),
        ) == tree_utils::any_block_scalar(t.children().take(n)),
    decreases t, 1int, n,
{
    let cs = t.children();
    if n > 0 {
        lemma_scalars_in_entries(whole, path, t, n - 1, col);
        let ts = cs.take(n);
        assert(ts.drop_last() =~= cs.take(n - 1));
        assert(ts.last() == cs[n - 1]);
        let all = indent::entries_indented(whole, path, cs, ts, col);
        let head = indent::entries_indented(whole, path, cs, ts.drop_last(), col);
        assert(all.drop_last() =~= head);
        if tree_utils::block_entry(cs[n - 1]) {
            assert(decreases_to!(t => t->children[n - 1]));
            lemma_scalars_in_entry(
                whole,
                path.push((n - 1) as usize),
                cs[n - 1],
                indent::own_indent(cs, n - 1),
                col,
            );
        }
    } else {
        assert(cs.take(0) =~= seq![]);
    }
}

/// The same of an entry.
pub(crate) proof fn lemma_scalars_in_entry(whole: Tree, path: Seq<usize>, e: Tree, own: bool, col: int)
    ensures
        tree_utils::has_block_scalar(indent::entry_indented(whole, path, e, own, col))
            == tree_utils::has_block_scalar(e),
    decreases e, 2int, 0nat,
{
    match e {
        Tree::Token { .. } => {},
        Tree::Node { children, .. } => {
            lemma_scalars_in_parts(whole, path, e, children.len() as int, own, col);
            assert(children.take(children.len() as int) =~= children);
            let ps = indent::parts_indented(whole, path, e, children, own, col);
            let ds = indent::given_indent(e, own, col) + ps;
            if indent::needs_indent(e, own, col) {
                lemma_any_scalar(ds);
                lemma_any_scalar(ps);
                assert forall|i: int|
                    0 <= i < ps.len() && tree_utils::has_block_scalar(
                        #[trigger] ps[i],
                    ) implies tree_utils::has_block_scalar(ds[i + 1]) by {
                    assert(ds[i + 1] == ps[i]);
                }
                assert forall|i: int|
                    0 <= i < ds.len() && tree_utils::has_block_scalar(
                        #[trigger] ds[i],
                    ) implies i > 0 && tree_utils::has_block_scalar(ps[i - 1]) by {}
            } else {
                assert(ds =~= ps);
            }
        },
    }
}

/// The same of the first children of an entry.
proof fn lemma_scalars_in_parts(
    whole: Tree,
    path: Seq<usize>,
    e: Tree,
    n: int,
    own: bool,
    col: int,
)
    requires
        e is Node,
        0 <= n <= e.children().len(),
    ensures
        tree_utils::any_block_scalar(
            indent::parts_indented(whole, path, e, e.children().take(n), own, col),
        ) == tree_utils::any_block_scalar(e.children().take(n)),
    decreases e, 1int, n,
{
    let cs = e.children();
    if n > 0 {
        let k = n - 1;
        lemma_scalars_in_parts(whole, path, e, k, own, col);
        let ts = cs.take(n);
        assert(ts.drop_last() =~= cs.take(k));
        assert(ts.last() == cs[k]);
        let all = indent::parts_indented(whole, path, e, ts, own, col);
        let head = indent::parts_indented(whole, path, e, cs.take(k), own, col);
        match indent::gap_change(e, k, own, col) {
            Some(x) => {
                assert(cs[k].is_token_of(SyntaxKind::WHITESPACE));
                assert(!tree_utils::has_block_scalar(cs[k]));
                if x.len() == 0 {
                    assert(all =~= head);
                } else {
                    assert(all =~= head.push(x[0]));
                    assert(all.drop_last() =~= head);
                    assert(all.last() == x[0]);
                    assert(x[0].is_token_of(SyntaxKind::WHITESPACE));
                    assert(!tree_utils::has_block_scalar(x[0]));
                }
            },
            None => {
                if indent::is_block(cs[k]) {
                    assert(decreases_to!(e => e->children[k]));
                    lemma_scalars_in_block(
                        whole,
                        path.push(k as usize),
                        cs[k],
                        indent::child_column(whole, path, e, k, col),
                    );
                }
                assert(all.drop_last() =~= head);
                assert(tree_utils::has_block_scalar(all.last()) == tree_utils::has_block_scalar(
                    cs[k],
                ));
            },
        }
    } else {
        assert(cs.take(0) =~= seq![]);
    }
}

// ---- What stays ----

/// A block whose entries stay stays.
proof fn lemma_entries_stay(whole: Tree, path: Seq<usize>, cs: Seq<Tree>, n: int, col: int)
    requires
        0 <= n <= cs.len(),
        forall|i: int|
            0 <= i < n && tree_utils::block_entry(#[trigger] cs[i]) ==> indent::entry_indented(
                whole,
                path.push(i as usize),
                cs[i],
                indent::own_indent(cs, i),
                col,
            ) == cs[i],
    ensures
        indent::entries_indented(whole, path, cs, cs.take(n), col) == cs.take(n),
    decreases n,
{
    if n > 0 {
        lemma_entries_stay(whole, path, cs, n - 1, col);
        assert(cs.take(n).drop_last() =~= cs.take(n - 1));
        assert(cs.take(n).last() == cs[n - 1]);
        assert(cs.take(n - 1).push(cs[n - 1]) =~= cs.take(n));
    } else {
        assert(cs.take(0) =~= seq![]);
    }
}

/// An entry whose children stay stays.
proof fn lemma_parts_stay(
    whole: Tree,
    path: Seq<usize>,
    e: Tree,
    n: int,
    own: bool,
    col: int,
)
    requires
        0 <= n <= e.children().len(),
        forall|k: int|
            0 <= k < n ==> {
                &&& indent::gap_change(e, k, own, col) is None
                &&& indent::is_block(#[trigger] e.children()[k]) ==> indent::block_indented(
                    whole,
                    path.push(k as usize),
                    e.children()[k],
                    indent::child_column(whole, path, e, k, col),
                ) == e.children()[k]
            },
    ensures
        indent::parts_indented(whole, path, e, e.children().take(n), own, col)
            == e.children().take(n),
    decreases n,
{
    let cs = e.children();
    if n > 0 {
        lemma_parts_stay(whole, path, e, n - 1, own, col);
        assert(cs.take(n).drop_last() =~= cs.take(n - 1));
        assert(cs.take(n).last() == cs[n - 1]);
        assert(cs.take(n - 1) + seq![cs[n - 1]] =~= cs.take(n));
    } else {
        assert(cs.take(0) =~= seq![]);
    }
}

// ---- A second look at an entry ----

/// Whether `ds` is made of the children of the entry `e`.
pub open spec fn made_of(
    ds: Seq<Tree>,
    whole: Tree,
    path: Seq<usize>,
    e: Tree,
    own: bool,
    col: int,
) -> bool {
    let d = shed_count(e, own, col);
    &&& e is Node
    &&& col >= 0
    &&& regular_parts(e.children())
    &&& indent::begins_blank(e.children()) && !tree_utils::has_block_scalar(e) ==> own
    &&& own ==> !tree_utils::has_block_scalar(e)
    &&& ds.len() == e.children().len() - d
    &&& forall|j: int|
        0 <= j < ds.len() ==> #[trigger] ds[j] == part(whole, path, e, j + d, own, col)
}

/// The whitespace behind the mark of an entry is no longer than one space then.
pub(crate) proof fn lemma_gap_closed(
    ds: Seq<Tree>,
    whole: Tree,
    path: Seq<usize>,
    e: Tree,
    own: bool,
    col: int,
    j: int,
    seen: bool,
)
    requires
        made_of(ds, whole, path, e, own, col),
        !tree_utils::has_block_scalar(e),
        0 <= j <= ds.len(),
        j == 0 ==> !seen,
        indent::wide_gap(e.children(), j + shed_count(e, own, col), seen) == indent::wide_gap(
            e.children(),
            0,
            false,
        ),
    ensures
        indent::wide_gap(ds, j, seen) is None,
    decreases ds.len() - j,
{
    let cs = e.children();
    let d = shed_count(e, own, col);
    if j < ds.len() {
        let k = j + d;
        assert(ds[j] == part(whole, path, e, k, own, col));
        lemma_part_kind(whole, path, e, k, own, col);
        if cs[k].is_token_of(SyntaxKind::DASH) || cs[k].is_token_of(SyntaxKind::COLON) {
            lemma_gap_closed(ds, whole, path, e, own, col, j + 1, true);
        } else if !seen {
            lemma_gap_closed(ds, whole, path, e, own, col, j + 1, false);
        } else if cs[k].is_token_of(SyntaxKind::WHITESPACE) {
            if indent::width(cs[k]) > 1 {
                assert(indent::gap_change(e, k, own, col) == Some(seq![indent::blank(1)]));
                lemma_blank_width(1);
            } else {
                lemma_calm_gap(e, k, own, col);
            }
        }
    }
}

/// Whitespace inside an entry, but the wide one behind its mark, is as it should
/// be.
proof fn lemma_calm_gap(e: Tree, k: int, own: bool, col: int)
    requires
        0 < k < e.children().len(),
        regular_parts(e.children()),
        indent::wide_gap(e.children(), 0, false) != Some(k),
    ensures
        indent::gap_change(e, k, own, col) is None,
{
    let cs = e.children();
    if k + 1 < cs.len() && indent::is_block(cs[k + 1]) {
        assert(cs[k + 1 - 1] == cs[k]);
    }
}

/// A block on the line of its entry stands as far from where the entry begins.
pub(crate) proof fn lemma_same_offset(
    ds: Seq<Tree>,
    whole: Tree,
    path: Seq<usize>,
    e: Tree,
    own: bool,
    col: int,
    m: int,
)
    requires
        made_of(ds, whole, path, e, own, col),
        !tree_utils::has_block_scalar(e),
        0 <= m <= ds.len(),
        clear_of(e.children(), m + shed_count(e, own, col), indent::blocks()),
    ensures
        ({
            let cs = e.children();
            let d = shed_count(e, own, col);
            let start: int = if indent::begins_blank(cs) {
                1
            } else {
                0
            };
            let start2: int = if indent::begins_blank(ds) {
                1
            } else {
                0
            };
            &&& start == start2 + d
            &&& indent::inline_offset(ds, start2, m) == indent::inline_offset(cs, start, m + d)
        }),
    decreases m,
{
    let cs = e.children();
    let d = shed_count(e, own, col);
    let start: int = if indent::begins_blank(cs) {
        1
    } else {
        0
    };
    if ds.len() > 0 {
        assert(ds[0] == part(whole, path, e, d, own, col));
        lemma_part_kind(whole, path, e, d, own, col);
    }
    let start2: int = if indent::begins_blank(ds) {
        1
    } else {
        0
    };
    assert(start == start2 + d);
    if m > start2 {
        let k = m - 1 + d;
        let t = cs[k];
        let u = ds[m - 1];
        assert(u == part(whole, path, e, k, own, col));
        lemma_part_kind(whole, path, e, k, own, col);
        if !t.is_token_of(SyntaxKind::NEWLINE) {
            lemma_same_offset(ds, whole, path, e, own, col, m - 1);
            if t.is_token_of(SyntaxKind::WHITESPACE) {
                assert(k > 0);
                if indent::wide_gap(cs, 0, false) == Some(k) {
                    lemma_wide_is_wide(cs, 0, false);
                    assert(u == indent::blank(1));
                    lemma_blank_width(1);
                } else {
                    lemma_calm_gap(e, k, own, col);
                }
            }
        }
    }
}

/// The wide whitespace behind a mark is wide.
proof fn lemma_wide_is_wide(cs: Seq<Tree>, j: int, seen: bool)
    requires
        0 <= j,
        indent::wide_gap(cs, j, seen) is Some,
    ensures
        indent::width(cs[indent::wide_gap(cs, j, seen)->0]) > 1,
    decreases cs.len() - j,
{
    if cs[j].is_token_of(SyntaxKind::DASH) || cs[j].is_token_of(SyntaxKind::COLON) {
        lemma_wide_is_wide(cs, j + 1, true);
    } else if !seen {
        lemma_wide_is_wide(cs, j + 1, false);
    }
}

/// A block begins a line then where it did.
pub(crate) proof fn lemma_same_line(
    ds: Seq<Tree>,
    whole: Tree,
    path: Seq<usize>,
    e: Tree,
    own: bool,
    col: int,
    j: int,
)
    requires
        made_of(ds, whole, path, e, own, col),
        0 <= j < ds.len(),
        indent::is_block(e.children()[j + shed_count(e, own, col)]),
    ensures
        indent::on_own_line(ds, j) == indent::on_own_line(
            e.children(),
            j + shed_count(e, own, col),
        ),
{
    let cs = e.children();
    let d = shed_count(e, own, col);
    let k = j + d;
    assert(indent::is_block(cs[k]));
    if j >= 1 {
        assert(ds[j - 1] == part(whole, path, e, k - 1, own, col));
        lemma_part_kind(whole, path, e, k - 1, own, col);
        if j >= 2 {
            assert(ds[j - 2] == part(whole, path, e, k - 2, own, col));
            lemma_part_kind(whole, path, e, k - 2, own, col);
        }
    }
}

/// No whitespace in the entry is to be changed then.
proof fn lemma_gaps_closed(
    ds: Seq<Tree>,
    whole: Tree,
    path: Seq<usize>,
    e: Tree,
    own: bool,
    col: int,
    e2: Tree,
    own2: bool,
    j: int,
)
    requires
        made_of(ds, whole, path, e, own, col),
        e2 is Node,
        e2.children() == ds,
        tree_utils::has_block_scalar(e2) == tree_utils::has_block_scalar(e),
        own2 ==> !tree_utils::has_block_scalar(e2),
        0 <= j < ds.len(),
    ensures
        indent::gap_change(e2, j, own2, col) is None,
{
    let cs = e.children();
    let d = shed_count(e, own, col);
    let k = j + d;
    assert(ds[j] == part(whole, path, e, k, own, col));
    lemma_part_kind(whole, path, e, k, own, col);
    if ds[j].is_token_of(SyntaxKind::WHITESPACE) && !tree_utils::has_block_scalar(e) {
        lemma_gap_closed(ds, whole, path, e, own, col, 0, false);
        if j == 0 && own2 {
            assert(d == 0);
            assert(own);
            lemma_blank_width(col);
        }
        if j >= 1 && j + 1 < ds.len() {
            assert(ds[j + 1] == part(whole, path, e, k + 1, own, col));
            lemma_part_kind(whole, path, e, k + 1, own, col);
            assert(ds[j - 1] == part(whole, path, e, k - 1, own, col));
            lemma_part_kind(whole, path, e, k - 1, own, col);
            if indent::is_block(cs[k + 1]) {
                assert(cs[k + 1 - 1] == cs[k]);
            }
        }
    }
}

// ---- The first entry of a block ----

/// What is made of the first children of a block, one by one.
pub(crate) proof fn lemma_entries(whole: Tree, path: Seq<usize>, cs: Seq<Tree>, n: int, col: int)
    requires
        0 <= n <= cs.len(),
    ensures
        ({
            let es = indent::entries_indented(whole, path, cs, cs.take(n), col);
            &&& es.len() == n
            &&& forall|i: int|
                0 <= i < n ==> #[trigger] es[i] == (if tree_utils::block_entry(cs[i]) {
                    indent::entry_indented(
                        whole,
                        path.push(i as usize),
                        cs[i],
                        indent::own_indent(cs, i),
                        col,
                    )
                } else {
                    cs[i]
                })
        }),
    decreases n,
{
    if n > 0 {
        lemma_entries(whole, path, cs, n - 1, col);
        assert(cs.take(n).drop_last() =~= cs.take(n - 1));
        assert(cs.take(n).last() == cs[n - 1]);
    } else {
        assert(cs.take(0) =~= seq![]);
    }
}

/// The first place is one of the places.
pub(crate) proof fn lemma_place_bounds(cs: Seq<Tree>, i: int, f: spec_fn(Tree) -> bool)
    requires
        0 <= i,
    ensures
        match node::place_from(cs, i, f) {
            Some(k) => i <= k < cs.len() && f(cs[k]),
            None => true,
        },
    decreases cs.len() - i,
{
    if i < cs.len() {
        lemma_place_bounds(cs, i + 1, f);
    }
}

/// Whether the column of a block is one that it can be given: not 0 where the
/// first entry begins with whitespace that would go, and 0 where it begins with
/// none.
pub open spec fn column_fits(t: Tree, col: int) -> bool {
    match indent::first_entry_indent(t) {
        Some(n) => col > 0 || n == 0,
        None => col == 0,
    }
}

/// The first entry begins with whitespace then where it did.
pub(crate) proof fn lemma_first_entry(whole: Tree, path: Seq<usize>, t: Tree, col: int, inline: bool)
    requires
        t is Node,
        col >= 0,
        regular_block(t, inline),
        column_fits(t, col),
    ensures
        ({
            let u = indent::block_indented(whole, path, t, col);
            &&& indent::first_entry_indent(u) is Some == indent::first_entry_indent(t) is Some
            &&& indent::first_entry_indent(t) == Some(col as nat)
                ==> indent::first_entry_indent(u) == Some(col as nat)
        }),
{
    let cs = t.children();
    let n = cs.len() as int;
    let u = indent::block_indented(whole, path, t, col);
    let es = u.children();
    let f = indent::block_entries();
    assert(cs.take(n) =~= cs);
    lemma_entries(whole, path, cs, n, col);
    assert(es == indent::entries_indented(whole, path, cs, cs, col));
    assert forall|i: int| 0 <= i < es.len() implies f(#[trigger] es[i]) == f(cs[i]) by {}
    crate::fixers::scalars::lemma_same_place(es, cs, 0, f);
    lemma_place_bounds(cs, 0, f);
    match node::place_from(cs, 0, f) {
        None => {},
        Some(i) => {
            lemma_regular_entry(cs, cs, is_indented(t, inline), i);
            let e = cs[i];
            let own = indent::own_indent(cs, i);
            let p = path.push(i as usize);
            let m = e.children().len() as int;
            assert(e.children().take(m) =~= e.children());
            assert(es[i] == indent::entry_indented(whole, p, e, own, col));
            assert(!indent::needs_indent(e, own, col));
            lemma_parts(whole, p, e, m, own, col);
            let ds = indent::parts_indented(whole, p, e, e.children(), own, col);
            assert(es[i].children() =~= ds);
            assert(!sheds(e, own, col));
            if m > 0 {
                assert(ds[0] == part(whole, p, e, 0, own, col));
                lemma_part_kind(whole, p, e, 0, own, col);
                lemma_blank_width(col);
                lemma_wide_gap(e.children(), 0, false);
            }
        },
    }
}

// ---- Lines ----

/// What stands on the line before `k` is the same where what changed is not there.
proof fn lemma_same_text(cs: Seq<Tree>, ds: Seq<Tree>, k: int, f: spec_fn(Tree) -> bool)
    requires
        0 <= k <= cs.len(),
        k <= ds.len(),
        clear_line(cs, k, f),
        forall|j: int|
            0 <= j < k ==> {
                &&& f(cs[j]) || ds[j] == #[trigger] cs[j]
                &&& tree_utils::breaks_line(ds[j]) == tree_utils::breaks_line(cs[j])
            },
    ensures
        tree_utils::last_break(ds, k) == tree_utils::last_break(cs, k),
        match tree_utils::last_break(cs, k) {
            Some(j) => 0 <= j < k && cs.subrange(j + 1, k) == ds.subrange(j + 1, k),
            None => cs.take(k) == ds.take(k),
        },
    decreases k,
{
    if k > 0 {
        assert(tree_utils::breaks_line(ds[k - 1]) == tree_utils::breaks_line(cs[k - 1]));
        if tree_utils::breaks_line(cs[k - 1]) {
            assert(cs.subrange(k, k) =~= ds.subrange(k, k));
        } else {
            lemma_same_text(cs, ds, k - 1, f);
            assert(ds[k - 1] == cs[k - 1]);
            match tree_utils::last_break(cs, k) {
                Some(j) => {
                    assert(cs.subrange(j + 1, k) =~= cs.subrange(j + 1, k - 1).push(cs[k - 1]));
                    assert(ds.subrange(j + 1, k) =~= ds.subrange(j + 1, k - 1).push(ds[k - 1]));
                },
                None => {
                    assert(cs.take(k) =~= cs.take(k - 1).push(cs[k - 1]));
                    assert(ds.take(k) =~= ds.take(k - 1).push(ds[k - 1]));
                },
            }
        }
    } else {
        assert(cs.take(0) =~= ds.take(0));
    }
}

/// Whether the same text stands on the line of the node at `path` in two trees.
pub open spec fn same_context(whole: Tree, whole2: Tree, path: Seq<usize>) -> bool {
    forall|tail: Seq<char>| #[trigger]
        tree_utils::line_before(whole2, path, tail) == tree_utils::line_before(whole, path, tail)
}

/// The same text stands on the line of a child, where it does on that of the node.
proof fn lemma_context_of_child(
    whole: Tree,
    whole2: Tree,
    path: Seq<usize>,
    k: int,
    f: spec_fn(Tree) -> bool,
)
    requires
        path::tree_at(whole, path) is Some,
        path::tree_at(whole2, path) is Some,
        same_context(whole, whole2, path),
        ({
            let cs = path::tree_at(whole, path)->0.children();
            let ds = path::tree_at(whole2, path)->0.children();
            &&& 0 <= k < cs.len()
            &&& k < ds.len()
            &&& k <= usize::MAX
            &&& clear_line(cs, k, f)
            &&& forall|j: int|
                0 <= j < k ==> {
                    &&& f(cs[j]) || ds[j] == #[trigger] cs[j]
                    &&& tree_utils::breaks_line(ds[j]) == tree_utils::breaks_line(cs[j])
                }
        }),
    ensures
        same_context(whole, whole2, path.push(k as usize)),
        tree_utils::block_column(whole2, path.push(k as usize)) == tree_utils::block_column(
            whole,
            path.push(k as usize),
        ),
{
    let cs = path::tree_at(whole, path)->0.children();
    let ds = path::tree_at(whole2, path)->0.children();
    let p = path.push(k as usize);
    assert(p.drop_last() =~= path);
    lemma_same_text(cs, ds, k, f);
    assert forall|tail: Seq<char>| #[trigger]
        tree_utils::line_before(whole2, p, tail) == tree_utils::line_before(whole, p, tail) by {
        assert(tree_utils::line_before(whole2, path, tail) == tree_utils::line_before(
            whole,
            path,
            tail,
        ));
    }
    let tail = green::trees_text(cs.take(k));
    assert(tree_utils::line_before(whole2, path, tail) == tree_utils::line_before(
        whole,
        path,
        tail,
    ));
}

// ---- The law ----

/// Whether what a second look at a block or an entry needs of the trees around it
/// is given, where it holds a literal or folded scalar.
pub open spec fn given_around(
    whole: Tree,
    path: Seq<usize>,
    t: Tree,
    whole2: Tree,
    path2: Seq<usize>,
    t2: Tree,
) -> bool {
    tree_utils::has_block_scalar(t) ==> {
        &&& path2 == path
        &&& path::tree_at(whole, path) == Some(t)
        &&& path::tree_at(whole2, path) == Some(t2)
        &&& same_context(whole, whole2, path)
    }
}

/// A block whose indentation was fixed stays.
#[verifier::rlimit(40)]
proof fn lemma_block_stays(
    whole: Tree,
    path: Seq<usize>,
    t: Tree,
    col: int,
    inline: bool,
    whole2: Tree,
    path2: Seq<usize>,
)
    requires
        t is Node,
        col >= 0,
        regular_block(t, inline),
        !is_indented(t, inline) ==> col == 0,
        given_around(
            whole,
            path,
            t,
            whole2,
            path2,
            indent::block_indented(whole, path, t, col),
        ),
    ensures
        indent::block_indented(whole2, path2, indent::block_indented(whole, path, t, col), col)
            == indent::block_indented(whole, path, t, col),
    decreases t, 0int,
{
    let cs = t.children();
    let n = cs.len() as int;
    let u = indent::block_indented(whole, path, t, col);
    let es = u.children();
    assert(cs.take(n) =~= cs);
    lemma_entries(whole, path, cs, n, col);
    assert(es == indent::entries_indented(whole, path, cs, cs, col));
    lemma_scalars_in_block(whole, path, t, col);
    assert forall|i: int| 0 <= i < n && tree_utils::block_entry(#[trigger] es[i]) implies
        indent::entry_indented(
        whole2,
        path2.push(i as usize),
        es[i],
        indent::own_indent(es, i),
        col,
    ) == es[i] by {
        let e = cs[i];
        let own = indent::own_indent(cs, i);
        let own2 = indent::own_indent(es, i);
        let p = path.push(i as usize);
        assert(tree_utils::block_entry(cs[i]));
        lemma_regular_entry(cs, cs, is_indented(t, inline), i);
        lemma_scalars_in_entry(whole, p, e, own, col);
        let newline = i > 0 && cs[i - 1].is_token_of(SyntaxKind::NEWLINE);
        if i > 0 {
            assert(es[i - 1] == es[i - 1]);
        }
        if tree_utils::has_block_scalar(e) {
            lemma_any_scalar(cs);
            assert(tree_utils::has_block_scalar(cs[i]));
            assert(tree_utils::has_block_scalar(t));
            assert(p.drop_last() =~= path);
            assert forall|j: int| 0 <= j < i implies {
                &&& indent::block_entries()(cs[j]) || es[j] == #[trigger] cs[j]
                &&& tree_utils::breaks_line(es[j]) == tree_utils::breaks_line(cs[j])
            } by {
                assert(es[j] == es[j]);
            }
            lemma_clear_line(cs, i, indent::block_entries());
            lemma_context_of_child(whole, whole2, path, i, indent::block_entries());
        }
        assert(decreases_to!(t => t->children[i]));
        lemma_entry_stays(
            whole,
            p,
            e,
            own,
            col,
            whole2,
            path2.push(i as usize),
            own2,
            newline,
        );
    }
    lemma_entries_stay(whole2, path2, es, n, col);
    assert(es.take(n) =~= es);
}

/// An entry whose indentation was fixed stays. `newline` says whether it begins a
/// line.
#[verifier::rlimit(60)]
proof fn lemma_entry_stays(
    whole: Tree,
    path: Seq<usize>,
    e: Tree,
    own: bool,
    col: int,
    whole2: Tree,
    path2: Seq<usize>,
    own2: bool,
    newline: bool,
)
    requires
        e is Node,
        col >= 0,
        regular_entry(e),
        own == (!tree_utils::has_block_scalar(e) && (indent::begins_blank(e.children())
            || newline)),
        col > 0 && newline ==> indent::begins_blank(e.children()),
        own2 == (!tree_utils::has_block_scalar(e) && (indent::begins_blank(
            indent::entry_indented(whole, path, e, own, col).children(),
        ) || newline)),
        given_around(
            whole,
            path,
            e,
            whole2,
            path2,
            indent::entry_indented(whole, path, e, own, col),
        ),
    ensures
        indent::entry_indented(
            whole2,
            path2,
            indent::entry_indented(whole, path, e, own, col),
            own2,
            col,
        ) == indent::entry_indented(whole, path, e, own, col),
    decreases e, 1int,
{
    let cs = e.children();
    let m = cs.len() as int;
    let d = shed_count(e, own, col);
    let e2 = indent::entry_indented(whole, path, e, own, col);
    let ds = e2.children();
    assert(cs.take(m) =~= cs);
    assert(!indent::needs_indent(e, own, col));
    lemma_parts(whole, path, e, m, own, col);
    assert(ds =~= indent::parts_indented(whole, path, e, cs, own, col));
    assert(made_of(ds, whole, path, e, own, col));
    lemma_scalars_in_entry(whole, path, e, own, col);
    if ds.len() > 0 {
        assert(ds[0] == part(whole, path, e, d, own, col));
        lemma_part_kind(whole, path, e, d, own, col);
    }
    assert(!indent::needs_indent(e2, own2, col));
    assert forall|j: int| 0 <= j < ds.len() implies {
        &&& indent::gap_change(e2, j, own2, col) is None
        &&& indent::is_block(#[trigger] e2.children()[j]) ==> indent::block_indented(
            whole2,
            path2.push(j as usize),
            e2.children()[j],
            indent::child_column(whole2, path2, e2, j, col),
        ) == e2.children()[j]
    } by {
        lemma_gaps_closed(ds, whole, path, e, own, col, e2, own2, j);
        let k = j + d;
        assert(ds[j] == part(whole, path, e, k, own, col));
        lemma_part_kind(whole, path, e, k, own, col);
        if indent::is_block(ds[j]) {
            assert(indent::is_block(cs[k]));
            lemma_block_part_stays(ds, whole, path, e, own, col, whole2, path2, e2, j);
        }
    }
    lemma_parts_stay(whole2, path2, e2, ds.len() as int, own2, col);
    assert(ds.take(ds.len() as int) =~= ds);
    assert(indent::given_indent(e2, own2, col) + ds =~= ds);
}

/// A block in an entry whose indentation was fixed stays.
#[verifier::rlimit(60)]
proof fn lemma_block_part_stays(
    ds: Seq<Tree>,
    whole: Tree,
    path: Seq<usize>,
    e: Tree,
    own: bool,
    col: int,
    whole2: Tree,
    path2: Seq<usize>,
    e2: Tree,
    j: int,
)
    requires
        made_of(ds, whole, path, e, own, col),
        regular_entry(e),
        e2 is Node,
        e2.children() == ds,
        tree_utils::has_block_scalar(e2) == tree_utils::has_block_scalar(e),
        given_around(whole, path, e, whole2, path2, e2),
        0 <= j < ds.len(),
        indent::is_block(e.children()[j + shed_count(e, own, col)]),
    ensures
        indent::block_indented(
            whole2,
            path2.push(j as usize),
            ds[j],
            indent::child_column(whole2, path2, e2, j, col),
        ) == ds[j],
    decreases e, 0int,
{
    let cs = e.children();
    let d = shed_count(e, own, col);
    let k = j + d;
    let t = cs[k];
    let c = indent::child_column(whole, path, e, k, col);
    let c2 = indent::child_column(whole2, path2, e2, j, col);
    let inline = !indent::on_own_line(cs, k);
    assert(indent::is_block(cs[k]));
    assert(ds[j] == part(whole, path, e, k, own, col));
    assert(ds[j] == indent::block_indented(whole, path.push(k as usize), t, c));
    lemma_regular_block(cs, cs, k);
    lemma_same_line(ds, whole, path, e, own, col, j);
    if tree_utils::has_block_scalar(e) {
        assert(d == 0);
        assert forall|x: int| 0 <= x < k implies {
            &&& indent::blocks()(cs[x]) || ds[x] == #[trigger] cs[x]
            &&& tree_utils::breaks_line(ds[x]) == tree_utils::breaks_line(cs[x])
        } by {
            assert(ds[x] == part(whole, path, e, x, own, col));
            lemma_part_kind(whole, path, e, x, own, col);
        }
        lemma_clear_line(cs, k, indent::blocks());
        lemma_context_of_child(whole, whole2, path, k, indent::blocks());
        assert(path.push(k as usize).drop_last() =~= path);
    }
    if !inline {
        lemma_first_entry(whole, path.push(k as usize), t, c, inline);
    } else if !tree_utils::has_block_scalar(e) {
        lemma_same_offset(ds, whole, path, e, own, col, j);
    }
    assert(c2 == c);
    if tree_utils::has_block_scalar(t) {
        lemma_any_scalar(cs);
        assert(tree_utils::has_block_scalar(cs[k]));
        assert(tree_utils::has_block_scalar(e));
    }
    assert(decreases_to!(e => e->children[k]));
    lemma_block_stays(
        whole,
        path.push(k as usize),
        t,
        c,
        inline,
        whole2,
        path2.push(j as usize),
    );
}

/// Nothing is told, so nothing stands before.
proof fn lemma_clear_of_none(cs: Seq<Tree>, k: int)
    ensures
        clear_line(cs, k, |t: Tree| false),
    decreases k,
{
    if k > 0 {
        lemma_clear_of_none(cs, k - 1);
    }
}

/// Whether the blocks whose indentation is fixed stand in good order. (There are no
/// more children than can be counted.)
pub open spec fn is_regular(t: Tree) -> bool {
    let cs = t.children();
    t.is_node_of(SyntaxKind::STREAM) ==> {
        &&& cs.len() <= usize::MAX
        &&& forall|i: int|
            0 <= i < cs.len() && indent::root_block(#[trigger] cs[i]) is Some ==> {
                &&& cs[i].children().len() <= usize::MAX
                &&& regular_block(cs[i].children()[indent::root_block(cs[i])->0], false)
            }
    }
}

/// What is made of the children of a stream, one by one.
pub(crate) proof fn lemma_documents(whole: Tree, ts: Seq<Tree>)
    ensures
        indent::documents_indented(whole, ts).len() == ts.len(),
        forall|i: int|
            0 <= i < ts.len() ==> #[trigger] indent::documents_indented(whole, ts)[i]
                == indent::document_indented(whole, i, ts[i]),
    decreases ts.len(),
{
    if ts.len() > 0 {
        lemma_documents(whole, ts.drop_last());
    }
}

/// A document keeps its kind and the place of its block collection.
pub(crate) proof fn lemma_document_root(whole: Tree, i: int, t: Tree)
    ensures
        ({
            let u = indent::document_indented(whole, i, t);
            &&& indent::root_block(u) == indent::root_block(t)
            &&& u.kind() == t.kind()
            &&& (u is Node) == (t is Node)
            &&& indent::root_block(t) is None ==> u == t
        }),
{
    if let Some(j) = indent::root_block(t) {
        let ds = t.children();
        lemma_place_bounds(ds, 0, indent::blocks());
        let u = indent::document_indented(whole, i, t);
        crate::fixers::scalars::lemma_same_place(ds, u.children(), 0, indent::blocks());
    }
}

/// A document whose indentation was fixed stays.
proof fn lemma_document_stays(t: Tree, i: int)
    requires
        t.is_node_of(SyntaxKind::STREAM),
        is_regular(t),
        0 <= i < t.children().len(),
    ensures
        ({
            let t2 = indent::reindented(t);
            indent::document_indented(t2, i, t2.children()[i]) == t2.children()[i]
        }),
{
    let t2 = indent::reindented(t);
    let cs = t.children();
    let cs2 = t2.children();
    lemma_documents(t, cs);
    let doc = cs[i];
    let doc2 = cs2[i];
    assert(doc2 == indent::document_indented(t, i, doc));
    lemma_document_root(t, i, doc);
    if let Some(j) = indent::root_block(doc) {
        let ds = doc.children();
        lemma_place_bounds(ds, 0, indent::blocks());
        let root = Seq::<usize>::empty();
        let up = root.push(i as usize);
        let p = up.push(j as usize);
        assert(p =~= seq![i as usize, j as usize]);
        assert(up.drop_last() =~= root);
        assert(p.drop_last() =~= up);
        assert(path::tree_at(t, root) == Some(t));
        assert(path::tree_at(t, up) == Some(doc));
        let block = ds[j];
        assert(path::tree_at(t, p) == Some(block));
        let block2 = indent::block_indented(t, p, block, 0);
        let ds2 = doc2.children();
        assert(ds2 == ds.update(j, block2));
        assert(path::tree_at(t2, root) == Some(t2));
        assert(path::tree_at(t2, up) == Some(doc2));
        assert(path::tree_at(t2, p) == Some(block2));
        assert(same_context(t, t2, root));
        assert forall|x: int| 0 <= x < i implies {
            &&& indent::with_block()(cs[x]) || cs2[x] == #[trigger] cs[x]
            &&& tree_utils::breaks_line(cs2[x]) == tree_utils::breaks_line(cs[x])
        } by {
            assert(cs2[x] == indent::document_indented(t, x, cs[x]));
            lemma_document_root(t, x, cs[x]);
        }
        lemma_clear_of_documents(cs, i);
        lemma_context_of_child(t, t2, root, i, indent::with_block());
        lemma_clear_of_none(ds, j);
        lemma_context_of_child(t, t2, up, j, |x: Tree| false);
        lemma_block_stays(t, p, block, 0, false, t2, p);
        assert(ds2.update(j, block2) =~= ds2);
    }
}

/// To fix the indentation of a regular tree a second time changes nothing.
/// (The tree of `"? \n    ? \n: - a: \n    ? "` is not regular, and a second time
/// changes it again.)
pub proof fn lemma_reindent_is_idempotent(t: Tree)
    requires
        is_regular(t),
    ensures
        indent::reindented(indent::reindented(t)) == indent::reindented(t),
{
    if t.is_node_of(SyntaxKind::STREAM) {
        let t2 = indent::reindented(t);
        let cs2 = t2.children();
        lemma_documents(t, t.children());
        lemma_documents(t2, cs2);
        assert forall|i: int| 0 <= i < cs2.len() implies indent::documents_indented(t2, cs2)[i]
            == #[trigger] cs2[i] by {
            lemma_document_stays(t, i);
        }
        assert(indent::documents_indented(t2, cs2) =~= cs2);
    }
}

} // verus!

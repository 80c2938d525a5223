//! How far the entries of blocks stand to the right once indentation was fixed.

use vstd::prelude::*;
use vstd::utf8::*;

use crate::fixers::indent;
use crate::laws::indenting;
use crate::syntax::green::Tree;
use crate::syntax::kind::SyntaxKind;
use crate::syntax::node;
use crate::syntax::tree_utils;

verus! {

/// The length of a tree's text, in bytes.
pub open spec fn byte_width(t: Tree) -> nat {
    encode_utf8(t.text()).len()
}

/// Whether children begin with whitespace.
pub open spec fn leads_with_blank(cs: Seq<Tree>) -> bool {
    cs.len() > 0 && cs[0].is_token_of(SyntaxKind::WHITESPACE)
}

/// Whether a tree is a block mapping or a block sequence.
pub open spec fn is_block(t: Tree) -> bool {
    t.is_node_of(SyntaxKind::BLOCK_MAPPING) || t.is_node_of(SyntaxKind::BLOCK_SEQUENCE)
}

/// Whether a tree is an entry of one.
pub open spec fn is_entry(t: Tree) -> bool {
    t.is_node_of(SyntaxKind::BLOCK_MAPPING_ENTRY) || t.is_node_of(SyntaxKind::BLOCK_SEQUENCE_ENTRY)
}

/// The entries of blocks.
pub open spec fn entries() -> spec_fn(Tree) -> bool {
    |t: Tree| is_entry(t)
}

/// The blocks.
pub open spec fn all_blocks() -> spec_fn(Tree) -> bool {
    |t: Tree| is_block(t)
}

/// The place of the outermost block of a document, if it has one.
pub open spec fn outermost(t: Tree) -> Option<int> {
    if t.is_node_of(SyntaxKind::DOCUMENT) {
        node::place_from(t.children(), 0, all_blocks())
    } else {
        None
    }
}

/// Whether the child at `k` begins a line: a line break, and perhaps whitespace,
/// stands before it.
pub open spec fn on_own_line(cs: Seq<Tree>, k: int) -> bool {
    k >= 1 && (cs[k - 1].is_token_of(SyntaxKind::NEWLINE) || (k >= 2 && cs[k - 1].is_token_of(
        SyntaxKind::WHITESPACE,
    ) && cs[k - 2].is_token_of(SyntaxKind::NEWLINE)))
}

/// Whether a tree holds a literal or folded scalar.
pub open spec fn holds_block_scalar(t: Tree) -> bool
    decreases t,
{
    match t {
        Tree::Token { .. } => t.is_token_of(SyntaxKind::LITERAL_SCALAR) || t.is_token_of(
            SyntaxKind::FOLDED_SCALAR,
        ),
        Tree::Node { children, .. } => any_holds_block_scalar(children),
    }
}

/// Whether one of the trees does.
pub open spec fn any_holds_block_scalar(ts: Seq<Tree>) -> bool
    decreases ts,
{
    ts.len() > 0 && (any_holds_block_scalar(ts.drop_last()) || holds_block_scalar(ts.last()))
}

/// Trees that hold no literal or folded scalar can move.
proof fn lemma_holds(t: Tree)
    ensures
        holds_block_scalar(t) == tree_utils::has_block_scalar(t),
    decreases t, 1int,
{
    if t is Node {
        lemma_any_holds(t->Node_children);
    }
}

/// The same of trees in a row.
proof fn lemma_any_holds(ts: Seq<Tree>)
    ensures
        any_holds_block_scalar(ts) == tree_utils::any_block_scalar(ts),
    decreases ts, 0int,
{
    if ts.len() > 0 {
        lemma_any_holds(ts.drop_last());
        assert(decreases_to!(ts => ts[ts.len() - 1]));
        lemma_holds(ts.last());
    }
}

/// How far an entry is indented.
pub open spec fn indentation(e: Tree) -> nat {
    if leads_with_blank(e.children()) {
        byte_width(e.children()[0])
    } else {
        0
    }
}

/// Whether the entry at `i` begins a line: it begins with whitespace, or stands
/// behind a line break.
pub open spec fn begins_line(cs: Seq<Tree>, i: int) -> bool {
    leads_with_blank(cs[i].children()) || (i > 0 && cs[i - 1].is_token_of(SyntaxKind::NEWLINE))
}

/// Whether the first entry of a block begins with whitespace.
pub open spec fn leads_blank(t: Tree) -> bool {
    match node::place_from(t.children(), 0, entries()) {
        Some(i) => leads_with_blank(t.children()[i].children()),
        None => false,
    }
}

/// How wide the text is that stands before the child at `k` of an entry on its
/// line, behind the indentation of the entry.
pub open spec fn text_before(cs: Seq<Tree>, k: int) -> nat
    decreases k,
{
    if k <= 0 || cs[k - 1].is_token_of(SyntaxKind::NEWLINE) || (k == 1 && leads_with_blank(cs)) {
        0
    } else {
        text_before(cs, k - 1) + byte_width(cs[k - 1])
    }
}

/// Whether no whitespace in that text is longer than one space.
pub open spec fn narrow_before(cs: Seq<Tree>, k: int) -> bool
    decreases k,
{
    k <= 0 || cs[k - 1].is_token_of(SyntaxKind::NEWLINE) || (k == 1 && leads_with_blank(cs)) || {
        &&& cs[k - 1].is_token_of(SyntaxKind::WHITESPACE) ==> byte_width(cs[k - 1]) <= 1
        &&& narrow_before(cs, k - 1)
    }
}

/// Whether the entries of a block stand at the column `col`, and those of the blocks
/// in it stand to the right of them as they should, at all depths: those of a block
/// on lines of its own that is indented two columns to the right of the entry that
/// holds it, those of one that is not at the first column, and those of one behind
/// its mark where it begins. Behind the mark of an entry stands one space at most. An
/// entry that holds a literal or folded scalar is left out, with what is in it.
pub open spec fn stepped(t: Tree, col: int) -> bool
    decreases t,
{
    match t {
        Tree::Token { .. } => true,
        Tree::Node { children, .. } => stepped_entries(children, children, col),
    }
}

/// Whether the first children, `ts`, of a block do.
pub open spec fn stepped_entries(cs: Seq<Tree>, ts: Seq<Tree>, col: int) -> bool
    decreases ts,
{
    ts.len() > 0 ==> {
        &&& stepped_entries(cs, ts.drop_last(), col)
        &&& is_entry(ts.last()) && !holds_block_scalar(ts.last()) ==> {
            &&& begins_line(cs, ts.len() - 1) ==> indentation(ts.last()) == col
            &&& stepped_entry(ts.last(), col)
        }
    }
}

/// Whether a tree is the mark of an entry.
pub open spec fn is_mark(t: Tree) -> bool {
    t.is_token_of(SyntaxKind::DASH) || t.is_token_of(SyntaxKind::COLON)
}

/// Whether whitespace right behind the first mark of an entry is no longer than one
/// space.
pub open spec fn narrow_gap(cs: Seq<Tree>) -> bool {
    forall|k: int|
        1 <= k < cs.len() && (#[trigger] cs[k]).is_token_of(SyntaxKind::WHITESPACE) && is_mark(
            cs[k - 1],
        ) && (forall|j: int| 0 <= j < k - 1 ==> !is_mark(#[trigger] cs[j])) ==> byte_width(cs[k])
            <= 1
}

/// Behind the mark the whitespace is looked for.
proof fn lemma_gap_found(cs: Seq<Tree>, j: int, k: int)
    requires
        0 <= j < k < cs.len(),
        is_mark(cs[k - 1]),
        forall|i: int| 0 <= i < k - 1 ==> !is_mark(#[trigger] cs[i]),
    ensures
        indent::wide_gap(cs, j, false) == indent::wide_gap(cs, k, true),
    decreases k - j,
{
    if j < k - 1 {
        assert(!is_mark(cs[j]));
        lemma_gap_found(cs, j + 1, k);
    }
}

/// Whether the blocks in an entry at the column `col` do, and whitespace right behind
/// its mark is no longer than one space.
pub open spec fn stepped_entry(e: Tree, col: int) -> bool
    decreases e,
{
    match e {
        Tree::Token { .. } => true,
        Tree::Node { children, .. } => narrow_gap(children) && stepped_parts(
            children,
            children,
            col,
        ),
    }
}

/// Whether the blocks among the first children, `ts`, of an entry do.
pub open spec fn stepped_parts(cs: Seq<Tree>, ts: Seq<Tree>, col: int) -> bool
    decreases ts,
{
    ts.len() > 0 ==> {
        &&& stepped_parts(cs, ts.drop_last(), col)
        &&& is_block(ts.last()) ==> if on_own_line(cs, ts.len() - 1) {
            stepped(
                ts.last(),
                if leads_blank(ts.last()) {
                    col + 2
                } else {
                    0
                },
            )
        } else {
            narrow_before(cs, ts.len() - 1) ==> stepped(
                ts.last(),
                col + text_before(cs, ts.len() - 1),
            )
        }
    }
}

/// Entries that stand as they should one by one do so in a row.
proof fn lemma_all_entries(cs: Seq<Tree>, n: int, col: int)
    requires
        0 <= n <= cs.len(),
        forall|i: int|
            0 <= i < cs.len() && is_entry(#[trigger] cs[i]) && !holds_block_scalar(cs[i]) ==> {
                &&& begins_line(cs, i) ==> indentation(cs[i]) == col
                &&& stepped_entry(cs[i], col)
            },
    ensures
        stepped_entries(cs, cs.take(n), col),
    decreases n,
{
    if n > 0 {
        lemma_all_entries(cs, n - 1, col);
        assert(cs.take(n).drop_last() =~= cs.take(n - 1));
        assert(cs.take(n).last() == cs[n - 1]);
    }
}

/// Whether the block at `k` in an entry at the column `col` stands as it should.
pub open spec fn stepped_part(cs: Seq<Tree>, k: int, col: int) -> bool {
    if on_own_line(cs, k) {
        stepped(
            cs[k],
            if leads_blank(cs[k]) {
                col + 2
            } else {
                0
            },
        )
    } else {
        narrow_before(cs, k) ==> stepped(cs[k], col + text_before(cs, k))
    }
}

/// Blocks that stand as they should one by one do so in a row.
proof fn lemma_all_parts(cs: Seq<Tree>, n: int, col: int)
    requires
        0 <= n <= cs.len(),
        forall|k: int|
            0 <= k < cs.len() && is_block(#[trigger] cs[k]) ==> stepped_part(cs, k, col),
    ensures
        stepped_parts(cs, cs.take(n), col),
    decreases n,
{
    if n > 0 {
        lemma_all_parts(cs, n - 1, col);
        assert(cs.take(n).drop_last() =~= cs.take(n - 1));
        assert(cs.take(n).last() == cs[n - 1]);
        if indent::is_block(cs[n - 1]) {
            assert(stepped_part(cs, n - 1, col));
        }
    }
}

/// Where no whitespace is longer than one space, a block stands as far behind as the
/// text before it is wide.
proof fn lemma_narrow(cs: Seq<Tree>, k: int)
    requires
        0 <= k <= cs.len(),
        narrow_before(cs, k),
    ensures
        indent::inline_offset(
            cs,
            if indent::begins_blank(cs) {
                1
            } else {
                0
            },
            k,
        ) == text_before(cs, k),
    decreases k,
{
    if k > 0 && !cs[k - 1].is_token_of(SyntaxKind::NEWLINE) && !(k == 1 && indent::begins_blank(
        cs,
    )) {
        lemma_narrow(cs, k - 1);
    }
}

/// The entries of a block whose indentation was fixed stand where they should.
proof fn lemma_block_stepped(whole: Tree, path: Seq<usize>, t: Tree, col: int, inline: bool)
    requires
        t is Node,
        col >= 0,
        indenting::regular_block(t, inline),
        !indenting::is_indented(t, inline) ==> col == 0,
    ensures
        stepped(indent::block_indented(whole, path, t, col), col),
    decreases t, 0int,
{
    let cs = t.children();
    let n = cs.len() as int;
    let u = indent::block_indented(whole, path, t, col);
    let es = u.children();
    assert(cs.take(n) =~= cs);
    indenting::lemma_entries(whole, path, cs, n, col);
    assert(es == indent::entries_indented(whole, path, cs, cs, col));
    assert forall|i: int|
        0 <= i < es.len() && is_entry(#[trigger] es[i]) && !holds_block_scalar(es[i]) implies {
        &&& begins_line(es, i) ==> indentation(es[i]) == col
        &&& stepped_entry(es[i], col)
    } by {
        let e = cs[i];
        assert(tree_utils::block_entry(cs[i]));
        lemma_holds(es[i]);
        indenting::lemma_regular_entry(cs, cs, indenting::is_indented(t, inline), i);
        indenting::lemma_scalars_in_entry(
            whole,
            path.push(i as usize),
            e,
            indent::own_indent(cs, i),
            col,
        );
        if i > 0 {
            assert(es[i - 1] == es[i - 1]);
        }
        assert(decreases_to!(t => t->children[i]));
        lemma_entry_stepped(
            whole,
            path.push(i as usize),
            e,
            indent::own_indent(cs, i),
            col,
            i > 0 && cs[i - 1].is_token_of(SyntaxKind::NEWLINE),
        );
    }
    lemma_all_entries(es, n, col);
    assert(es.take(n) =~= es);
}

/// An entry whose indentation was fixed is indented by its column, and the blocks in
/// it stand where they should. `newline` says whether it stands behind a line break.
proof fn lemma_entry_stepped(
    whole: Tree,
    path: Seq<usize>,
    e: Tree,
    own: bool,
    col: int,
    newline: bool,
)
    requires
        e is Node,
        col >= 0,
        !tree_utils::has_block_scalar(e),
        indenting::regular_entry(e),
        own == (indent::begins_blank(e.children()) || newline),
        col > 0 && newline ==> indent::begins_blank(e.children()),
    ensures
        ({
            let e2 = indent::entry_indented(whole, path, e, own, col);
            &&& indent::begins_blank(e2.children()) || newline ==> indentation(e2) == col
            &&& stepped_entry(e2, col)
        }),
    decreases e, 1int,
{
    let cs = e.children();
    let m = cs.len() as int;
    let d = indenting::shed_count(e, own, col);
    let e2 = indent::entry_indented(whole, path, e, own, col);
    let ds = e2.children();
    assert(cs.take(m) =~= cs);
    assert(!indent::needs_indent(e, own, col));
    indenting::lemma_parts(whole, path, e, m, own, col);
    assert(ds =~= indent::parts_indented(whole, path, e, cs, own, col));
    assert(indenting::made_of(ds, whole, path, e, own, col));
    if ds.len() > 0 {
        assert(ds[0] == indenting::part(whole, path, e, d, own, col));
        indenting::lemma_part_kind(whole, path, e, d, own, col);
        indenting::lemma_blank_width(col);
        indenting::lemma_wide_gap(cs, 0, false);
    }
    assert(indent::begins_blank(e2.children()) || newline ==> indentation(e2) == col);
    assert forall|j: int| 0 <= j < ds.len() && is_block(#[trigger] ds[j]) implies
        stepped_part(ds, j, col) by {
        let k = j + d;
        assert(ds[j] == indenting::part(whole, path, e, k, own, col));
        indenting::lemma_part_kind(whole, path, e, k, own, col);
        let t = cs[k];
        assert(indent::is_block(cs[k]));
        let c = indent::child_column(whole, path, e, k, col);
        let inline = !indent::on_own_line(cs, k);
        assert(ds[j] == indent::block_indented(whole, path.push(k as usize), t, c));
        indenting::lemma_regular_block(cs, cs, k);
        indenting::lemma_same_line(ds, whole, path, e, own, col, j);
        if inline {
            indenting::lemma_same_offset(ds, whole, path, e, own, col, j);
            if narrow_before(ds, j) {
                lemma_narrow(ds, j);
            }
        } else {
            indenting::lemma_first_entry(whole, path.push(k as usize), t, c, inline);
            crate::fixers::scalars::lemma_same_test(
                ds[j].children(),
                0,
                entries(),
                indent::block_entries(),
            );
        }
        assert(decreases_to!(e => e->children[k]));
        lemma_block_stepped(whole, path.push(k as usize), t, c, inline);
    }
    indenting::lemma_gap_closed(ds, whole, path, e, own, col, 0, false);
    assert forall|k: int|
        1 <= k < ds.len() && (#[trigger] ds[k]).is_token_of(SyntaxKind::WHITESPACE) && is_mark(
            ds[k - 1],
        ) && (forall|j: int| 0 <= j < k - 1 ==> !is_mark(#[trigger] ds[j])) implies indent::width(
        ds[k],
    ) <= 1 by {
        lemma_gap_found(ds, 0, k);
    }
    lemma_all_parts(ds, ds.len() as int, col);
    assert(ds.take(ds.len() as int) =~= ds);
}

/// Once the indentation of a regular tree was fixed, the entries of each document's
/// outermost block stand at the first column, and those of the blocks in it, at
/// every depth, two columns to the right of the entry that holds the block, or
/// behind its mark.
pub proof fn lemma_reindent_steps_by_two(t: Tree)
    requires
        t.is_node_of(SyntaxKind::STREAM),
        indenting::is_regular(t),
    ensures
        ({
            let ds = indent::reindented(t).children();
            &&& ds.len() == t.children().len()
            &&& forall|i: int|
                0 <= i < ds.len() ==> match outermost(#[trigger] ds[i]) {
                    Some(j) => stepped(ds[i].children()[j], 0),
                    None => ds[i] == t.children()[i],
                }
        }),
{
    let cs = t.children();
    let ds = indent::reindented(t).children();
    indenting::lemma_documents(t, cs);
    assert forall|i: int| 0 <= i < ds.len() implies match outermost(#[trigger] ds[i]) {
        Some(j) => stepped(ds[i].children()[j], 0),
        None => ds[i] == t.children()[i],
    } by {
        assert(ds[i] == indent::document_indented(t, i, cs[i]));
        indenting::lemma_document_root(t, i, cs[i]);
        crate::fixers::scalars::lemma_same_test(
            ds[i].children(),
            0,
            all_blocks(),
            indent::blocks(),
        );
        if let Some(j) = indent::root_block(cs[i]) {
            indenting::lemma_place_bounds(cs[i].children(), 0, indent::blocks());
            lemma_block_stepped(
                t,
                seq![i as usize, j as usize],
                cs[i].children()[j],
                0,
                false,
            );
        }
    }
}

} // verus!

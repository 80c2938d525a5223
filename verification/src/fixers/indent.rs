//! Indentation.
//!
//! The entries of a block collection are indented by two more than those of the
//! collection around it, and one space stands between the mark of an entry and
//! what is on its line. What holds a literal or folded scalar stays where it is:
//! the lines of such a scalar cannot move along.

use vstd::prelude::*;
use vstd::string::*;
use vstd::utf8::*;

use crate::edit::make::mk_token;
use crate::syntax::green;
use crate::syntax::green::{node_kind, node_new, row_fits, GreenElement, Tree, MAX_LEN};
use crate::syntax::kind::SyntaxKind;
use crate::syntax::node;
use crate::syntax::node::{SyntaxElement, SyntaxNode};
use crate::syntax::path;
use crate::syntax::tree::SyntaxTree;
use crate::syntax::tree_utils;
use crate::syntax::tree_utils::{contains_block_scalar, observed_block_col};
use crate::text;
use crate::text::{push_chars, push_spaces, string_of};

verus! {

/// The length of a tree's text, in bytes.
pub open spec fn width(t: Tree) -> nat {
    encode_utf8(t.text()).len()
}

/// Whitespace of `n` spaces.
pub open spec fn blank(n: int) -> Tree {
    Tree::Token { kind: SyntaxKind::WHITESPACE.code(), text: text::spaces(n) }
}

/// Whether children begin with whitespace.
pub open spec fn begins_blank(cs: Seq<Tree>) -> bool {
    cs.len() > 0 && cs[0].is_token_of(SyntaxKind::WHITESPACE)
}

/// Whether a tree is a block collection.
pub open spec fn is_block(t: Tree) -> bool {
    t.is_node_of(SyntaxKind::BLOCK_MAPPING) || t.is_node_of(SyntaxKind::BLOCK_SEQUENCE)
}

/// The entries of block collections.
pub open spec fn block_entries() -> spec_fn(Tree) -> bool {
    |t: Tree| tree_utils::block_entry(t)
}

/// How far the first entry of a block collection is indented; nothing where it
/// begins with no whitespace.
pub open spec fn first_entry_indent(t: Tree) -> Option<nat> {
    match node::place_from(t.children(), 0, block_entries()) {
        Some(i) => if begins_blank(t.children()[i].children()) {
            Some(width(t.children()[i].children()[0]))
        } else {
            None
        },
        None => None,
    }
}

/// Whether the child at `k` begins a line: a line break, and perhaps whitespace,
/// stands before it.
pub open spec fn on_own_line(cs: Seq<Tree>, k: int) -> bool {
    k >= 1 && (cs[k - 1].is_token_of(SyntaxKind::NEWLINE) || (cs[k - 1].is_token_of(
        SyntaxKind::WHITESPACE,
    ) && k >= 2 && cs[k - 2].is_token_of(SyntaxKind::NEWLINE)))
}

/// The whitespace right behind the mark of an entry that is longer than one
/// space, from `j` on; `seen` says whether the mark was seen.
pub open spec fn wide_gap(cs: Seq<Tree>, j: int, seen: bool) -> Option<int>
    decreases cs.len() - j,
{
    if !(0 <= j < cs.len()) {
        None
    } else if cs[j].is_token_of(SyntaxKind::DASH) || cs[j].is_token_of(SyntaxKind::COLON) {
        wide_gap(cs, j + 1, true)
    } else if !seen {
        wide_gap(cs, j + 1, false)
    } else if cs[j].is_token_of(SyntaxKind::WHITESPACE) && width(cs[j]) > 1 {
        Some(j)
    } else {
        None
    }
}

/// How far the child at `k` stands from where its entry begins, counted from the
/// child at `start` on: long whitespace counts as one space.
pub open spec fn inline_offset(cs: Seq<Tree>, start: int, k: int) -> nat
    decreases k - start,
{
    if k <= start {
        0
    } else {
        let t = cs[k - 1];
        if t.is_token_of(SyntaxKind::NEWLINE) {
            0
        } else if t.is_token_of(SyntaxKind::WHITESPACE) && width(t) > 1 {
            inline_offset(cs, start, k - 1) + 1
        } else {
            inline_offset(cs, start, k - 1) + width(t)
        }
    }
}

/// The column of the entries of a block on lines of its own, in an entry at
/// column `col`. One that is not indented stays so.
pub open spec fn launch_column(block: Tree, col: int) -> int {
    match first_entry_indent(block) {
        None => 0,
        Some(_) => col + 2,
    }
}

/// The column of the entries of the block at `k` in the entry `e` at `path`,
/// which is at column `col`.
pub open spec fn child_column(whole: Tree, path: Seq<usize>, e: Tree, k: int, col: int) -> int {
    let cs = e.children();
    if on_own_line(cs, k) {
        if tree_utils::has_block_scalar(e) {
            match first_entry_indent(cs[k]) {
                Some(n) => n as int,
                None => 0,
            }
        } else {
            launch_column(cs[k], col)
        }
    } else if tree_utils::has_block_scalar(e) {
        tree_utils::block_column(whole, path.push(k as usize)) as int
    } else {
        col + inline_offset(
            cs,
            if begins_blank(cs) {
                1
            } else {
                0
            },
            k,
        )
    }
}

/// Whitespace of the width `n` in place of `t`; nothing where it is that wide.
pub open spec fn rewidth(t: Tree, n: int) -> Option<Seq<Tree>> {
    if width(t) == n {
        None
    } else if n == 0 {
        Some(seq![])
    } else {
        Some(seq![blank(n)])
    }
}

/// What takes the place of the child at `k` of the entry `e` at column `col`, if
/// it is whitespace that is not as it should be. `own` says whether the
/// indentation of the entry itself is to be fixed.
pub open spec fn gap_change(e: Tree, k: int, own: bool, col: int) -> Option<Seq<Tree>> {
    let cs = e.children();
    let loose = !tree_utils::has_block_scalar(e);
    if !cs[k].is_token_of(SyntaxKind::WHITESPACE) {
        None
    } else if k == 0 && own {
        rewidth(cs[k], col)
    } else if loose && wide_gap(cs, 0, false) == Some(k) {
        Some(seq![blank(1)])
    } else if loose && k >= 1 && k + 1 < cs.len() && is_block(cs[k + 1])
        && cs[k - 1].is_token_of(SyntaxKind::NEWLINE) {
        rewidth(cs[k], launch_column(cs[k + 1], col))
    } else {
        None
    }
}

/// Whether the indentation of the entry at `i` is to be fixed: it is on a line
/// of its own, and can move.
pub open spec fn own_indent(cs: Seq<Tree>, i: int) -> bool {
    &&& !tree_utils::has_block_scalar(cs[i])
    &&& begins_blank(cs[i].children()) || (i > 0 && cs[i - 1].is_token_of(SyntaxKind::NEWLINE))
}

/// Whether the entry must be given an indentation that it does not have.
pub open spec fn needs_indent(e: Tree, own: bool, col: int) -> bool {
    own && !begins_blank(e.children()) && col > 0
}

/// The indentation that an entry is given.
pub open spec fn given_indent(e: Tree, own: bool, col: int) -> Seq<Tree> {
    if needs_indent(e, own, col) {
        seq![blank(col)]
    } else {
        seq![]
    }
}

/// The block `t` at `path`, with its entries at column `col`.
pub open spec fn block_indented(whole: Tree, path: Seq<usize>, t: Tree, col: int) -> Tree
    decreases t,
{
    match t {
        Tree::Token { .. } => t,
        Tree::Node { kind, children } => Tree::Node {
            kind,
            children: entries_indented(whole, path, children, children, col),
        },
    }
}

/// The first children, `ts`, of a block with the children `cs`.
pub open spec fn entries_indented(
    whole: Tree,
    path: Seq<usize>,
    cs: Seq<Tree>,
    ts: Seq<Tree>,
    col: int,
) -> Seq<Tree>
    decreases ts,
{
    if ts.len() == 0 {
        seq![]
    } else {
        let i = ts.len() - 1;
        entries_indented(whole, path, cs, ts.drop_last(), col).push(
            if tree_utils::block_entry(ts.last()) {
                entry_indented(whole, path.push(i as usize), ts.last(), own_indent(cs, i), col)
            } else {
                ts.last()
            },
        )
    }
}

/// The entry `e` at `path`.
pub open spec fn entry_indented(
    whole: Tree,
    path: Seq<usize>,
    e: Tree,
    own: bool,
    col: int,
) -> Tree
    decreases e,
{
    match e {
        Tree::Token { .. } => e,
        Tree::Node { kind, children } => Tree::Node {
            kind,
            children: given_indent(e, own, col) + parts_indented(
                whole,
                path,
                e,
                children,
                own,
                col,
            ),
        },
    }
}

/// The first children, `ts`, of the entry `e`.
pub open spec fn parts_indented(
    whole: Tree,
    path: Seq<usize>,
    e: Tree,
    ts: Seq<Tree>,
    own: bool,
    col: int,
) -> Seq<Tree>
    decreases ts,
{
    if ts.len() == 0 {
        seq![]
    } else {
        let k = ts.len() - 1;
        parts_indented(whole, path, e, ts.drop_last(), own, col) + match gap_change(
            e,
            k,
            own,
            col,
        ) {
            Some(x) => x,
            None => if is_block(ts.last()) {
                seq![
                    block_indented(
                        whole,
                        path.push(k as usize),
                        ts.last(),
                        child_column(whole, path, e, k, col),
                    ),
                ]
            } else {
                seq![ts.last()]
            },
        }
    }
}

/// How many changes there are in the block `t` at `path`.
pub open spec fn block_changes(whole: Tree, path: Seq<usize>, t: Tree, col: int) -> nat
    decreases t,
{
    match t {
        Tree::Token { .. } => 0,
        Tree::Node { children, .. } => entries_changes(whole, path, children, children, col),
    }
}

/// How many changes there are in the first children of a block.
pub open spec fn entries_changes(
    whole: Tree,
    path: Seq<usize>,
    cs: Seq<Tree>,
    ts: Seq<Tree>,
    col: int,
) -> nat
    decreases ts,
{
    if ts.len() == 0 {
        0
    } else {
        let i = ts.len() - 1;
        entries_changes(whole, path, cs, ts.drop_last(), col) + if tree_utils::block_entry(
            ts.last(),
        ) {
            entry_changes(whole, path.push(i as usize), ts.last(), own_indent(cs, i), col)
        } else {
            0
        }
    }
}

/// How many changes there are in an entry.
pub open spec fn entry_changes(
    whole: Tree,
    path: Seq<usize>,
    e: Tree,
    own: bool,
    col: int,
) -> nat
    decreases e,
{
    match e {
        Tree::Token { .. } => 0,
        Tree::Node { children, .. } => parts_changes(whole, path, e, children, own, col)
            + if needs_indent(e, own, col) {
            1nat
        } else {
            0nat
        },
    }
}

/// How many changes there are in the first children of an entry.
pub open spec fn parts_changes(
    whole: Tree,
    path: Seq<usize>,
    e: Tree,
    ts: Seq<Tree>,
    own: bool,
    col: int,
) -> nat
    decreases ts,
{
    if ts.len() == 0 {
        0
    } else {
        let k = ts.len() - 1;
        parts_changes(whole, path, e, ts.drop_last(), own, col) + if gap_change(e, k, own, col)
            is Some {
            1nat
        } else if is_block(ts.last()) {
            block_changes(
                whole,
                path.push(k as usize),
                ts.last(),
                child_column(whole, path, e, k, col),
            )
        } else {
            0nat
        }
    }
}

/// Block collections.
pub open spec fn blocks() -> spec_fn(Tree) -> bool {
    |t: Tree| is_block(t)
}

/// The place of the block collection of a document, if it has one.
pub open spec fn root_block(t: Tree) -> Option<int> {
    if t.is_node_of(SyntaxKind::DOCUMENT) {
        node::place_from(t.children(), 0, blocks())
    } else {
        None
    }
}

/// Documents that hold a block collection.
pub open spec fn with_block() -> spec_fn(Tree) -> bool {
    |t: Tree| root_block(t) is Some
}

/// The child `t` at `i` of the stream `whole`; a document with the indentation of
/// its block collection fixed.
pub open spec fn document_indented(whole: Tree, i: int, t: Tree) -> Tree {
    match root_block(t) {
        Some(j) => path::with_children(
            t,
            t.children().update(
                j,
                block_indented(whole, seq![i as usize, j as usize], t.children()[j], 0),
            ),
        ),
        None => t,
    }
}

/// The first children, `ts`, of the stream `whole`.
pub open spec fn documents_indented(whole: Tree, ts: Seq<Tree>) -> Seq<Tree>
    decreases ts.len(),
{
    if ts.len() == 0 {
        seq![]
    } else {
        documents_indented(whole, ts.drop_last()).push(
            document_indented(whole, ts.len() - 1, ts.last()),
        )
    }
}

/// A tree with its indentation fixed, in each document of a stream.
pub open spec fn reindented(t: Tree) -> Tree {
    if t.is_node_of(SyntaxKind::STREAM) {
        path::with_children(t, documents_indented(t, t.children()))
    } else {
        t
    }
}

/// How many changes there are in the child `t` at `i` of the stream `whole`.
pub open spec fn document_changes(whole: Tree, i: int, t: Tree) -> nat {
    match root_block(t) {
        Some(j) => block_changes(whole, seq![i as usize, j as usize], t.children()[j], 0),
        None => 0,
    }
}

/// How many changes there are in the first children of a stream.
pub open spec fn documents_changes(whole: Tree, ts: Seq<Tree>) -> nat
    decreases ts.len(),
{
    if ts.len() == 0 {
        0
    } else {
        documents_changes(whole, ts.drop_last()) + document_changes(
            whole,
            ts.len() - 1,
            ts.last(),
        )
    }
}

/// How many changes fixing the indentation of a tree takes.
pub open spec fn reindent_changes(t: Tree) -> nat {
    if t.is_node_of(SyntaxKind::STREAM) {
        documents_changes(t, t.children())
    } else {
        0
    }
}

// ---- Measuring ----

/// Whether the child at `k` is a token of kind `kind`.
fn token_at(n: &SyntaxNode, k: usize, kind: SyntaxKind) -> (r: bool)
    requires
        n.wf(),
        k < n.parts().len(),
    ensures
        r == n.parts()[k as int].is_token_of(kind),
{
    match n.child_or_token(k) {
        SyntaxElement::Token(t) => t.is(kind),
        SyntaxElement::Node(_) => false,
    }
}

/// The length of the text of the child at `k`, in bytes.
fn width_at(n: &SyntaxNode, k: usize) -> (r: usize)
    requires
        n.wf(),
        k < n.parts().len(),
    ensures
        r == width(n.parts()[k as int]),
{
    match n.child_or_token(k) {
        SyntaxElement::Token(t) => t.text().as_bytes().len(),
        SyntaxElement::Node(c) => c.text().as_str().as_bytes().len(),
    }
}

/// Whether a node begins with whitespace.
fn node_begins_blank(n: &SyntaxNode) -> (r: bool)
    requires
        n.wf(),
    ensures
        r == begins_blank(n.parts()),
{
    n.len() > 0 && token_at(n, 0, SyntaxKind::WHITESPACE)
}

/// How far the first entry of a block collection is indented.
fn first_entry_col(block: &SyntaxNode) -> (r: Option<usize>)
    requires
        block.wf(),
    ensures
        match first_entry_indent(block.tree()) {
            Some(w) => r is Some && r->0 == w,
            None => r is None,
        },
{
    let len = block.len();
    let ghost cs = block.parts();
    let ghost f = block_entries();
    let mut i: usize = 0;
    while i < len
        invariant
            block.wf(),
            cs == block.parts(),
            f == block_entries(),
            i <= len,
            len == cs.len(),
            node::place_from(cs, i as int, f) == node::place_from(cs, 0, f),
        decreases len - i,
    {
        if let SyntaxElement::Node(e) = block.child_or_token(i) {
            if e.is(SyntaxKind::BLOCK_MAPPING_ENTRY) || e.is(SyntaxKind::BLOCK_SEQUENCE_ENTRY) {
                if node_begins_blank(&e) {
                    return Some(width_at(&e, 0));
                }
                return None;
            }
        }
        i = i + 1;
    }
    None
}

/// Whether the child at `k` begins a line.
fn preceded_by_newline(n: &SyntaxNode, k: usize) -> (r: bool)
    requires
        n.wf(),
        k < n.parts().len(),
    ensures
        r == on_own_line(n.parts(), k as int),
{
    if k == 0 {
        return false;
    }
    if token_at(n, k - 1, SyntaxKind::NEWLINE) {
        return true;
    }
    k >= 2 && token_at(n, k - 1, SyntaxKind::WHITESPACE) && token_at(n, k - 2, SyntaxKind::NEWLINE)
}

/// The place of the whitespace behind the mark of an entry that is longer than
/// one space.
fn find_wide_gap(n: &SyntaxNode) -> (r: Option<usize>)
    requires
        n.wf(),
    ensures
        match wide_gap(n.parts(), 0, false) {
            Some(j) => r is Some && r->0 == j,
            None => r is None,
        },
{
    let len = n.len();
    let mut seen = false;
    let mut j: usize = 0;
    while j < len
        invariant
            n.wf(),
            j <= len,
            len == n.parts().len(),
            wide_gap(n.parts(), j as int, seen) == wide_gap(n.parts(), 0, false),
        decreases len - j,
    {
        if token_at(n, j, SyntaxKind::DASH) || token_at(n, j, SyntaxKind::COLON) {
            seen = true;
        } else if seen {
            if token_at(n, j, SyntaxKind::WHITESPACE) && width_at(n, j) > 1 {
                return Some(j);
            }
            return None;
        }
        j = j + 1;
    }
    None
}

/// As many spaces as the child at `k` stands from where its entry begins.
fn inline_pad(n: &SyntaxNode, k: usize) -> (r: Vec<char>)
    requires
        n.wf(),
        k < n.parts().len(),
    ensures
        r@ == text::spaces(
            inline_offset(
                n.parts(),
                if begins_blank(n.parts()) {
                    1
                } else {
                    0
                },
                k as int,
            ) as int,
        ),
{
    let start: usize = if node_begins_blank(n) {
        1
    } else {
        0
    };
    let ghost cs = n.parts();
    let mut out: Vec<char> = Vec::new();
    let mut j = start;
    assert(out@ =~= text::spaces(0));
    while j < k
        invariant
            n.wf(),
            cs == n.parts(),
            k < cs.len(),
            start <= j,
            j <= k || j == start,
            out@ == text::spaces(inline_offset(cs, start as int, j as int) as int),
        decreases k - j,
    {
        let ghost before = inline_offset(cs, start as int, j as int);
        if token_at(n, j, SyntaxKind::NEWLINE) {
            out = Vec::new();
            assert(out@ =~= text::spaces(0));
        } else {
            let w = width_at(n, j);
            let w = if token_at(n, j, SyntaxKind::WHITESPACE) && w > 1 {
                1
            } else {
                w
            };
            push_spaces(&mut out, w);
            assert(out@ =~= text::spaces((before + w) as int));
        }
        j = j + 1;
    }
    out
}

/// Two spaces more than `pad`.
fn deeper_pad(pad: &Vec<char>) -> (r: Vec<char>)
    requires
        pad@ == text::spaces(pad@.len() as int),
    ensures
        r@ == text::spaces((pad@.len() + 2) as int),
{
    let mut r: Vec<char> = Vec::new();
    push_chars(&mut r, pad);
    push_spaces(&mut r, 2);
    assert(r@ =~= text::spaces((pad@.len() + 2) as int));
    r
}

/// The indentation of the entries of a block on lines of its own.
fn launch_pad(block: &SyntaxNode, pad: &Vec<char>) -> (r: Vec<char>)
    requires
        block.wf(),
        pad@ == text::spaces(pad@.len() as int),
    ensures
        r@ == text::spaces(launch_column(block.tree(), pad@.len() as int)),
{
    match first_entry_col(block) {
        None => {
            let r: Vec<char> = Vec::new();
            assert(r@ =~= text::spaces(0));
            r
        },
        Some(_) => deeper_pad(pad),
    }
}

/// The indentation of the entries of the block that is the child at `k`.
fn child_pad(e: &SyntaxNode, child: &SyntaxNode, k: usize, pad: &Vec<char>) -> (r: Vec<char>)
    requires
        e.wf(),
        child.is_child_of(*e, k as int),
        pad@ == text::spaces(pad@.len() as int),
    ensures
        r@ == text::spaces(child_column(e.whole(), e.path@, e.tree(), k as int, pad@.len() as int)),
{
    let rigid = contains_block_scalar(&e.green);
    if preceded_by_newline(e, k) {
        if !rigid {
            return launch_pad(child, pad);
        }
        let mut r: Vec<char> = Vec::new();
        if let Some(w) = first_entry_col(child) {
            push_spaces(&mut r, w);
            assert(r@ =~= text::spaces(w as int));
        } else {
            assert(r@ =~= text::spaces(0));
        }
        return r;
    }
    if rigid {
        let mut r: Vec<char> = Vec::new();
        let w = observed_block_col(child);
        push_spaces(&mut r, w);
        assert(r@ =~= text::spaces(w as int));
        return r;
    }
    let offset = inline_pad(e, k);
    let mut r: Vec<char> = Vec::new();
    push_chars(&mut r, pad);
    push_chars(&mut r, &offset);
    assert(r@ =~= text::spaces((pad@.len() + offset@.len()) as int));
    r
}

/// What becomes of whitespace.
enum Gap {
    Keep,
    Drop,
    Fill(Vec<char>),
}

impl Gap {
    /// What takes its place, if it changes.
    spec fn change(self) -> Option<Seq<Tree>> {
        match self {
            Gap::Keep => None,
            Gap::Drop => Some(seq![]),
            Gap::Fill(v) => Some(
                seq![Tree::Token { kind: SyntaxKind::WHITESPACE.code(), text: v@ }],
            ),
        }
    }
}

/// The change that makes the whitespace at `k` as wide as `pad`.
fn rewidth_gap(n: &SyntaxNode, k: usize, pad: Vec<char>) -> (r: Gap)
    requires
        n.wf(),
        k < n.parts().len(),
        pad@ == text::spaces(pad@.len() as int),
    ensures
        r.change() == rewidth(n.parts()[k as int], pad@.len() as int),
{
    if width_at(n, k) == pad.len() {
        Gap::Keep
    } else if pad.len() == 0 {
        Gap::Drop
    } else {
        Gap::Fill(pad)
    }
}

/// What becomes of the child at `k` of an entry, if it is whitespace.
fn gap_fix(e: &SyntaxNode, k: usize, own: bool, pad: &Vec<char>) -> (r: Gap)
    requires
        e.wf(),
        k < e.parts().len(),
        pad@ == text::spaces(pad@.len() as int),
    ensures
        r.change() == gap_change(e.tree(), k as int, own, pad@.len() as int),
{
    if !token_at(e, k, SyntaxKind::WHITESPACE) {
        return Gap::Keep;
    }
    if k == 0 && own {
        let mut copy: Vec<char> = Vec::new();
        push_chars(&mut copy, pad);
        assert(copy@ =~= pad@);
        return rewidth_gap(e, k, copy);
    }
    if contains_block_scalar(&e.green) {
        return Gap::Keep;
    }
    if let Some(j) = find_wide_gap(e) {
        if j == k {
            let mut one: Vec<char> = Vec::new();
            push_spaces(&mut one, 1);
            assert(one@ =~= text::spaces(1));
            return Gap::Fill(one);
        }
    }
    let len = e.len();
    if k >= 1 && k < len - 1 && token_at(e, k - 1, SyntaxKind::NEWLINE) {
        if let SyntaxElement::Node(block) = e.child_or_token(k + 1) {
            if block.is(SyntaxKind::BLOCK_MAPPING) || block.is(SyntaxKind::BLOCK_SEQUENCE) {
                let there = launch_pad(&block, pad);
                assert(there@.len() == launch_column(block.tree(), pad@.len() as int));
                return rewidth_gap(e, k, there);
            }
        }
    }
    Gap::Keep
}

/// Whether the indentation of the entry at `i` is to be fixed.
fn fixes_own_indent(block: &SyntaxNode, e: &SyntaxNode, i: usize) -> (r: bool)
    requires
        block.wf(),
        e.is_child_of(*block, i as int),
    ensures
        r == own_indent(block.parts(), i as int),
{
    if contains_block_scalar(&e.green) {
        return false;
    }
    node_begins_blank(e) || (i > 0 && token_at(block, i - 1, SyntaxKind::NEWLINE))
}

// ---- Counting ----

proof fn lemma_entries_changes_grow(
    whole: Tree,
    path: Seq<usize>,
    cs: Seq<Tree>,
    ts: Seq<Tree>,
    col: int,
    n: int,
)
    requires
        0 <= n <= ts.len(),
    ensures
        entries_changes(whole, path, cs, ts.take(n), col) <= entries_changes(
            whole,
            path,
            cs,
            ts,
            col,
        ),
    decreases ts.len(),
{
    if n < ts.len() {
        assert(ts.drop_last().take(n) =~= ts.take(n));
        lemma_entries_changes_grow(whole, path, cs, ts.drop_last(), col, n);
    } else {
        assert(ts.take(n) =~= ts);
    }
}

proof fn lemma_parts_changes_grow(
    whole: Tree,
    path: Seq<usize>,
    e: Tree,
    ts: Seq<Tree>,
    own: bool,
    col: int,
    n: int,
)
    requires
        0 <= n <= ts.len(),
    ensures
        parts_changes(whole, path, e, ts.take(n), own, col) <= parts_changes(
            whole,
            path,
            e,
            ts,
            own,
            col,
        ),
    decreases ts.len(),
{
    if n < ts.len() {
        assert(ts.drop_last().take(n) =~= ts.take(n));
        lemma_parts_changes_grow(whole, path, e, ts.drop_last(), own, col, n);
    } else {
        assert(ts.take(n) =~= ts);
    }
}

/// A sum, where it fits a machine word.
pub open spec fn counted(r: Option<usize>, n: nat) -> bool {
    match r {
        Some(k) => k == n,
        None => n > usize::MAX,
    }
}

/// How many changes there are in a block, where they can be counted.
fn count_block(n: &SyntaxNode, pad: &Vec<char>) -> (r: Option<usize>)
    requires
        n.wf(),
        pad@ == text::spaces(pad@.len() as int),
    ensures
        counted(r, block_changes(n.whole(), n.path@, n.tree(), pad@.len() as int)),
    decreases n.tree(), 0nat,
{
    let ghost tree = n.tree();
    let ghost cs = n.parts();
    let ghost col = pad@.len() as int;
    let len = n.len();
    let mut count: usize = 0;
    let mut i: usize = 0;
    assert(cs.take(0) =~= seq![]);
    while i < len
        invariant
            n.wf(),
            tree == n.tree(),
            cs == n.parts(),
            len == cs.len(),
            i <= len,
            col == pad@.len(),
            pad@ == text::spaces(pad@.len() as int),
            block_changes(n.whole(), n.path@, tree, col) == entries_changes(
                n.whole(),
                n.path@,
                cs,
                cs,
                col,
            ),
            count == entries_changes(n.whole(), n.path@, cs, cs.take(i as int), col),
        decreases len - i,
    {
        proof {
            let x = cs.take(i + 1);
            assert(x.drop_last() =~= cs.take(i as int));
            assert(x.last() == cs[i as int]);
            lemma_entries_changes_grow(n.whole(), n.path@, cs, cs, col, i + 1);
            assert(tree->Node_children == cs);
            assert(decreases_to!(tree => tree->Node_children));
            assert(decreases_to!(cs => cs[i as int]));
        }
        if let SyntaxElement::Node(e) = n.child_or_token(i) {
            if e.is(SyntaxKind::BLOCK_MAPPING_ENTRY) || e.is(SyntaxKind::BLOCK_SEQUENCE_ENTRY) {
                let own = fixes_own_indent(n, &e, i);
                let k = match count_entry(&e, own, pad) {
                    Some(k) => k,
                    None => {
                        return None;
                    },
                };
                count = match count.checked_add(k) {
                    Some(c) => c,
                    None => {
                        return None;
                    },
                };
            }
        }
        i = i + 1;
    }
    assert(cs.take(len as int) =~= cs);
    Some(count)
}

/// How many changes there are in an entry, where they can be counted.
fn count_entry(e: &SyntaxNode, own: bool, pad: &Vec<char>) -> (r: Option<usize>)
    requires
        e.wf(),
        pad@ == text::spaces(pad@.len() as int),
    ensures
        counted(r, entry_changes(e.whole(), e.path@, e.tree(), own, pad@.len() as int)),
    decreases e.tree(), 0nat,
{
    let ghost tree = e.tree();
    let ghost cs = e.parts();
    let ghost col = pad@.len() as int;
    let len = e.len();
    let mut count: usize = 0;
    let mut k: usize = 0;
    assert(cs.take(0) =~= seq![]);
    while k < len
        invariant
            e.wf(),
            tree == e.tree(),
            cs == e.parts(),
            len == cs.len(),
            k <= len,
            col == pad@.len(),
            pad@ == text::spaces(pad@.len() as int),
            entry_changes(e.whole(), e.path@, tree, own, col) >= parts_changes(
                e.whole(),
                e.path@,
                tree,
                cs,
                own,
                col,
            ),
            count == parts_changes(e.whole(), e.path@, tree, cs.take(k as int), own, col),
        decreases len - k,
    {
        proof {
            let x = cs.take(k + 1);
            assert(x.drop_last() =~= cs.take(k as int));
            assert(x.last() == cs[k as int]);
            lemma_parts_changes_grow(e.whole(), e.path@, tree, cs, own, col, k + 1);
            assert(tree->Node_children == cs);
            assert(decreases_to!(tree => tree->Node_children));
            assert(decreases_to!(cs => cs[k as int]));
        }
        match gap_fix(e, k, own, pad) {
            Gap::Keep => {
                if let SyntaxElement::Node(child) = e.child_or_token(k) {
                    if child.is(SyntaxKind::BLOCK_MAPPING) || child.is(
                        SyntaxKind::BLOCK_SEQUENCE,
                    ) {
                        let deeper = child_pad(e, &child, k, pad);
                        let m = match count_block(&child, &deeper) {
                            Some(m) => m,
                            None => {
                                return None;
                            },
                        };
                        count = match count.checked_add(m) {
                            Some(c) => c,
                            None => {
                                return None;
                            },
                        };
                    }
                }
            },
            _ => {
                if count == usize::MAX {
                    return None;
                }
                count = count + 1;
            },
        }
        k = k + 1;
    }
    assert(cs.take(len as int) =~= cs);
    if own && !node_begins_blank(e) && pad.len() > 0 {
        if count == usize::MAX {
            return None;
        }
        count = count + 1;
    }
    Some(count)
}

// ---- Rewriting ----

proof fn lemma_entries_prefix(
    whole: Tree,
    path: Seq<usize>,
    cs: Seq<Tree>,
    ts: Seq<Tree>,
    col: int,
    n: int,
)
    requires
        0 <= n <= ts.len(),
    ensures
        entries_indented(whole, path, cs, ts, col).len() == ts.len(),
        entries_indented(whole, path, cs, ts.take(n), col) == entries_indented(
            whole,
            path,
            cs,
            ts,
            col,
        ).take(n),
    decreases ts.len(),
{
    let all = entries_indented(whole, path, cs, ts, col);
    if n < ts.len() {
        assert(ts.drop_last().take(n) =~= ts.take(n));
        lemma_entries_prefix(whole, path, cs, ts.drop_last(), col, n);
        assert(all.take(n) =~= entries_indented(whole, path, cs, ts.drop_last(), col).take(n));
    } else {
        assert(ts.take(n) =~= ts);
        if ts.len() > 0 {
            lemma_entries_prefix(whole, path, cs, ts.drop_last(), col, n - 1);
        }
        assert(all.take(n) =~= all);
    }
}

proof fn lemma_parts_prefix(
    whole: Tree,
    path: Seq<usize>,
    e: Tree,
    ts: Seq<Tree>,
    own: bool,
    col: int,
    n: int,
)
    requires
        0 <= n <= ts.len(),
    ensures
        ({
            let a = parts_indented(whole, path, e, ts.take(n), own, col);
            let all = parts_indented(whole, path, e, ts, own, col);
            a.len() <= all.len() && all.take(a.len() as int) == a
        }),
    decreases ts.len(),
{
    let all = parts_indented(whole, path, e, ts, own, col);
    if n < ts.len() {
        assert(ts.drop_last().take(n) =~= ts.take(n));
        lemma_parts_prefix(whole, path, e, ts.drop_last(), own, col, n);
        let a = parts_indented(whole, path, e, ts.take(n), own, col);
        let b = parts_indented(whole, path, e, ts.drop_last(), own, col);
        assert(all.take(a.len() as int) =~= b.take(a.len() as int));
    } else {
        assert(ts.take(n) =~= ts);
        assert(all.take(all.len() as int) =~= all);
    }
}

/// What is made of the first children of an entry is no more than what is made of
/// all.
proof fn lemma_parts_grow(
    lead: Seq<Tree>,
    whole: Tree,
    path: Seq<usize>,
    e: Tree,
    ts: Seq<Tree>,
    own: bool,
    col: int,
    n: int,
)
    requires
        0 <= n <= ts.len(),
    ensures
        green::trees_len(lead + parts_indented(whole, path, e, ts.take(n), own, col))
            <= green::trees_len(lead + parts_indented(whole, path, e, ts, own, col)),
{
    lemma_parts_prefix(whole, path, e, ts, own, col, n);
    let a = parts_indented(whole, path, e, ts.take(n), own, col);
    let all = parts_indented(whole, path, e, ts, own, col);
    let m = (lead + a).len() as int;
    assert(all.take(a.len() as int) == a);
    assert((lead + all).subrange(0, m) =~= lead + a) by {
        assert forall|j: int| 0 <= j < m implies (lead + all).subrange(0, m)[j] == (lead + a)[j] by {
            if j >= lead.len() {
                assert(all.take(a.len() as int)[j - lead.len()] == a[j - lead.len()]);
            }
        }
    }
    green::lemma_trees_len_part(lead + all, 0, m);
}

/// Whether a node holds a tree; where there is none the tree would be too long.
pub open spec fn holds(r: Option<rowan::GreenNode>, t: Tree) -> bool {
    match r {
        Some(n) => green::node_tree(n) == t && path::tree_len(t) <= MAX_LEN,
        None => path::tree_len(t) > MAX_LEN,
    }
}

/// The block with its entries indented by `pad`, where it fits.
fn fix_block(n: &SyntaxNode, pad: &Vec<char>) -> (r: Option<rowan::GreenNode>)
    requires
        n.wf(),
        pad@ == text::spaces(pad@.len() as int),
    ensures
        holds(r, block_indented(n.whole(), n.path@, n.tree(), pad@.len() as int)),
    decreases n.tree(), 0nat,
{
    let ghost tree = n.tree();
    let ghost cs = n.parts();
    let ghost col = pad@.len() as int;
    let ghost goal = entries_indented(n.whole(), n.path@, cs, cs, col);
    let len = n.len();
    let mut v: Vec<GreenElement> = Vec::new();
    let mut i: usize = 0;
    assert(cs.take(0) =~= seq![]);
    assert(green::element_trees(v@) =~= seq![]);
    while i < len
        invariant
            n.wf(),
            tree == n.tree(),
            cs == n.parts(),
            len == cs.len(),
            i <= len,
            col == pad@.len(),
            pad@ == text::spaces(pad@.len() as int),
            goal == entries_indented(n.whole(), n.path@, cs, cs, col),
            path::tree_len(block_indented(n.whole(), n.path@, tree, col)) == green::trees_len(goal),
            green::element_trees(v@) == entries_indented(
                n.whole(),
                n.path@,
                cs,
                cs.take(i as int),
                col,
            ),
        decreases len - i,
    {
        let ghost before = green::element_trees(v@);
        let ghost next = entries_indented(n.whole(), n.path@, cs, cs.take(i + 1), col);
        proof {
            let x = cs.take(i + 1);
            assert(x.drop_last() =~= cs.take(i as int));
            assert(x.last() == cs[i as int]);
            lemma_entries_prefix(n.whole(), n.path@, cs, cs, col, i + 1);
            lemma_entries_prefix(n.whole(), n.path@, cs, cs, col, i as int);
            assert(next.last() == goal[i as int]);
            path::lemma_child_len(goal, i as int);
            assert(tree->Node_children == cs);
            assert(decreases_to!(tree => tree->Node_children));
            assert(decreases_to!(cs => cs[i as int]));
        }
        match n.child_or_token(i) {
            SyntaxElement::Node(e) => {
                if e.is(SyntaxKind::BLOCK_MAPPING_ENTRY) || e.is(
                    SyntaxKind::BLOCK_SEQUENCE_ENTRY,
                ) {
                    let own = fixes_own_indent(n, &e, i);
                    match fix_entry(&e, own, pad) {
                        Some(x) => {
                            v.push(GreenElement::Node(x));
                        },
                        None => {
                            return None;
                        },
                    }
                } else {
                    v.push(GreenElement::Node(e.green));
                }
            },
            SyntaxElement::Token(t) => {
                v.push(GreenElement::Token(t.green));
            },
        }
        assert(green::element_trees(v@) =~= before.push(next.last()));
        i = i + 1;
    }
    assert(cs.take(len as int) =~= cs);
    if !row_fits(&v) {
        return None;
    }
    Some(node_new(node_kind(&n.green), v))
}

/// The entry, in a block indented by `pad`, where it fits.
fn fix_entry(e: &SyntaxNode, own: bool, pad: &Vec<char>) -> (r: Option<rowan::GreenNode>)
    requires
        e.wf(),
        pad@ == text::spaces(pad@.len() as int),
    ensures
        holds(r, entry_indented(e.whole(), e.path@, e.tree(), own, pad@.len() as int)),
    decreases e.tree(), 0nat,
{
    let ghost tree = e.tree();
    let ghost cs = e.parts();
    let ghost col = pad@.len() as int;
    let len = e.len();
    let mut v: Vec<GreenElement> = Vec::new();
    let ghost lead = given_indent(tree, own, col);
    assert(green::element_trees(v@) =~= seq![]);
    if own && !node_begins_blank(e) && pad.len() > 0 {
        v.push(GreenElement::Token(mk_token(SyntaxKind::WHITESPACE, string_of(pad).as_str())));
    }
    assert(green::element_trees(v@) =~= lead);
    let ghost goal = lead + parts_indented(e.whole(), e.path@, tree, cs, own, col);
    let mut k: usize = 0;
    assert(cs.take(0) =~= seq![]);
    assert(green::element_trees(v@) =~= lead + parts_indented(
        e.whole(),
        e.path@,
        tree,
        cs.take(0),
        own,
        col,
    ));
    while k < len
        invariant
            e.wf(),
            tree == e.tree(),
            cs == e.parts(),
            len == cs.len(),
            k <= len,
            col == pad@.len(),
            pad@ == text::spaces(pad@.len() as int),
            goal == lead + parts_indented(e.whole(), e.path@, tree, cs, own, col),
            path::tree_len(entry_indented(e.whole(), e.path@, tree, own, col))
                == green::trees_len(goal),
            green::element_trees(v@) == lead + parts_indented(
                e.whole(),
                e.path@,
                tree,
                cs.take(k as int),
                own,
                col,
            ),
        decreases len - k,
    {
        let ghost before = green::element_trees(v@);
        let ghost next = lead + parts_indented(
            e.whole(),
            e.path@,
            tree,
            cs.take(k + 1),
            own,
            col,
        );
        let ghost part = match gap_change(tree, k as int, own, col) {
            Some(x) => x,
            None => if is_block(cs[k as int]) {
                seq![
                    block_indented(
                        e.whole(),
                        e.path@.push(k),
                        cs[k as int],
                        child_column(e.whole(), e.path@, tree, k as int, col),
                    ),
                ]
            } else {
                seq![cs[k as int]]
            },
        };
        proof {
            let x = cs.take(k + 1);
            assert(x.drop_last() =~= cs.take(k as int));
            assert(x.last() == cs[k as int]);
            lemma_parts_grow(lead, e.whole(), e.path@, tree, cs, own, col, k + 1);
            let made = parts_indented(e.whole(), e.path@, tree, cs.take(k as int), own, col);
            assert(before == lead + made);
            assert(next =~= before + part);
            assert(tree->Node_children == cs);
            assert(decreases_to!(tree => tree->Node_children));
            assert(decreases_to!(cs => cs[k as int]));
        }
        match gap_fix(e, k, own, pad) {
            Gap::Fill(w) => {
                v.push(GreenElement::Token(mk_token(SyntaxKind::WHITESPACE, string_of(&w).as_str())));
            },
            Gap::Drop => {},
            Gap::Keep => match e.child_or_token(k) {
                SyntaxElement::Node(child) => {
                    if child.is(SyntaxKind::BLOCK_MAPPING) || child.is(
                        SyntaxKind::BLOCK_SEQUENCE,
                    ) {
                        let deeper = child_pad(e, &child, k, pad);
                        proof {
                            let b = block_indented(
                                e.whole(),
                                e.path@.push(k),
                                cs[k as int],
                                child_column(e.whole(), e.path@, tree, k as int, col),
                            );
                            assert(next =~= before.push(b));
                            assert(next[next.len() - 1] == b);
                            path::lemma_child_len(next, next.len() - 1);
                            assert(deeper@.len() == child_column(
                                e.whole(),
                                e.path@,
                                tree,
                                k as int,
                                col,
                            ));
                        }
                        match fix_block(&child, &deeper) {
                            Some(x) => {
                                v.push(GreenElement::Node(x));
                            },
                            None => {
                                return None;
                            },
                        }
                    } else {
                        v.push(GreenElement::Node(child.green));
                    }
                },
                SyntaxElement::Token(t) => {
                    v.push(GreenElement::Token(t.green));
                },
            },
        }
        assert(green::element_trees(v@) =~= before + part);
        k = k + 1;
    }
    assert(cs.take(len as int) =~= cs);
    if !row_fits(&v) {
        return None;
    }
    Some(node_new(node_kind(&e.green), v))
}

/// The place of the first block collection in a node, if there is one.
fn block_in(n: &SyntaxNode) -> (r: Option<SyntaxNode>)
    requires
        n.wf(),
    ensures
        match node::place_from(n.parts(), 0, blocks()) {
            Some(j) => r is Some && r->0.is_child_of(*n, j),
            None => r is None,
        },
{
    let len = n.len();
    let ghost f = blocks();
    let mut i: usize = 0;
    while i < len
        invariant
            n.wf(),
            f == blocks(),
            i <= len,
            len == n.parts().len(),
            node::place_from(n.parts(), i as int, f) == node::place_from(n.parts(), 0, f),
        decreases len - i,
    {
        if let SyntaxElement::Node(c) = n.child_or_token(i) {
            if c.is(SyntaxKind::BLOCK_MAPPING) || c.is(SyntaxKind::BLOCK_SEQUENCE) {
                return Some(c);
            }
        }
        i = i + 1;
    }
    None
}

/// The block collection of a node, if it is a document and has one.
fn find_document_root(doc: &SyntaxNode) -> (r: Option<SyntaxNode>)
    requires
        doc.wf(),
    ensures
        match root_block(doc.tree()) {
            Some(j) => r is Some && r->0.is_child_of(*doc, j),
            None => r is None,
        },
{
    if doc.is(SyntaxKind::DOCUMENT) {
        block_in(doc)
    } else {
        None
    }
}

proof fn lemma_documents(whole: Tree, ts: Seq<Tree>, n: int)
    requires
        0 <= n <= ts.len(),
    ensures
        documents_indented(whole, ts).len() == ts.len(),
        documents_indented(whole, ts.take(n)) == documents_indented(whole, ts).take(n),
        documents_changes(whole, ts.take(n)) <= documents_changes(whole, ts),
        n < ts.len() ==> documents_indented(whole, ts)[n] == document_indented(whole, n, ts[n]),
    decreases ts.len(),
{
    let all = documents_indented(whole, ts);
    if n < ts.len() {
        assert(ts.drop_last().take(n) =~= ts.take(n));
        lemma_documents(whole, ts.drop_last(), n);
        assert(all.take(n) =~= documents_indented(whole, ts.drop_last()).take(n));
    } else {
        assert(ts.take(n) =~= ts);
        if ts.len() > 0 {
            lemma_documents(whole, ts.drop_last(), n - 1);
        }
        assert(all.take(n) =~= all);
    }
}

/// The child `n` at `i` of a stream, with its indentation fixed, and how many
/// changes that takes, where that fits.
fn fix_document(n: &SyntaxNode, i: usize) -> (r: Option<(rowan::GreenNode, usize)>)
    requires
        n.wf(),
        n.path@ == seq![i],
    ensures
        match r {
            Some((m, k)) => {
                &&& green::node_tree(m) == document_indented(n.whole(), i as int, n.tree())
                &&& k == document_changes(n.whole(), i as int, n.tree())
            },
            None => {
                ||| path::tree_len(document_indented(n.whole(), i as int, n.tree())) > MAX_LEN
                ||| document_changes(n.whole(), i as int, n.tree()) > usize::MAX
            },
        },
{
    let block = match find_document_root(n) {
        Some(b) => b,
        None => {
            return Some((green::node_clone(&n.green), 0));
        },
    };
    let pad: Vec<char> = Vec::new();
    assert(pad@ =~= text::spaces(0));
    let j = block.index();
    let ghost cs = n.parts();
    let ghost fixed = block_indented(n.whole(), block.path@, block.tree(), 0);
    let ghost goal = cs.update(j as int, fixed);
    assert(block.path@ =~= seq![i, j]);
    assert(document_indented(n.whole(), i as int, n.tree()) == path::with_children(
        n.tree(),
        goal,
    ));
    proof {
        assert(goal[j as int] == fixed);
        path::lemma_child_len(goal, j as int);
    }
    let count = match count_block(&block, &pad) {
        Some(c) => c,
        None => {
            return None;
        },
    };
    let new = match fix_block(&block, &pad) {
        Some(x) => x,
        None => {
            return None;
        },
    };
    let len = n.len();
    let mut v: Vec<GreenElement> = Vec::new();
    let mut k: usize = 0;
    assert(green::element_trees(v@) =~= goal.take(0));
    while k < len
        invariant
            n.wf(),
            cs == n.parts(),
            len == cs.len(),
            k <= len,
            j < len,
            goal == cs.update(j as int, green::node_tree(new)),
            green::element_trees(v@) == goal.take(k as int),
        decreases len - k,
    {
        let ghost before = green::element_trees(v@);
        if k == j {
            let copy = green::node_clone(&new);
            assert(green::node_tree(copy) == green::node_tree(new));
            v.push(GreenElement::Node(copy));
        } else {
            match n.child_or_token(k) {
                SyntaxElement::Node(c) => {
                    v.push(GreenElement::Node(c.green));
                },
                SyntaxElement::Token(t) => {
                    v.push(GreenElement::Token(t.green));
                },
            }
        }
        assert(green::element_trees(v@) =~= before.push(goal[k as int]));
        assert(goal.take(k + 1) =~= goal.take(k as int).push(goal[k as int]));
        k = k + 1;
    }
    assert(goal.take(len as int) =~= goal);
    if !row_fits(&v) {
        return None;
    }
    Some((node_new(node_kind(&n.green), v), count))
}

/// Whether what fixing the indentation makes of a stream is no longer than a tree
/// can be, and the changes can be counted.
pub open spec fn reindent_fits(t: Tree) -> bool {
    t.is_node_of(SyntaxKind::STREAM) ==> path::tree_len(reindented(t)) <= MAX_LEN
        && reindent_changes(t) <= usize::MAX
}

/// Fixes the indentation of the block collection of each document of a tree, and
/// of all that it holds, and says how many changes that took, where what comes out
/// fits.
pub fn try_reindent(tree: &mut SyntaxTree) -> (r: Option<usize>)
    requires
        old(tree).wf(),
    ensures
        final(tree).wf(),
        match r {
            Some(n) => {
                &&& final(tree)@ == reindented(old(tree)@)
                &&& n == reindent_changes(old(tree)@)
                &&& reindent_fits(old(tree)@)
            },
            None => !reindent_fits(old(tree)@) && final(tree)@ == old(tree)@,
        },
{
    let stream = tree.root.handle();
    if !stream.is(SyntaxKind::STREAM) {
        return Some(0);
    }
    let ghost t = tree@;
    let ghost cs = stream.parts();
    let ghost goal = documents_indented(t, cs);
    let len = stream.len();
    let mut v: Vec<GreenElement> = Vec::new();
    let mut count: usize = 0;
    let mut i: usize = 0;
    assert(cs.take(0) =~= seq![]);
    assert(green::element_trees(v@) =~= seq![]);
    while i < len
        invariant
            tree@ == t,
            tree.wf(),
            t == old(tree)@,
            t.is_node_of(SyntaxKind::STREAM),
            stream.wf(),
            stream.path@.len() == 0,
            stream.whole() == t,
            stream.tree() == t,
            cs == stream.parts(),
            len == cs.len(),
            i <= len,
            goal == documents_indented(t, cs),
            path::tree_len(reindented(t)) == green::trees_len(goal),
            reindent_changes(t) == documents_changes(t, cs),
            green::element_trees(v@) == documents_indented(t, cs.take(i as int)),
            count == documents_changes(t, cs.take(i as int)),
        decreases len - i,
    {
        let ghost before = green::element_trees(v@);
        proof {
            let x = cs.take(i + 1);
            assert(x.drop_last() =~= cs.take(i as int));
            assert(x.last() == cs[i as int]);
            lemma_documents(t, cs, i as int);
            lemma_documents(t, cs, i + 1);
            path::lemma_child_len(goal, i as int);
        }
        match stream.child_or_token(i) {
            SyntaxElement::Node(n) => {
                assert(n.path@ =~= seq![i]);
                let (new, k) = match fix_document(&n, i) {
                    Some(x) => x,
                    None => {
                        return None;
                    },
                };
                v.push(GreenElement::Node(new));
                count = match count.checked_add(k) {
                    Some(c) => c,
                    None => {
                        return None;
                    },
                };
            },
            SyntaxElement::Token(x) => {
                v.push(GreenElement::Token(x.green));
            },
        }
        assert(green::element_trees(v@) =~= before.push(document_indented(t, i as int, cs[i as int])));
        i = i + 1;
    }
    assert(cs.take(len as int) =~= cs);
    if !row_fits(&v) {
        return None;
    }
    let new = node_new(node_kind(&stream.green), v);
    tree.set_root(SyntaxNode::new_root(new));
    Some(count)
}

/// Fixes the indentation of the block collection of each document of a tree, and
/// of all that it holds, and says how many changes that took.
pub fn reindent(tree: &mut SyntaxTree) -> (r: usize)
    requires
        old(tree).wf(),
        reindent_fits(old(tree)@),
    ensures
        final(tree).wf(),
        final(tree)@ == reindented(old(tree)@),
        r == reindent_changes(old(tree)@),
{
    match try_reindent(tree) {
        Some(n) => n,
        None => 0,
    }
}

} // verus!

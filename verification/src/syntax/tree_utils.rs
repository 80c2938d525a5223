//! Where a node stands, and how far it is indented.

use vstd::prelude::*;
use vstd::string::*;
use vstd::utf8::*;

use crate::syntax::green;
use crate::syntax::green::{emit_node, node_child, node_len, token_kind, GreenElement, Tree};
use crate::syntax::kind::SyntaxKind;
use crate::syntax::node;
use crate::syntax::node::{SyntaxElement, SyntaxNode};
use crate::syntax::path;
use crate::syntax::walk;
use crate::text::{chars_of, string_of};

verus! {

/// Whether the entry whose children are `cs` has its key at `i`: the first node
/// among them.
pub open spec fn first_node_at(cs: Seq<Tree>, i: int) -> bool {
    node::place_from(cs, 0, node::any_node()) == Some(i)
}

/// Whether the child at `i` of `p` is the key of a mapping entry.
pub open spec fn key_position(p: Tree, i: int) -> bool {
    (p.is_node_of(SyntaxKind::BLOCK_MAPPING_ENTRY) || p.is_node_of(
        SyntaxKind::FLOW_MAPPING_ENTRY,
    )) && first_node_at(p.children(), i)
}

/// Whether a tree holds a literal or folded scalar.
pub open spec fn has_block_scalar(t: Tree) -> bool
    decreases t,
{
    match t {
        Tree::Token { .. } => t.is_token_of(SyntaxKind::LITERAL_SCALAR) || t.is_token_of(
            SyntaxKind::FOLDED_SCALAR,
        ),
        Tree::Node { children, .. } => any_block_scalar(children),
    }
}

/// Whether one of trees in a row holds a literal or folded scalar.
pub open spec fn any_block_scalar(ts: Seq<Tree>) -> bool
    decreases ts,
{
    ts.len() > 0 && (any_block_scalar(ts.drop_last()) || has_block_scalar(ts.last()))
}

/// Whether a tree holds a literal or folded scalar.
pub(crate) fn contains_block_scalar(n: &rowan::GreenNode) -> (r: bool)
    ensures
        r == has_block_scalar(green::node_tree(*n)),
    decreases green::node_tree(*n),
{
    let len = node_len(n);
    let ghost cs = green::node_children_of(*n);
    let ghost tree = green::node_tree(*n);
    let mut found = false;
    let mut i: usize = 0;
    assert(cs.take(0) =~= seq![]);
    while i < len
        invariant
            cs == green::node_children_of(*n),
            tree == green::node_tree(*n),
            i <= len,
            len == cs.len(),
            found == any_block_scalar(cs.take(i as int)),
        decreases len - i,
    {
        proof {
            assert(cs.take(i + 1).drop_last() =~= cs.take(i as int));
            assert(tree->Node_children == cs);
            assert(decreases_to!(tree => tree->Node_children));
            assert(decreases_to!(cs => cs[i as int]));
        }
        let here = match node_child(n, i) {
            GreenElement::Node(c) => contains_block_scalar(&c),
            GreenElement::Token(t) => token_kind(&t) == SyntaxKind::LITERAL_SCALAR.raw()
                || token_kind(&t) == SyntaxKind::FOLDED_SCALAR.raw(),
        };
        assert(here == has_block_scalar(cs[i as int]));
        found = found || here;
        i = i + 1;
    }
    assert(cs.take(len as int) =~= cs);
    found
}

/// Whether a tree is an entry of a block collection.
pub open spec fn block_entry(t: Tree) -> bool {
    t.is_node_of(SyntaxKind::BLOCK_MAPPING_ENTRY) || t.is_node_of(SyntaxKind::BLOCK_SEQUENCE_ENTRY)
}

/// What is no trivia.
pub open spec fn meaningful() -> spec_fn(Tree) -> bool {
    |t: Tree| !t.is_trivia()
}

/// Whether the first of `cs` that is no trivia is a node, and stands at `i`.
pub open spec fn first_meaningful(cs: Seq<Tree>, i: int) -> bool {
    node::place_from(cs, 0, meaningful()) == Some(i) && cs[i] is Node
}

/// Whether a node is the first child of its parent that is no trivia.
pub(crate) fn is_first_meaningful_child(n: &SyntaxNode) -> (r: bool)
    requires
        n.wf(),
    ensures
        r == (n.path@.len() > 0 && first_meaningful(
            path::tree_at(n.whole(), n.path@.drop_last())->0.children(),
            n.path@.last() as int,
        )),
{
    let parent = match n.parent() {
        Some(p) => p,
        None => {
            return false;
        },
    };
    let index = n.index();
    let ghost cs = parent.parts();
    let len = parent.len();
    let mut i: usize = 0;
    while i < len
        invariant
            parent.wf(),
            cs == parent.parts(),
            len == cs.len(),
            i <= len,
            index < len,
            n.path@.len() > 0,
            index == n.path@.last(),
            cs == path::tree_at(n.whole(), n.path@.drop_last())->0.children(),
            node::place_from(cs, i as int, meaningful()) == node::place_from(cs, 0, meaningful()),
        decreases len - i,
    {
        match parent.child_or_token(i) {
            SyntaxElement::Node(_) => {
                return i == index;
            },
            SyntaxElement::Token(t) => {
                if !t.is_trivia() {
                    return false;
                }
            },
        }
        i = i + 1;
    }
    false
}

// ---- Indentation ----

/// The whitespace between the last line break before `path` and `path`; nothing
/// where something else than trivia stands there.
pub open spec fn indent_back(whole: Tree, path: Seq<usize>) -> Option<Seq<char>>
    decreases walk::before(whole, path),
    when path::tree_at(whole, path) is Some
{
    match walk::prev_leaf(whole, path) {
        None => Some(seq![]),
        Some(q) => {
            proof {
                walk::lemma_prev_leaf(whole, path);
            }
            let t = path::tree_at(whole, q)->0;
            if t.is_token_of(SyntaxKind::NEWLINE) {
                Some(seq![])
            } else if !t.is_trivia() {
                None
            } else {
                match indent_back(whole, q) {
                    None => None,
                    Some(s) => if t.is_token_of(SyntaxKind::WHITESPACE) {
                        Some(s + t.text())
                    } else {
                        Some(s)
                    },
                }
            }
        },
    }
}

/// The indentation of the node `t` at `path`: the whitespace it begins with, or
/// that between the last line break and it. A node that does not begin its line
/// has none.
pub open spec fn indent_text(whole: Tree, path: Seq<usize>) -> Seq<char> {
    match walk::first_leaf(path::tree_at(whole, path)->0, path) {
        None => seq![],
        Some(q) => {
            let t = path::tree_at(whole, q)->0;
            if t.is_token_of(SyntaxKind::WHITESPACE) {
                t.text()
            } else {
                match indent_back(whole, q) {
                    Some(s) => s,
                    None => seq![],
                }
            }
        },
    }
}

/// The indentation of a node.
pub(crate) fn indent_of(anchor: &SyntaxNode) -> (r: String)
    requires
        anchor.wf(),
    ensures
        r@ == indent_text(anchor.whole(), anchor.path@),
{
    let ghost whole = anchor.whole();
    let first = match anchor.first_token() {
        Some(t) => t,
        None => {
            let r = String::new();
            assert(r@ =~= seq![]);
            return r;
        },
    };
    if first.is(SyntaxKind::WHITESPACE) {
        return string_of(&chars_of(first.text()));
    }
    let ghost q = first.place();
    let ghost goal = indent_back(whole, q);
    let mut cur = first;
    let mut indent: String = String::new();
    proof {
        match goal {
            Some(s) => {
                assert(s + indent@ =~= s);
            },
            None => {},
        }
    }
    loop
        invariant
            cur.wf(),
            cur.parent.whole() == whole,
            path::tree_at(whole, cur.place()) == Some(cur.tree()),
            anchor.wf(),
            whole == anchor.whole(),
            walk::first_leaf(anchor.tree(), anchor.path@) == Some(q),
            !path::tree_at(whole, q)->0.is_token_of(SyntaxKind::WHITESPACE),
            goal == indent_back(whole, q),
            goal == (match indent_back(whole, cur.place()) {
                Some(s) => Some(s + indent@),
                None => None,
            }),
        ensures
            goal == Some(indent@),
        decreases walk::before(whole, cur.place()),
    {
        let t = match cur.prev_token() {
            Some(t) => t,
            None => {
                assert(seq![] + indent@ =~= indent@);
                break;
            },
        };
        proof {
            walk::lemma_prev_leaf(whole, cur.place());
        }
        if t.is(SyntaxKind::NEWLINE) {
            assert(seq![] + indent@ =~= indent@);
            break;
        }
        if !t.is_trivia() {
            let r = String::new();
            assert(r@ =~= seq![]);
            return r;
        }
        if t.is(SyntaxKind::WHITESPACE) {
            let ghost old_indent = indent@;
            let mut longer = string_of(&chars_of(t.text()));
            longer.push_str(indent.as_str());
            indent = longer;
            proof {
                match indent_back(whole, t.place()) {
                    Some(s) => {
                        assert((s + t.tree().text()) + old_indent =~= s + indent@);
                    },
                    None => {},
                }
            }
        }
        cur = t;
    }
    indent
}

// ---- Columns ----

/// Whether what stands behind a tree is on another line than what stands before it:
/// it is a line break, or a document, as the next one begins a line.
pub open spec fn breaks_line(t: Tree) -> bool {
    t.is_token_of(SyntaxKind::NEWLINE) || t.is_node_of(SyntaxKind::DOCUMENT)
}

/// The last place before `i` among `cs` at which a line ends.
pub open spec fn last_break(cs: Seq<Tree>, i: int) -> Option<int>
    decreases i,
{
    if i <= 0 {
        None
    } else if breaks_line(cs[i - 1]) {
        Some(i - 1)
    } else {
        last_break(cs, i - 1)
    }
}

/// The text on the line of the node at `path` that counts as standing before
/// `tail`, with `tail` behind it: that since the last line break among the
/// node's siblings or, where there is none, among those of a node above.
pub open spec fn line_before(whole: Tree, path: Seq<usize>, tail: Seq<char>) -> Seq<char>
    decreases path.len(),
{
    if path.len() == 0 {
        tail
    } else {
        let up = path.drop_last();
        let cs = path::tree_at(whole, up)->0.children();
        let i = path.last() as int;
        match last_break(cs, i) {
            Some(j) => green::trees_text(cs.subrange(j + 1, i)) + tail,
            None => line_before(whole, up, tail),
        }
    }
}

/// The column of the block at `path`, in bytes: the text since the last line
/// break among its siblings; where there is none, what stands before it in its
/// parent, behind what `line_before` finds for the parent.
pub open spec fn block_column(whole: Tree, path: Seq<usize>) -> nat {
    if path.len() == 0 {
        0
    } else {
        let up = path.drop_last();
        let cs = path::tree_at(whole, up)->0.children();
        let i = path.last() as int;
        match last_break(cs, i) {
            Some(j) => encode_utf8(green::trees_text(cs.subrange(j + 1, i))).len(),
            None => encode_utf8(line_before(whole, up, green::trees_text(cs.take(i)))).len(),
        }
    }
}

/// The last place before `i` among the children of `n` at which a line ends.
fn find_last_break(n: &SyntaxNode, i: usize) -> (r: Option<usize>)
    requires
        n.wf(),
        i <= n.parts().len(),
    ensures
        match last_break(n.parts(), i as int) {
            Some(j) => r == Some(j as usize) && 0 <= j < i,
            None => r is None,
        },
{
    let mut k = i;
    while k > 0
        invariant
            n.wf(),
            k <= i <= n.parts().len(),
            last_break(n.parts(), k as int) == last_break(n.parts(), i as int),
        decreases k,
    {
        let ends = match n.child_or_token(k - 1) {
            SyntaxElement::Token(t) => t.is(SyntaxKind::NEWLINE),
            SyntaxElement::Node(c) => c.is(SyntaxKind::DOCUMENT),
        };
        if ends {
            return Some(k - 1);
        }
        k = k - 1;
    }
    None
}

/// The text of the children from `a` up to `b`.
fn text_between(n: &SyntaxNode, a: usize, b: usize) -> (r: String)
    requires
        n.wf(),
        a <= b <= n.parts().len(),
    ensures
        r@ == green::trees_text(n.parts().subrange(a as int, b as int)),
{
    let ghost cs = n.parts();
    let mut out = String::new();
    let mut i = a;
    assert(cs.subrange(a as int, a as int) =~= seq![]);
    assert(out@ =~= green::trees_text(cs.subrange(a as int, i as int)));
    while i < b
        invariant
            n.wf(),
            cs == n.parts(),
            a <= i <= b <= cs.len(),
            out@ == green::trees_text(cs.subrange(a as int, i as int)),
        decreases b - i,
    {
        let ghost before = out@;
        match n.child_or_token(i) {
            SyntaxElement::Node(c) => {
                emit_node(&c.green, &mut out);
            },
            SyntaxElement::Token(t) => {
                out.push_str(t.text());
            },
        }
        proof {
            let x = cs.subrange(a as int, i + 1);
            assert(x.drop_last() =~= cs.subrange(a as int, i as int));
            assert(x.last() == cs[i as int]);
            assert(out@ =~= before + cs[i as int].text());
        }
        i = i + 1;
    }
    out
}

/// The column of a block.
pub(crate) fn observed_block_col(block: &SyntaxNode) -> (r: usize)
    requires
        block.wf(),
    ensures
        r == block_column(block.whole(), block.path@),
{
    let parent = match block.parent() {
        Some(p) => p,
        None => {
            return 0;
        },
    };
    let i = block.index();
    match find_last_break(&parent, i) {
        Some(j) => text_between(&parent, j + 1, i).as_str().as_bytes().len(),
        None => {
            let tail = text_between(&parent, 0, i);
            assert(parent.parts().subrange(0, i as int) =~= parent.parts().take(i as int));
            observed_block_col_from_ancestor(&parent, tail).as_str().as_bytes().len()
        },
    }
}

/// The text on the line of a node that counts as standing before `tail`, with
/// `tail` behind it.
pub(crate) fn observed_block_col_from_ancestor(n: &SyntaxNode, tail: String) -> (r: String)
    requires
        n.wf(),
    ensures
        r@ == line_before(n.whole(), n.path@, tail@),
    decreases n.path@.len(),
{
    let parent = match n.parent() {
        Some(p) => p,
        None => {
            return tail;
        },
    };
    let i = n.index();
    match find_last_break(&parent, i) {
        Some(j) => {
            let mut out = text_between(&parent, j + 1, i);
            out.push_str(tail.as_str());
            out
        },
        None => observed_block_col_from_ancestor(&parent, tail),
    }
}

} // verus!

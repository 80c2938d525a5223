//! Trailing whitespace.

use vstd::prelude::*;
use vstd::string::*;

use crate::edit::make::mk_token;
use crate::fixers;
use crate::fixers::Fixed;
use crate::syntax::green;
use crate::syntax::green::{
    node_child, node_kind, node_len, node_new, row_fits, token_kind, token_text, GreenElement, Tree,
};
use crate::syntax::kind::SyntaxKind;
use crate::syntax::node::SyntaxNode;
use crate::syntax::tree::SyntaxTree;
use crate::text::{chars_of, chars_slice, string_of};

verus! {

/// The kind of the first token of a tree. There is none where the first child,
/// at some depth, is a node without children.
pub open spec fn first_kind(t: Tree) -> Option<u16>
    decreases t,
{
    match t {
        Tree::Token { kind, .. } => Some(kind),
        Tree::Node { children, .. } => if children.len() == 0 {
            None
        } else {
            first_kind(children[0])
        },
    }
}

/// The kind of the token behind the child at `i`, where `after` is that of the
/// token behind the node.
pub open spec fn kind_after(cs: Seq<Tree>, i: int, after: Option<u16>) -> Option<u16> {
    if i + 1 < cs.len() {
        first_kind(cs[i + 1])
    } else {
        after
    }
}

/// Whether a token behind which `after` comes is at the end of its line.
pub open spec fn ends_line(after: Option<u16>) -> bool {
    after is None || after == Some(SyntaxKind::NEWLINE.code())
}

/// `s` without the spaces and tabs it ends with.
pub open spec fn trimmed_end(s: Seq<char>) -> Seq<char>
    decreases s.len(),
{
    if s.len() > 0 && (s.last() == ' ' || s.last() == '\t') {
        trimmed_end(s.drop_last())
    } else {
        s
    }
}

/// What becomes of a token: whitespace at the end of a line goes, and so does
/// that at the end of a comment.
pub open spec fn token_trimmed(t: Tree, after: Option<u16>) -> Fixed {
    let s = trimmed_end(t.text());
    if t.is_token_of(SyntaxKind::WHITESPACE) && ends_line(after) {
        fixers::changed(seq![])
    } else if t.is_token_of(SyntaxKind::COMMENT) && s.len() < t.text().len() {
        fixers::changed(seq![Tree::Token { kind: t.kind(), text: s }])
    } else {
        fixers::kept(t)
    }
}

/// What becomes of a tree behind which a token of kind `after` comes.
pub open spec fn tree_trimmed(t: Tree, after: Option<u16>) -> Fixed
    decreases t,
{
    match t {
        Tree::Token { .. } => token_trimmed(t, after),
        Tree::Node { kind, children } => fixers::around(
            kind,
            all_trimmed(children, children, after),
        ),
    }
}

/// What becomes of the first children, `ts`, of a node with the children `cs`.
pub open spec fn all_trimmed(cs: Seq<Tree>, ts: Seq<Tree>, after: Option<u16>) -> Fixed
    decreases ts,
{
    if ts.len() == 0 {
        fixers::nothing()
    } else {
        fixers::both(
            all_trimmed(cs, ts.drop_last(), after),
            tree_trimmed(ts.last(), kind_after(cs, ts.len() - 1, after)),
        )
    }
}

/// What is made of the first children is no more than what is made of all.
proof fn lemma_trimmed_grow(cs: Seq<Tree>, ts: Seq<Tree>, after: Option<u16>, n: int)
    requires
        0 <= n <= ts.len(),
    ensures
        all_trimmed(cs, ts.take(n), after).count <= all_trimmed(cs, ts, after).count,
        green::trees_len(all_trimmed(cs, ts.take(n), after).trees) <= green::trees_len(
            all_trimmed(cs, ts, after).trees,
        ),
    decreases ts.len(),
{
    if n < ts.len() {
        assert(ts.drop_last().take(n) =~= ts.take(n));
        lemma_trimmed_grow(cs, ts.drop_last(), after, n);
        fixers::lemma_both_len(
            all_trimmed(cs, ts.drop_last(), after),
            tree_trimmed(ts.last(), kind_after(cs, ts.len() - 1, after)),
        );
    } else {
        assert(ts.take(n) =~= ts);
    }
}

/// The kind of the first token of a node.
pub(crate) fn first_token_kind(n: &rowan::GreenNode) -> (r: Option<u16>)
    ensures
        r == first_kind(green::node_tree(*n)),
    decreases green::node_tree(*n),
{
    let ghost tree = green::node_tree(*n);
    if node_len(n) == 0 {
        return None;
    }
    proof {
        assert(tree->Node_children == green::node_children_of(*n));
        assert(decreases_to!(tree => tree->Node_children));
        assert(decreases_to!(tree->Node_children => tree->Node_children[0]));
    }
    match node_child(n, 0) {
        GreenElement::Node(c) => first_token_kind(&c),
        GreenElement::Token(t) => {
            assert(first_kind(green::node_children_of(*n)[0]) == Some(green::token_kind_of(t)));
            Some(token_kind(&t))
        },
    }
}

/// The characters of a text without the spaces and tabs it ends with.
fn trim_end(v: &Vec<char>) -> (r: Vec<char>)
    ensures
        r@ == trimmed_end(v@),
{
    let mut n = v.len();
    assert(v@.take(n as int) =~= v@);
    while n > 0 && (v[n - 1] == ' ' || v[n - 1] == '\t')
        invariant
            n <= v@.len(),
            trimmed_end(v@.take(n as int)) == trimmed_end(v@),
        decreases n,
    {
        assert(v@.take(n as int).drop_last() =~= v@.take(n - 1));
        n = n - 1;
    }
    let r = chars_slice(v, 0, n);
    assert(r@ =~= v@.take(n as int));
    r
}

/// Trims a node behind which a token of kind `after` comes, where what comes out
/// fits.
fn trim_node(n: &rowan::GreenNode, after: Option<u16>) -> (r: Option<(rowan::GreenNode, usize)>)
    ensures
        match r {
            Some((m, k)) => tree_trimmed(green::node_tree(*n), after) == (Fixed {
                trees: seq![green::node_tree(m)],
                count: k as nat,
            }) && fixers::fits(tree_trimmed(green::node_tree(*n), after)),
            None => !fixers::fits(tree_trimmed(green::node_tree(*n), after)),
        },
    decreases green::node_tree(*n),
{
    let ghost tree = green::node_tree(*n);
    let ghost cs = green::node_children_of(*n);
    let ghost goal = all_trimmed(cs, cs, after);
    let kind = node_kind(n);
    proof {
        fixers::lemma_around_len(kind, goal);
    }
    let len = node_len(n);
    let mut v: Vec<GreenElement> = Vec::new();
    let mut count: usize = 0;
    let mut i: usize = 0;
    assert(cs.take(0) =~= seq![]);
    assert(green::element_trees(v@) =~= seq![]);
    while i < len
        invariant
            tree == green::node_tree(*n),
            cs == green::node_children_of(*n),
            i <= len,
            len == cs.len(),
            goal == all_trimmed(cs, cs, after),
            fixers::fits(tree_trimmed(tree, after)) == fixers::fits(goal),
            green::element_trees(v@) == all_trimmed(cs, cs.take(i as int), after).trees,
            count == all_trimmed(cs, cs.take(i as int), after).count,
        decreases len - i,
    {
        let ghost part = all_trimmed(cs, cs.take(i as int), after);
        let next = if i + 1 < len {
            match node_child(n, i + 1) {
                GreenElement::Node(c) => first_token_kind(&c),
                GreenElement::Token(t) => Some(token_kind(&t)),
            }
        } else {
            after
        };
        assert(next == kind_after(cs, i as int, after));
        let ghost one = tree_trimmed(cs[i as int], next);
        proof {
            let x = cs.take(i + 1);
            assert(x.drop_last() =~= cs.take(i as int));
            assert(x.last() == cs[i as int]);
            assert(all_trimmed(cs, x, after) == fixers::both(part, one));
            lemma_trimmed_grow(cs, cs, after, i + 1);
            fixers::lemma_both_len(part, one);
            assert(tree->Node_children == cs);
            assert(decreases_to!(tree => tree->Node_children));
            assert(decreases_to!(cs => cs[i as int]));
        }
        let ghost before = green::element_trees(v@);
        match node_child(n, i) {
            GreenElement::Node(c) => {
                let (m, k) = match trim_node(&c, next) {
                    Some(x) => x,
                    None => {
                        return None;
                    },
                };
                v.push(GreenElement::Node(m));
                count = match count.checked_add(k) {
                    Some(c) => c,
                    None => {
                        return None;
                    },
                };
            },
            GreenElement::Token(t) => {
                assert(one == token_trimmed(cs[i as int], next));
                let kind = token_kind(&t);
                let ends = match next {
                    None => true,
                    Some(k) => k == SyntaxKind::NEWLINE.raw(),
                };
                if kind == SyntaxKind::WHITESPACE.raw() && ends {
                    if count == usize::MAX {
                        return None;
                    }
                    count = count + 1;
                } else if kind == SyntaxKind::COMMENT.raw() {
                    let whole = chars_of(token_text(&t));
                    let s = trim_end(&whole);
                    if s.len() < whole.len() {
                        if count == usize::MAX {
                            return None;
                        }
                        v.push(
                            GreenElement::Token(
                                mk_token(SyntaxKind::COMMENT, string_of(&s).as_str()),
                            ),
                        );
                        count = count + 1;
                    } else {
                        v.push(GreenElement::Token(t));
                    }
                } else {
                    v.push(GreenElement::Token(t));
                }
            },
        }
        assert(green::element_trees(v@) =~= before + one.trees);
        i = i + 1;
    }
    assert(cs.take(len as int) =~= cs);
    if !row_fits(&v) {
        return None;
    }
    let m = node_new(kind, v);
    assert(seq![green::node_tree(m)] =~= tree_trimmed(tree, after).trees);
    Some((m, count))
}

/// Takes whitespace away at the ends of lines, where what comes out fits.
pub fn try_trim_trailing_whitespace(tree: &mut SyntaxTree) -> (r: Option<usize>)
    requires
        old(tree).wf(),
    ensures
        final(tree).wf(),
        match r {
            Some(n) => tree_trimmed(old(tree)@, None) == (Fixed {
                trees: seq![final(tree)@],
                count: n as nat,
            }) && fixers::fits(tree_trimmed(old(tree)@, None)),
            None => !fixers::fits(tree_trimmed(old(tree)@, None)) && final(tree)@ == old(tree)@,
        },
{
    match trim_node(&tree.root.green, None) {
        Some((m, n)) => {
            tree.set_root(SyntaxNode::new_root(m));
            Some(n)
        },
        None => None,
    }
}

/// Takes whitespace away at the ends of lines.
pub fn trim_trailing_whitespace(tree: &mut SyntaxTree) -> (r: usize)
    requires
        old(tree).wf(),
        fixers::fits(tree_trimmed(old(tree)@, None)),
    ensures
        final(tree).wf(),
        tree_trimmed(old(tree)@, None) == (Fixed { trees: seq![final(tree)@], count: r as nat }),
{
    match try_trim_trailing_whitespace(tree) {
        Some(n) => n,
        None => 0,
    }
}

} // verus!

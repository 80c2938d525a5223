//! Trees that stand for the same values.

use vstd::prelude::*;

use crate::ast::collections;
use crate::ast::decode::DecodeFault;
use crate::ast::nodes;
use crate::ast::nodes::{AstNode, Document, Node};
use crate::ast::scalar;
use crate::ast::scalar::Scalar;
use crate::ast::value::ValueModel;
use crate::builder::read;
use crate::fixers::scalars;
use crate::fixers::scalars::ScalarRule;
use crate::fixers::trim;
use crate::laws::requoting;
use crate::laws::writing;
use crate::lexer::PlainStop;
use crate::scripting::change;
use crate::syntax::green::Tree;
use crate::syntax::kind::SyntaxKind;
use crate::syntax::node;
use crate::syntax::tree_utils;

verus! {

/// Whether two trees differ in how scalars are written alone: where one has a
/// scalar, the other has one with the same text and value.
pub open spec fn alike(a: Tree, b: Tree) -> bool
    decreases a,
{
    match a {
        Tree::Token { .. } => a == b,
        Tree::Node { kind, children } => {
            &&& b is Node && b.kind() == kind
            &&& scalar::begins_broken(a) == scalar::begins_broken(b)
            &&& if Scalar::accepts(a) {
                &&& scalar::scalar_text(children) == scalar::scalar_text(b.children())
                &&& forall|broken: bool| #[trigger]
                    scalar::scalar_value_in(a, broken) == scalar::scalar_value_in(b, broken)
            } else {
                all_alike(children, b.children())
            }
        },
    }
}

/// Whether the trees of two rows are alike one by one.
pub open spec fn all_alike(a: Seq<Tree>, b: Seq<Tree>) -> bool
    decreases a,
{
    &&& a.len() == b.len()
    &&& a.len() > 0 ==> all_alike(a.drop_last(), b.drop_last()) && alike(a.last(), b.last())
}

/// Trees of rows that are alike are alike.
proof fn lemma_each_alike(a: Seq<Tree>, b: Seq<Tree>, i: int)
    requires
        all_alike(a, b),
        0 <= i < a.len(),
    ensures
        alike(a[i], b[i]),
    decreases a.len(),
{
    if i < a.len() - 1 {
        lemma_each_alike(a.drop_last(), b.drop_last(), i);
    }
}

/// Trees that are alike are of the same kind, and begin with a line break or not.
proof fn lemma_alike(a: Tree, b: Tree)
    requires
        alike(a, b),
    ensures
        (a is Node) == (b is Node),
        a.kind() == b.kind(),
        scalar::begins_broken(a) == scalar::begins_broken(b),
        nodes::typed::<Node>()(a) == nodes::typed::<Node>()(b),
        nodes::typed::<Document>()(a) == nodes::typed::<Document>()(b),
{
}

/// The places of values, and of documents, are the same.
proof fn lemma_same_places(a: Seq<Tree>, b: Seq<Tree>)
    requires
        all_alike(a, b),
    ensures
        node::places(a, nodes::typed::<Node>()) == node::places(b, nodes::typed::<Node>()),
        node::places(a, nodes::typed::<Document>()) == node::places(b, nodes::typed::<Document>()),
    decreases a.len(),
{
    if a.len() > 0 {
        lemma_same_places(a.drop_last(), b.drop_last());
        lemma_alike(a.last(), b.last());
    }
}

/// What stands behind a child is the same.
proof fn lemma_same_break(a: Seq<Tree>, b: Seq<Tree>, i: int, broken: bool)
    requires
        all_alike(a, b),
        0 <= i < a.len(),
    ensures
        scalar::broken_after(a, i, broken) == scalar::broken_after(b, i, broken),
{
    if i + 1 < a.len() {
        lemma_each_alike(a, b, i + 1);
        lemma_alike(a[i + 1], b[i + 1]);
    }
}

/// Trees that are alike stand for the same value.
pub proof fn lemma_alike_model(a: Tree, b: Tree, broken: bool)
    requires
        alike(a, b),
    ensures
        read::node_model(a, broken) == read::node_model(b, broken),
    decreases a, 1int,
{
    match a {
        Tree::Token { .. } => {},
        Tree::Node { kind, children } => {
            if Scalar::accepts(a) {
                assert(scalar::scalar_value_in(a, broken) == scalar::scalar_value_in(b, broken));
            } else {
                lemma_alike_items(children, b.children(), read::item_kind(a), broken);
                lemma_alike_pairs(children, b.children(), read::pair_kind(a), broken);
            }
        },
    }
}

/// An entry that is no scalar is alike child by child.
proof fn lemma_alike_entry(a: Tree, b: Tree)
    requires
        alike(a, b),
        a is Node,
        !Scalar::accepts(a),
    ensures
        all_alike(a.children(), b.children()),
        collections::value_places(a) == collections::value_places(b),
{
    lemma_same_places(a.children(), b.children());
}

/// Rows that are alike hold the same items.
proof fn lemma_alike_items(a: Seq<Tree>, b: Seq<Tree>, kind: SyntaxKind, broken: bool)
    requires
        all_alike(a, b),
        kind == SyntaxKind::BLOCK_SEQUENCE_ENTRY || kind == SyntaxKind::FLOW_SEQUENCE_ENTRY,
    ensures
        read::items_model(a, kind, broken) == read::items_model(b, kind, broken),
    decreases a, 0int,
{
    if a.len() > 0 {
        let x = a.last();
        let y = b.last();
        lemma_alike(x, y);
        lemma_alike_items(a.drop_last(), b.drop_last(), kind, scalar::begins_broken(x));
        if x.is_node_of(kind) {
            lemma_alike_entry(x, y);
            let p = collections::value_places(x);
            node::lemma_places(x.children(), nodes::typed::<Node>());
            if p.len() > 0 {
                lemma_same_break(x.children(), y.children(), p[0], broken);
                lemma_each_alike(x.children(), y.children(), p[0]);
                assert(decreases_to!(a => a[a.len() - 1]));
                assert(decreases_to!(x => x->Node_children));
                lemma_alike_model(
                    x.children()[p[0]],
                    y.children()[p[0]],
                    scalar::broken_after(x.children(), p[0], broken),
                );
            }
        }
        assert(collections::holding(kind)(x) == collections::holding(kind)(y));
    }
}

/// Rows that are alike hold the same keys and values.
proof fn lemma_alike_pairs(a: Seq<Tree>, b: Seq<Tree>, kind: SyntaxKind, broken: bool)
    requires
        all_alike(a, b),
        kind == SyntaxKind::BLOCK_MAPPING_ENTRY || kind == SyntaxKind::FLOW_MAPPING_ENTRY,
    ensures
        read::pairs_model(a, kind, broken) == read::pairs_model(b, kind, broken),
    decreases a, 0int,
{
    if a.len() > 0 {
        let x = a.last();
        let y = b.last();
        lemma_alike(x, y);
        lemma_alike_pairs(a.drop_last(), b.drop_last(), kind, scalar::begins_broken(x));
        if x.is_node_of(kind) {
            lemma_alike_entry(x, y);
            let p = collections::value_places(x);
            node::lemma_places(x.children(), nodes::typed::<Node>());
            assert(decreases_to!(a => a[a.len() - 1]));
            assert(decreases_to!(x => x->Node_children));
            if p.len() > 0 {
                lemma_each_alike(x.children(), y.children(), p[0]);
                lemma_alike(x.children()[p[0]], y.children()[p[0]]);
                assert(read::key_model(x.children()[p[0]]) == read::key_model(y.children()[p[0]]));
            }
            if p.len() > 1 {
                lemma_same_break(x.children(), y.children(), p[1], broken);
                lemma_each_alike(x.children(), y.children(), p[1]);
                lemma_alike_model(
                    x.children()[p[1]],
                    y.children()[p[1]],
                    scalar::broken_after(x.children(), p[1], broken),
                );
            }
        }
        assert(collections::holding(kind)(x) == collections::holding(kind)(y));
    }
}

/// Streams that are alike hold the same document.
pub proof fn lemma_alike_single(a: Tree, b: Tree)
    requires
        alike(a, b),
        a.is_node_of(SyntaxKind::STREAM),
    ensures
        read::single_model(a) == read::single_model(b),
{
    lemma_same_places(a.children(), b.children());
    let p = node::places(a.children(), nodes::typed::<Document>());
    node::lemma_places(a.children(), nodes::typed::<Document>());
    if p.len() == 1 {
        let x = a.children()[p[0]];
        let y = b.children()[p[0]];
        lemma_each_alike(a.children(), b.children(), p[0]);
        lemma_same_break(a.children(), b.children(), p[0], false);
        lemma_same_places(x.children(), y.children());
        let broken = scalar::broken_after(a.children(), p[0], false);
        let q = node::places(x.children(), nodes::typed::<Node>());
        node::lemma_places(x.children(), nodes::typed::<Node>());
        if q.len() > 0 {
            lemma_each_alike(x.children(), y.children(), q[0]);
            lemma_same_break(x.children(), y.children(), q[0], broken);
            lemma_alike_model(
                x.children()[q[0]],
                y.children()[q[0]],
                scalar::broken_after(x.children(), q[0], broken),
            );
        }
    }
}

// ---- Quotes ----

/// Whether a tree holds, between two quotes `q`, one line without a blank at either
/// end.
pub open spec fn quoted_line(t: Tree, q: char) -> bool {
    exists|s: Seq<char>|
        writing::one_line(s) && t == #[trigger] requoting::quoted_by(s, q)
}

/// Whether a tree is a token in quotes.
pub open spec fn is_quoted(t: Tree) -> bool {
    t.is_token_of(SyntaxKind::SINGLE_QUOTED_SCALAR) || t.is_token_of(
        SyntaxKind::DOUBLE_QUOTED_SCALAR,
    )
}

/// Whether scalars hold tokens, each scalar with a token in quotes that token alone,
/// and the token is one line without a blank at either end.
pub open spec fn quotes_one_line(t: Tree) -> bool
    decreases t,
{
    match t {
        Tree::Token { .. } => true,
        Tree::Node { kind, children } => if Scalar::accepts(t) {
            &&& forall|i: int| 0 <= i < children.len() ==> #[trigger] children[i] is Token
            &&& (exists|i: int| 0 <= i < children.len() && is_quoted(#[trigger] children[i])) ==> {
                &&& children.len() == 1
                &&& quoted_line(children[0], '\'') || quoted_line(children[0], '"')
            }
        } else {
            all_quotes_one_line(children)
        },
    }
}

/// Whether that holds of each tree of a row.
pub open spec fn all_quotes_one_line(ts: Seq<Tree>) -> bool
    decreases ts,
{
    ts.len() > 0 ==> all_quotes_one_line(ts.drop_last()) && quotes_one_line(ts.last())
}

/// A tree is like itself.
proof fn lemma_alike_itself(t: Tree)
    ensures
        alike(t, t),
    decreases t, 1int,
{
    if t is Node {
        lemma_all_alike_itself(t->Node_children);
    }
}

/// A row is like itself.
proof fn lemma_all_alike_itself(ts: Seq<Tree>)
    ensures
        all_alike(ts, ts),
    decreases ts, 0int,
{
    if ts.len() > 0 {
        lemma_all_alike_itself(ts.drop_last());
        assert(decreases_to!(ts => ts[ts.len() - 1]));
        lemma_alike_itself(ts.last());
    }
}

/// A rule that drops or changes quotes makes a scalar like the one before.
proof fn lemma_scalar_alike(rule: ScalarRule, t: Tree, key: bool)
    requires
        rule == ScalarRule::Unquote || rule == ScalarRule::SingleQuotes,
        t.is_node_of(SyntaxKind::SCALAR),
        quotes_one_line(t),
        node::place_from(t.children(), 0, scalars::fixable(rule, key)) is Some,
    ensures
        alike(t, scalars::scalars_fixed(rule, t, key).trees[0]),
{
    let cs = t.children();
    let f = scalars::fixable(rule, key);
    let i = node::place_from(cs, 0, f)->0;
    scalars::lemma_place_passes(cs, 0, f);
    let x = cs[i];
    assert(is_quoted(x));
    let q = if quoted_line(cs[0], '\'') {
        '\''
    } else {
        '"'
    };
    let s = choose|s: Seq<char>|
        writing::one_line(s) && cs[0] == #[trigger] requoting::quoted_by(s, q);
    assert(i == 0);
    requoting::lemma_requoting_keeps_the_value(rule, s, q, key, PlainStop::BlockValue, None);
    let y = scalars::new_token(rule, x, key)->0;
    let u = change::scalar_of(y);
    assert(scalars::scalars_fixed(rule, t, key).trees[0] == u);
    assert(cs =~= seq![x]);
    assert(t == change::scalar_of(x));
    lemma_sole(x);
    lemma_sole(y);
    assert forall|broken: bool| #[trigger]
        scalar::scalar_value_in(t, broken) == scalar::scalar_value_in(u, broken) by {
        assert(scalar::token_in(x, broken) == x);
        assert(scalar::token_in(y, broken) == y);
    }
    assert(seq![y][0] == y);
    assert(trim::first_kind(x) == Some(x.kind()) && trim::first_kind(y) == Some(y.kind()));
    assert(trim::first_kind(t) == trim::first_kind(x));
    assert(trim::first_kind(u) == trim::first_kind(y));
    assert(!scalar::begins_broken(t) && !scalar::begins_broken(u));
    assert(scalar::scalar_text(cs) == Ok::<Seq<char>, DecodeFault>(s));
    assert(scalar::scalar_text(u.children()) == Ok::<Seq<char>, DecodeFault>(s));
    assert(scalar::scalar_value(t) == Ok::<ValueModel, DecodeFault>(ValueModel::Text(s)));
}

/// The value token of a scalar that holds one.
proof fn lemma_sole(t: Tree)
    requires
        scalar::token_style(t) is Some,
    ensures
        scalar::value_token_of(seq![t]) == Some(t),
{
    let f = scalar::value_tokens();
    assert(f(t));
    assert(seq![t][0] == t);
    assert(node::place_from(seq![t], 0, f) == Some(0int));
}

/// A rule that drops or changes quotes makes a tree like the one before.
proof fn lemma_fixed_alike(rule: ScalarRule, t: Tree, key: bool)
    requires
        rule == ScalarRule::Unquote || rule == ScalarRule::SingleQuotes,
        quotes_one_line(t),
    ensures
        alike(t, scalars::scalars_fixed(rule, t, key).trees[0]),
    decreases t, 1int,
{
    match t {
        Tree::Token { .. } => {},
        Tree::Node { kind, children } => {
            let at = node::place_from(children, 0, scalars::fixable(rule, key));
            if kind == SyntaxKind::SCALAR.code() && at is Some {
                lemma_scalar_alike(rule, t, key);
            } else if Scalar::accepts(t) {
                scalars::lemma_shapes(rule, t, children);
                let made = scalars::all_scalars_fixed(rule, t, children).trees;
                assert forall|i: int| 0 <= i < children.len() implies made[i]
                    == #[trigger] children[i] by {
                    scalars::lemma_shape(rule, children[i], tree_utils::key_position(t, i));
                }
                assert(made =~= children);
                lemma_alike_itself(t);
            } else {
                let u = scalars::scalars_fixed(rule, t, key).trees[0];
                lemma_all_fixed_alike(rule, t, children);
                assert(u.children() == scalars::all_scalars_fixed(rule, t, children).trees);
                if children.len() > 0 {
                    lemma_each_alike(children, u.children(), 0);
                    lemma_alike(children[0], u.children()[0]);
                }
            }
        },
    }
}

/// So it does of a row.
proof fn lemma_all_fixed_alike(rule: ScalarRule, p: Tree, ts: Seq<Tree>)
    requires
        rule == ScalarRule::Unquote || rule == ScalarRule::SingleQuotes,
        all_quotes_one_line(ts),
    ensures
        all_alike(ts, scalars::all_scalars_fixed(rule, p, ts).trees),
    decreases ts, 0int,
{
    if ts.len() > 0 {
        let key = tree_utils::key_position(p, ts.len() - 1);
        let before = scalars::all_scalars_fixed(rule, p, ts.drop_last()).trees;
        let one = scalars::scalars_fixed(rule, ts.last(), key).trees;
        let all = scalars::all_scalars_fixed(rule, p, ts).trees;
        lemma_all_fixed_alike(rule, p, ts.drop_last());
        assert(decreases_to!(ts => ts[ts.len() - 1]));
        lemma_fixed_alike(rule, ts.last(), key);
        scalars::lemma_shape(rule, ts.last(), key);
        assert(all =~= before + one);
        assert(all.drop_last() =~= before);
        assert(all.last() == one[0]);
    }
}

/// Dropping or changing quotes keeps the value of the document.
pub proof fn lemma_requoted_tree_keeps_the_value(rule: ScalarRule, t: Tree)
    requires
        rule == ScalarRule::Unquote || rule == ScalarRule::SingleQuotes,
        t.is_node_of(SyntaxKind::STREAM),
        quotes_one_line(t),
    ensures
        read::single_model(change::ruled(rule, t)) == read::single_model(t),
{
    lemma_fixed_alike(rule, t, false);
    lemma_alike_single(t, change::ruled(rule, t));
}

} // verus!

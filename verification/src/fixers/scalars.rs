//! Fixers that write scalars in another way.

use vstd::prelude::*;
use vstd::string::*;

use crate::ast::nodes;
use crate::edit::make::mk_token;
use crate::fixers;
use crate::fixers::Fixed;
use crate::lexer;
use crate::lexer::{
    as_plain_scalar, as_single_quoted, as_yaml_1_1_bool, is_yaml_1_1_octal,
    is_yaml_1_1_sexagesimal,
};
use crate::syntax::green;
use crate::syntax::green::{
    node_child, node_kind, node_len, node_new, row_fits, token_kind, token_text, GreenElement, Tree,
};
use crate::syntax::kind::SyntaxKind;
use crate::syntax::node;
use crate::syntax::node::SyntaxNode;
use crate::syntax::tree::SyntaxTree;
use crate::syntax::tree_utils;
use crate::text;
use crate::text::{chars_of, chars_slice, finds_pair, has_char, push_chars, string_of};

verus! {

/// What a fixer does with scalars.
#[derive(Debug, Clone, Copy, PartialEq, Eq, Structural)]
pub enum ScalarRule {
    /// YAML 1.1 boolean words become `true` or `false`; a key is quoted.
    Yaml12Bool,
    /// YAML 1.1 boolean words are quoted.
    QuoteBool,
    /// YAML 1.1 octal numbers are quoted.
    QuoteOctal,
    /// YAML 1.1 sexagesimal numbers are quoted.
    QuoteSexagesimal,
    /// Quotes that are not needed are dropped.
    Unquote,
    /// Double quotes become single quotes.
    SingleQuotes,
}

/// A text between single quotes.
pub open spec fn in_quotes(s: Seq<char>) -> Tree {
    Tree::Token {
        kind: SyntaxKind::SINGLE_QUOTED_SCALAR.code(),
        text: seq!['\''] + s + seq!['\''],
    }
}

/// `s` without the one `c` it begins with and the one it ends with.
pub open spec fn stripped_of(s: Seq<char>, c: char) -> Seq<char> {
    let t = nodes::without_leading(s, c);
    if t.len() > 0 && t.last() == c {
        t.drop_last()
    } else {
        t
    }
}

/// A plain scalar.
pub open spec fn plain_token(s: Seq<char>) -> Tree {
    Tree::Token { kind: SyntaxKind::PLAIN_SCALAR.code(), text: s }
}

/// Whether a text is one that the rule quotes.
pub open spec fn quotes_text(rule: ScalarRule, s: Seq<char>) -> bool {
    match rule {
        ScalarRule::Yaml12Bool => lexer::yaml_1_1_bool(s) is Some,
        ScalarRule::QuoteBool => lexer::yaml_1_1_bool(s) is Some,
        ScalarRule::QuoteOctal => lexer::yaml_1_1_octal(s),
        ScalarRule::QuoteSexagesimal => lexer::yaml_1_1_sexagesimal(s),
        _ => false,
    }
}

/// Whether a text can stand in single quotes.
pub open spec fn quotable(s: Seq<char>) -> bool {
    forall|i: int| 0 <= i < s.len() ==> !lexer::is_control(#[trigger] s[i])
}

/// What the rule writes in place of a value token; `key` says whether the scalar
/// is the key of a mapping entry.
pub open spec fn new_token(rule: ScalarRule, t: Tree, key: bool) -> Option<Tree> {
    let s = t.text();
    if t.is_token_of(SyntaxKind::PLAIN_SCALAR) {
        if quotes_text(rule, s) {
            if rule == ScalarRule::Yaml12Bool && !key {
                Some(
                    plain_token(
                        if lexer::yaml_1_1_bool(s) == Some(true) {
                            "true"@
                        } else {
                            "false"@
                        },
                    ),
                )
            } else {
                Some(in_quotes(s))
            }
        } else {
            None
        }
    } else if rule == ScalarRule::Unquote && t.is_token_of(SyntaxKind::SINGLE_QUOTED_SCALAR) {
        let inner = stripped_of(s, '\'');
        if !text::has_pair(inner, '\'', '\'') && lexer::plain_safe(inner) {
            Some(plain_token(inner))
        } else {
            None
        }
    } else if t.is_token_of(SyntaxKind::DOUBLE_QUOTED_SCALAR) {
        let inner = stripped_of(s, '"');
        if inner.contains('\\') {
            None
        } else if rule == ScalarRule::Unquote && lexer::plain_safe(inner) {
            Some(plain_token(inner))
        } else if rule == ScalarRule::SingleQuotes && quotable(inner) {
            Some(
                Tree::Token {
                    kind: SyntaxKind::SINGLE_QUOTED_SCALAR.code(),
                    text: lexer::single_quoted(inner),
                },
            )
        } else {
            None
        }
    } else {
        None
    }
}

/// The tokens that the rule rewrites.
pub open spec fn fixable(rule: ScalarRule, key: bool) -> spec_fn(Tree) -> bool {
    |t: Tree| t is Token && new_token(rule, t, key) is Some
}

/// What the rule makes of a tree. A scalar with a token that the rule rewrites
/// becomes one with the new token alone.
pub open spec fn scalars_fixed(rule: ScalarRule, t: Tree, key: bool) -> Fixed
    decreases t,
{
    match t {
        Tree::Token { .. } => fixers::kept(t),
        Tree::Node { kind, children } => match node::place_from(children, 0, fixable(rule, key)) {
            Some(i) if kind == SyntaxKind::SCALAR.code() => fixers::changed(
                seq![
                    Tree::Node { kind, children: seq![new_token(rule, children[i], key)->0] },
                ],
            ),
            _ => fixers::around(kind, all_scalars_fixed(rule, t, children)),
        },
    }
}

/// What the rule makes of the first children, `ts`, of the node `p`.
pub open spec fn all_scalars_fixed(rule: ScalarRule, p: Tree, ts: Seq<Tree>) -> Fixed
    decreases ts,
{
    if ts.len() == 0 {
        fixers::nothing()
    } else {
        fixers::both(
            all_scalars_fixed(rule, p, ts.drop_last()),
            scalars_fixed(rule, ts.last(), tree_utils::key_position(p, ts.len() - 1)),
        )
    }
}

/// What is made of the first children is no more than what is made of all.
proof fn lemma_scalars_grow(rule: ScalarRule, p: Tree, ts: Seq<Tree>, n: int)
    requires
        0 <= n <= ts.len(),
    ensures
        all_scalars_fixed(rule, p, ts.take(n)).count <= all_scalars_fixed(rule, p, ts).count,
        green::trees_len(all_scalars_fixed(rule, p, ts.take(n)).trees) <= green::trees_len(
            all_scalars_fixed(rule, p, ts).trees,
        ),
    decreases ts.len(),
{
    if n < ts.len() {
        assert(ts.drop_last().take(n) =~= ts.take(n));
        lemma_scalars_grow(rule, p, ts.drop_last(), n);
        fixers::lemma_both_len(
            all_scalars_fixed(rule, p, ts.drop_last()),
            scalars_fixed(rule, ts.last(), tree_utils::key_position(p, ts.len() - 1)),
        );
    } else {
        assert(ts.take(n) =~= ts);
    }
}

/// A text between single quotes.
fn quoted_token(s: &str) -> (r: rowan::GreenToken)
    ensures
        green::token_tree(r) == in_quotes(s@),
{
    let mut v: Vec<char> = Vec::new();
    v.push('\'');
    push_chars(&mut v, &chars_of(s));
    v.push('\'');
    assert(v@ =~= seq!['\''] + s@ + seq!['\'']);
    mk_token(SyntaxKind::SINGLE_QUOTED_SCALAR, string_of(&v).as_str())
}

/// A text without the one `c` it begins with and the one it ends with.
fn strip_of(s: &str, c: char) -> (r: Vec<char>)
    ensures
        r@ == stripped_of(s@, c),
{
    let v = chars_of(s);
    let n = v.len();
    let i: usize = if n > 0 && v[0] == c {
        1
    } else {
        0
    };
    let j: usize = if i < n && v[n - 1] == c {
        n - 1
    } else {
        n
    };
    let r = chars_slice(&v, i, j);
    assert(r@ =~= stripped_of(s@, c));
    r
}

/// Whether a text is one that the rule quotes.
fn must_quote(rule: ScalarRule, s: &str) -> (r: bool)
    ensures
        r == quotes_text(rule, s@),
{
    match rule {
        ScalarRule::Yaml12Bool | ScalarRule::QuoteBool => as_yaml_1_1_bool(s).is_some(),
        ScalarRule::QuoteOctal => is_yaml_1_1_octal(s),
        ScalarRule::QuoteSexagesimal => is_yaml_1_1_sexagesimal(s),
        _ => false,
    }
}

/// What the rule writes in place of a value token.
pub(crate) fn fix_token(rule: ScalarRule, t: &rowan::GreenToken, key: bool) -> (r: Option<rowan::GreenToken>)
    ensures
        match new_token(rule, green::token_tree(*t), key) {
            Some(x) => r is Some && green::token_tree(r->0) == x,
            None => r is None,
        },
{
    let kind = token_kind(t);
    let s = token_text(t);
    if kind == SyntaxKind::PLAIN_SCALAR.raw() {
        if !must_quote(rule, s) {
            return None;
        }
        if rule == ScalarRule::Yaml12Bool && !key {
            let word = if as_yaml_1_1_bool(s) == Some(true) {
                "true"
            } else {
                "false"
            };
            return Some(mk_token(SyntaxKind::PLAIN_SCALAR, word));
        }
        return Some(quoted_token(s));
    }
    if rule == ScalarRule::Unquote && kind == SyntaxKind::SINGLE_QUOTED_SCALAR.raw() {
        let inner = strip_of(s, '\'');
        if finds_pair(&inner, '\'', '\'') {
            return None;
        }
        let text = string_of(&inner);
        return match as_plain_scalar(text.as_str()) {
            Some(p) => Some(mk_token(SyntaxKind::PLAIN_SCALAR, p)),
            None => None,
        };
    }
    if kind == SyntaxKind::DOUBLE_QUOTED_SCALAR.raw() {
        let inner = strip_of(s, '"');
        if has_char(&inner, '\\') {
            return None;
        }
        let text = string_of(&inner);
        if rule == ScalarRule::Unquote {
            return match as_plain_scalar(text.as_str()) {
                Some(p) => Some(mk_token(SyntaxKind::PLAIN_SCALAR, p)),
                None => None,
            };
        }
        if rule == ScalarRule::SingleQuotes {
            return match as_single_quoted(text.as_str()) {
                Some(q) => Some(mk_token(SyntaxKind::SINGLE_QUOTED_SCALAR, q.as_str())),
                None => None,
            };
        }
    }
    None
}

/// What the rule writes in place of the first token of a node that it rewrites.
fn fix_scalar(rule: ScalarRule, n: &rowan::GreenNode, key: bool) -> (r: Option<rowan::GreenToken>)
    ensures
        match node::place_from(green::node_children_of(*n), 0, fixable(rule, key)) {
            Some(i) => r is Some && Some(green::token_tree(r->0)) == new_token(
                rule,
                green::node_children_of(*n)[i],
                key,
            ),
            None => r is None,
        },
{
    let len = node_len(n);
    let ghost cs = green::node_children_of(*n);
    let ghost f = fixable(rule, key);
    let mut i: usize = 0;
    while i < len
        invariant
            cs == green::node_children_of(*n),
            f == fixable(rule, key),
            i <= len,
            len == cs.len(),
            node::place_from(cs, i as int, f) == node::place_from(cs, 0, f),
        decreases len - i,
    {
        if let GreenElement::Token(t) = node_child(n, i) {
            let found = fix_token(rule, &t, key);
            if found.is_some() {
                return found;
            }
        }
        i = i + 1;
    }
    None
}

/// The place of the key among the children of a mapping entry; nothing for other
/// nodes.
fn key_place(n: &rowan::GreenNode) -> (r: Option<usize>)
    ensures
        forall|i: int|
            0 <= i < green::node_children_of(*n).len() ==> (#[trigger] tree_utils::key_position(
                green::node_tree(*n),
                i,
            ) <==> r == Some(i as usize)),
{
    let kind = node_kind(n);
    if !(kind == SyntaxKind::BLOCK_MAPPING_ENTRY.raw() || kind
        == SyntaxKind::FLOW_MAPPING_ENTRY.raw()) {
        return None;
    }
    let len = node_len(n);
    let ghost cs = green::node_children_of(*n);
    let mut i: usize = 0;
    while i < len
        invariant
            cs == green::node_children_of(*n),
            i <= len,
            len == cs.len(),
            kind == green::node_kind_of(*n),
            kind == SyntaxKind::BLOCK_MAPPING_ENTRY.code() || kind
                == SyntaxKind::FLOW_MAPPING_ENTRY.code(),
            node::place_from(cs, i as int, node::any_node()) == node::place_from(
                cs,
                0,
                node::any_node(),
            ),
        decreases len - i,
    {
        if let GreenElement::Node(_) = node_child(n, i) {
            return Some(i);
        }
        i = i + 1;
    }
    None
}

/// Applies the rule to a node, where what comes out fits.
fn fix_scalars(rule: ScalarRule, n: &rowan::GreenNode, key: bool) -> (r: Option<
    (rowan::GreenNode, usize),
>)
    ensures
        match r {
            Some((m, k)) => scalars_fixed(rule, green::node_tree(*n), key) == (Fixed {
                trees: seq![green::node_tree(m)],
                count: k as nat,
            }) && fixers::fits(scalars_fixed(rule, green::node_tree(*n), key)),
            None => !fixers::fits(scalars_fixed(rule, green::node_tree(*n), key)),
        },
    decreases green::node_tree(*n),
{
    let ghost tree = green::node_tree(*n);
    let ghost cs = green::node_children_of(*n);
    let kind = node_kind(n);
    if kind == SyntaxKind::SCALAR.raw() {
        if let Some(t) = fix_scalar(rule, n, key) {
            let mut v: Vec<GreenElement> = Vec::new();
            v.push(GreenElement::Token(t));
            assert(green::element_trees(v@) =~= seq![green::token_tree(t)]);
            proof {
                green::lemma_trees_text_one(
                    Tree::Node { kind, children: seq![green::token_tree(t)] },
                );
            }
            if !row_fits(&v) {
                assert(scalars_fixed(rule, tree, key).trees =~= seq![
                    Tree::Node { kind, children: seq![green::token_tree(t)] },
                ]);
                return None;
            }
            let m = node_new(kind, v);
            assert(seq![green::node_tree(m)] =~= scalars_fixed(rule, tree, key).trees);
            return Some((m, 1));
        }
    }
    let ghost goal = all_scalars_fixed(rule, tree, cs);
    proof {
        fixers::lemma_around_len(kind, goal);
    }
    let key_at = key_place(n);
    let len = node_len(n);
    let mut v: Vec<GreenElement> = Vec::new();
    let mut count: usize = 0;
    let mut i: usize = 0;
    assert(cs.take(0) =~= seq![]);
    assert(green::element_trees(v@) =~= seq![]);
    while i < len
        invariant
            tree == green::node_tree(*n),
            cs == green::node_children_of(*n),
            i <= len,
            len == cs.len(),
            goal == all_scalars_fixed(rule, tree, cs),
            fixers::fits(scalars_fixed(rule, tree, key)) == fixers::fits(goal),
            green::element_trees(v@) == all_scalars_fixed(rule, tree, cs.take(i as int)).trees,
            count == all_scalars_fixed(rule, tree, cs.take(i as int)).count,
            forall|j: int|
                0 <= j < cs.len() ==> (#[trigger] tree_utils::key_position(tree, j) <==> key_at
                    == Some(j as usize)),
        decreases len - i,
    {
        let ghost part = all_scalars_fixed(rule, tree, cs.take(i as int));
        let here = match key_at {
            Some(j) => j == i,
            None => false,
        };
        let ghost one = scalars_fixed(rule, cs[i as int], here);
        proof {
            assert(here == tree_utils::key_position(tree, i as int));
            let x = cs.take(i + 1);
            assert(x.drop_last() =~= cs.take(i as int));
            assert(x.last() == cs[i as int]);
            assert(all_scalars_fixed(rule, tree, x) == fixers::both(part, one));
            lemma_scalars_grow(rule, tree, cs, i + 1);
            fixers::lemma_both_len(part, one);
            assert(tree->Node_children == cs);
            assert(decreases_to!(tree => tree->Node_children));
            assert(decreases_to!(cs => cs[i as int]));
        }
        let ghost before = green::element_trees(v@);
        match node_child(n, i) {
            GreenElement::Node(c) => {
                let (m, k) = match fix_scalars(rule, &c, here) {
                    Some(x) => x,
                    None => {
                        return None;
                    },
                };
                v.push(GreenElement::Node(m));
                count = match count.checked_add(k) {
                    Some(c) => c,
                    None => {
                        return None;
                    },
                };
            },
            GreenElement::Token(t) => {
                v.push(GreenElement::Token(t));
                assert(one == fixers::kept(cs[i as int]));
            },
        }
        assert(green::element_trees(v@) =~= before + one.trees);
        i = i + 1;
    }
    assert(cs.take(len as int) =~= cs);
    if !row_fits(&v) {
        return None;
    }
    let m = node_new(kind, v);
    assert(seq![green::node_tree(m)] =~= scalars_fixed(rule, tree, key).trees);
    Some((m, count))
}

/// Applies the rule to a tree.
fn apply_rule(tree: &mut SyntaxTree, rule: ScalarRule) -> (r: usize)
    requires
        old(tree).wf(),
        rule_fits(rule, old(tree)@),
    ensures
        final(tree).wf(),
        rule_applied(rule, old(tree)@, final(tree)@, r),
{
    match try_rule(tree, rule) {
        Some(n) => n,
        None => 0,
    }
}

/// Applies the rule to a tree, where what comes out fits.
pub fn try_rule(tree: &mut SyntaxTree, rule: ScalarRule) -> (r: Option<usize>)
    requires
        old(tree).wf(),
    ensures
        final(tree).wf(),
        match r {
            Some(n) => rule_applied(rule, old(tree)@, final(tree)@, n) && rule_fits(
                rule,
                old(tree)@,
            ),
            None => !rule_fits(rule, old(tree)@) && final(tree)@ == old(tree)@,
        },
{
    match fix_scalars(rule, &tree.root.green, false) {
        Some((m, n)) => {
            tree.set_root(SyntaxNode::new_root(m));
            Some(n)
        },
        None => None,
    }
}

/// Whether what the rule makes of a tree is no longer than a tree can be, and
/// the changes can be counted.
pub open spec fn rule_fits(rule: ScalarRule, t: Tree) -> bool {
    fixers::fits(scalars_fixed(rule, t, false))
}

/// Whether `b` is what the rule makes of `a`, with `n` changes.
pub open spec fn rule_applied(rule: ScalarRule, a: Tree, b: Tree, n: usize) -> bool {
    scalars_fixed(rule, a, false) == (Fixed { trees: seq![b], count: n as nat })
}

/// YAML 1.1 boolean words become `true` or `false`; keys are quoted.
pub fn yaml11_bool_to_yaml12_bool(tree: &mut SyntaxTree) -> (r: usize)
    requires
        old(tree).wf(),
        rule_fits(ScalarRule::Yaml12Bool, old(tree)@),
    ensures
        final(tree).wf(),
        rule_applied(ScalarRule::Yaml12Bool, old(tree)@, final(tree)@, r),
{
    apply_rule(tree, ScalarRule::Yaml12Bool)
}

/// YAML 1.1 octal numbers are quoted.
pub fn yaml11_octal_to_quoted(tree: &mut SyntaxTree) -> (r: usize)
    requires
        old(tree).wf(),
        rule_fits(ScalarRule::QuoteOctal, old(tree)@),
    ensures
        final(tree).wf(),
        rule_applied(ScalarRule::QuoteOctal, old(tree)@, final(tree)@, r),
{
    apply_rule(tree, ScalarRule::QuoteOctal)
}

/// YAML 1.1 sexagesimal numbers are quoted.
pub fn yaml11_sexagesimal_to_quoted(tree: &mut SyntaxTree) -> (r: usize)
    requires
        old(tree).wf(),
        rule_fits(ScalarRule::QuoteSexagesimal, old(tree)@),
    ensures
        final(tree).wf(),
        rule_applied(ScalarRule::QuoteSexagesimal, old(tree)@, final(tree)@, r),
{
    apply_rule(tree, ScalarRule::QuoteSexagesimal)
}

/// YAML 1.1 boolean words are quoted.
pub fn quote_yaml_1_1_bool(tree: &mut SyntaxTree) -> (r: usize)
    requires
        old(tree).wf(),
        rule_fits(ScalarRule::QuoteBool, old(tree)@),
    ensures
        final(tree).wf(),
        rule_applied(ScalarRule::QuoteBool, old(tree)@, final(tree)@, r),
{
    apply_rule(tree, ScalarRule::QuoteBool)
}

/// Quotes are dropped where the text can stand without them.
pub fn unquote_scalars(tree: &mut SyntaxTree) -> (r: usize)
    requires
        old(tree).wf(),
        rule_fits(ScalarRule::Unquote, old(tree)@),
    ensures
        final(tree).wf(),
        rule_applied(ScalarRule::Unquote, old(tree)@, final(tree)@, r),
{
    apply_rule(tree, ScalarRule::Unquote)
}

/// Double quotes become single quotes where the text has no escapes.
pub fn prefer_single_quotes(tree: &mut SyntaxTree) -> (r: usize)
    requires
        old(tree).wf(),
        rule_fits(ScalarRule::SingleQuotes, old(tree)@),
    ensures
        final(tree).wf(),
        rule_applied(ScalarRule::SingleQuotes, old(tree)@, final(tree)@, r),
{
    apply_rule(tree, ScalarRule::SingleQuotes)
}

// ---- A second pass ----

/// What is written in place of a token is not rewritten again.
proof fn lemma_new_token_stays(rule: ScalarRule, t: Tree, key: bool, again: bool)
    requires
        new_token(rule, t, key) is Some,
    ensures
        new_token(rule, new_token(rule, t, key)->0, again) is None,
{
    if rule == ScalarRule::Yaml12Bool {
        reveal_strlit("true");
        reveal_strlit("false");
        reveal_strlit("yes");
        reveal_strlit("Yes");
        reveal_strlit("YES");
        reveal_strlit("on");
        reveal_strlit("On");
        reveal_strlit("ON");
        reveal_strlit("no");
        reveal_strlit("No");
        reveal_strlit("NO");
        reveal_strlit("off");
        reveal_strlit("Off");
        reveal_strlit("OFF");
    }
}

/// Where the same trees pass a test, the first place is the same.
pub(crate) proof fn lemma_same_place(a: Seq<Tree>, b: Seq<Tree>, i: int, f: spec_fn(Tree) -> bool)
    requires
        a.len() == b.len(),
        0 <= i,
        forall|j: int| 0 <= j < a.len() ==> f(#[trigger] a[j]) == f(b[j]),
    ensures
        node::place_from(a, i, f) == node::place_from(b, i, f),
    decreases a.len() - i,
{
    if i < a.len() {
        lemma_same_place(a, b, i + 1, f);
    }
}

/// Where two tests pass the same trees, the first place is the same.
pub(crate) proof fn lemma_same_test(
    cs: Seq<Tree>,
    i: int,
    f: spec_fn(Tree) -> bool,
    g: spec_fn(Tree) -> bool,
)
    requires
        0 <= i,
        forall|j: int| 0 <= j < cs.len() ==> f(#[trigger] cs[j]) == g(cs[j]),
    ensures
        node::place_from(cs, i, f) == node::place_from(cs, i, g),
    decreases cs.len() - i,
{
    if i < cs.len() {
        lemma_same_test(cs, i + 1, f, g);
    }
}

/// One tree comes of each, a node of a node, and a token stays.
pub(crate) proof fn lemma_shape(rule: ScalarRule, t: Tree, key: bool)
    ensures
        scalars_fixed(rule, t, key).trees.len() == 1,
        (scalars_fixed(rule, t, key).trees[0] is Node) == (t is Node),
        scalars_fixed(rule, t, key).trees[0].kind() == t.kind(),
        t is Token ==> scalars_fixed(rule, t, key).trees[0] == t,
{
}

/// What comes of each child stands in its place.
pub(crate) proof fn lemma_shapes(rule: ScalarRule, p: Tree, ts: Seq<Tree>)
    ensures
        all_scalars_fixed(rule, p, ts).trees.len() == ts.len(),
        forall|i: int|
            #![trigger all_scalars_fixed(rule, p, ts).trees[i]]
            #![trigger ts[i]]
            0 <= i < ts.len() ==> all_scalars_fixed(rule, p, ts).trees[i] == scalars_fixed(
                rule,
                ts[i],
                tree_utils::key_position(p, i),
            ).trees[0],
    decreases ts.len(),
{
    if ts.len() > 0 {
        lemma_shapes(rule, p, ts.drop_last());
        lemma_shape(rule, ts.last(), tree_utils::key_position(p, ts.len() - 1));
        let a = all_scalars_fixed(rule, p, ts.drop_last()).trees;
        let all = all_scalars_fixed(rule, p, ts).trees;
        assert forall|i: int| 0 <= i < ts.len() implies all[i] == scalars_fixed(
            rule,
            #[trigger] ts[i],
            tree_utils::key_position(p, i),
        ).trees[0] by {
            if i < ts.len() - 1 {
                assert(all[i] == a[i]);
                assert(ts.drop_last()[i] == ts[i]);
            }
        }
    }
}

/// Trees that a rule leaves alone one by one it leaves alone in a row.
pub(crate) proof fn lemma_all_kept(rule: ScalarRule, p: Tree, ts: Seq<Tree>)
    requires
        forall|i: int|
            0 <= i < ts.len() ==> scalars_fixed(
                rule,
                #[trigger] ts[i],
                tree_utils::key_position(p, i),
            ) == fixers::kept(ts[i]),
    ensures
        all_scalars_fixed(rule, p, ts) == (Fixed { trees: ts, count: 0 }),
    decreases ts.len(),
{
    if ts.len() > 0 {
        assert forall|i: int| 0 <= i < ts.len() - 1 implies scalars_fixed(
            rule,
            #[trigger] ts.drop_last()[i],
            tree_utils::key_position(p, i),
        ) == fixers::kept(ts.drop_last()[i]) by {
            assert(ts.drop_last()[i] == ts[i]);
        }
        lemma_all_kept(rule, p, ts.drop_last());
        assert(scalars_fixed(rule, ts[ts.len() - 1], tree_utils::key_position(p, ts.len() - 1))
            == fixers::kept(ts.last()));
        assert(ts.drop_last() + seq![ts.last()] =~= ts);
    } else {
        assert(ts =~= seq![]);
    }
}

/// A rule that was applied to a tree finds nothing more to change in it.
pub proof fn lemma_rule_settles(rule: ScalarRule, t: Tree, key: bool)
    ensures
        scalars_fixed(rule, scalars_fixed(rule, t, key).trees[0], key) == fixers::kept(
            scalars_fixed(rule, t, key).trees[0],
        ),
    decreases t,
{
    match t {
        Tree::Token { .. } => {},
        Tree::Node { kind, children } => {
            let at = node::place_from(children, 0, fixable(rule, key));
            if at is Some && kind == SyntaxKind::SCALAR.code() {
                lemma_place_passes(children, 0, fixable(rule, key));
                let x = new_token(rule, children[at->0], key)->0;
                let n = Tree::Node { kind, children: seq![x] };
                lemma_new_token_stays(rule, children[at->0], key, key);
                assert(x is Token);
                assert(seq![x][0] == x);
                assert(node::place_from(seq![x], 1, fixable(rule, key)) is None);
                assert(node::place_from(seq![x], 0, fixable(rule, key)) is None);
                lemma_all_kept(rule, n, seq![x]);
            } else {
                let f = all_scalars_fixed(rule, t, children);
                let n = Tree::Node { kind, children: f.trees };
                lemma_shapes(rule, t, children);
                assert forall|i: int| 0 <= i < children.len() implies (
                #[trigger] f.trees[i] is Node) == (children[i] is Node) && (children[i] is Token
                    ==> f.trees[i] == children[i]) by {
                    lemma_shape(rule, children[i], tree_utils::key_position(t, i));
                }
                lemma_same_place(f.trees, children, 0, fixable(rule, key));
                lemma_same_place(f.trees, children, 0, node::any_node());
                assert forall|i: int| 0 <= i < f.trees.len() implies scalars_fixed(
                    rule,
                    #[trigger] f.trees[i],
                    tree_utils::key_position(n, i),
                ) == fixers::kept(f.trees[i]) by {
                    assert(tree_utils::key_position(n, i) == tree_utils::key_position(t, i));
                    lemma_rule_settles(rule, children[i], tree_utils::key_position(t, i));
                }
                lemma_all_kept(rule, n, f.trees);
            }
        },
    }
}

/// The first place that passes a test passes it.
pub(crate) proof fn lemma_place_passes(cs: Seq<Tree>, i: int, f: spec_fn(Tree) -> bool)
    requires
        0 <= i,
    ensures
        match node::place_from(cs, i, f) {
            Some(j) => i <= j < cs.len() && f(cs[j]),
            None => true,
        },
    decreases cs.len() - i,
{
    if i < cs.len() {
        lemma_place_passes(cs, i + 1, f);
    }
}

} // verus!

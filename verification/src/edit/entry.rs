//! Entries put into block mappings, and taken out of them.

use vstd::prelude::*;
use vstd::string::*;
use vstd::utf8::*;

use crate::builder;
use crate::builder::{Yaml, YamlModel};
use crate::edit;
use crate::edit::make::mk_token;
use crate::edit::splice_at;
use crate::grammar;
use crate::parser::parse_recover;
use crate::syntax::green;
use crate::syntax::green::{node_child, node_clone, node_kind, node_len, GreenElement, Tree, MAX_LEN};
use crate::syntax::kind::SyntaxKind;
use crate::syntax::node;
use crate::syntax::node::{SyntaxElement, SyntaxNode};
use crate::syntax::path;
use crate::syntax::tree::SyntaxTree;
use crate::syntax::tree_utils;
use crate::syntax::tree_utils::observed_block_col;
use crate::text;
use crate::text::{chars_of, push_spaces, string_of};

verus! {

/// The first node of kind `k` in `t`, in document order.
pub open spec fn find_node(t: Tree, k: SyntaxKind) -> Option<Tree>
    decreases t,
{
    match t {
        Tree::Token { .. } => None,
        Tree::Node { kind, children } => if kind == k.code() {
            Some(t)
        } else {
            find_in(children, k)
        },
    }
}

/// The first node of kind `k` in trees in a row.
pub open spec fn find_in(ts: Seq<Tree>, k: SyntaxKind) -> Option<Tree>
    decreases ts,
{
    if ts.len() == 0 {
        None
    } else {
        match find_in(ts.drop_last(), k) {
            Some(t) => Some(t),
            None => find_node(ts.last(), k),
        }
    }
}

proof fn lemma_find_in(ts: Seq<Tree>, n: int, k: SyntaxKind)
    requires
        0 <= n <= ts.len(),
        find_in(ts.take(n), k) is Some,
    ensures
        find_in(ts, k) == find_in(ts.take(n), k),
    decreases ts.len(),
{
    if n < ts.len() {
        assert(ts.drop_last().take(n) =~= ts.take(n));
        lemma_find_in(ts.drop_last(), n, k);
    } else {
        assert(ts.take(n) =~= ts);
    }
}

/// The first node of kind `k` in a tree, in document order.
pub(crate) fn first_of_kind(n: &rowan::GreenNode, k: SyntaxKind) -> (r: Option<rowan::GreenNode>)
    ensures
        match find_node(green::node_tree(*n), k) {
            Some(t) => r is Some && green::node_tree(r->0) == t,
            None => r is None,
        },
    decreases green::node_tree(*n),
{
    let ghost tree = green::node_tree(*n);
    if node_kind(n) == k.raw() {
        return Some(node_clone(n));
    }
    let len = node_len(n);
    let ghost cs = green::node_children_of(*n);
    let mut i: usize = 0;
    assert(cs.take(0) =~= seq![]);
    while i < len
        invariant
            cs == green::node_children_of(*n),
            tree == green::node_tree(*n),
            tree.kind() != k.code(),
            i <= len,
            len == cs.len(),
            find_in(cs.take(i as int), k) is None,
        decreases len - i,
    {
        proof {
            assert(cs.take(i + 1).drop_last() =~= cs.take(i as int));
            assert(tree->Node_children == cs);
            assert(decreases_to!(tree => tree->Node_children));
            assert(decreases_to!(cs => cs[i as int]));
        }
        match node_child(n, i) {
            GreenElement::Node(c) => {
                let found = first_of_kind(&c, k);
                if found.is_some() {
                    proof {
                        lemma_find_in(cs, i + 1, k);
                    }
                    return found;
                }
            },
            GreenElement::Token(_) => {
                assert(find_node(cs[i as int], k) is None);
            },
        }
        i = i + 1;
    }
    assert(cs.take(len as int) =~= cs);
    None
}

/// `s` from `i` on, with `pad` before each line but the first that is not
/// empty.
pub open spec fn padded(s: Seq<char>, i: int, pad: Seq<char>) -> Seq<char>
    decreases s.len() - i,
{
    if !(0 <= i < s.len()) {
        seq![]
    } else if i > 0 && s[i - 1] == '\n' && s[i] != '\n' {
        pad + seq![s[i]] + padded(s, i + 1, pad)
    } else {
        seq![s[i]] + padded(s, i + 1, pad)
    }
}

/// Indents every line but the first by `col` spaces; empty lines stay empty.
fn indent_fragment(s: &str, col: usize) -> (r: String)
    ensures
        r@ == padded(s@, 0, text::spaces(col as int)),
{
    let v = chars_of(s);
    let ghost pad = text::spaces(col as int);
    let mut out: Vec<char> = Vec::new();
    let mut i: usize = 0;
    assert(out@ + padded(s@, 0, pad) =~= padded(s@, 0, pad));
    while i < v.len()
        invariant
            v@ == s@,
            i <= v@.len(),
            pad == text::spaces(col as int),
            out@ + padded(s@, i as int, pad) == padded(s@, 0, pad),
        decreases v@.len() - i,
    {
        let ghost before = out@;
        let ghost rest = padded(s@, i + 1, pad);
        if i > 0 && v[i - 1] == '\n' && v[i] != '\n' {
            push_spaces(&mut out, col);
        }
        out.push(v[i]);
        assert(out@ + rest =~= before + padded(s@, i as int, pad));
        i = i + 1;
    }
    assert(out@ =~= padded(s@, 0, pad));
    string_of(&out)
}

/// The value of the fragment that is one entry.
pub open spec fn entry_model(key: Seq<char>, value: YamlModel) -> YamlModel {
    YamlModel::Dict(seq![(key, value)])
}

/// The text of an entry in a mapping at column `col`.
pub open spec fn entry_text(key: Seq<char>, value: YamlModel, col: int) -> Seq<char> {
    padded(builder::yaml_text(entry_model(key, value)), 0, text::spaces(col))
}

/// The entry that a text makes.
pub open spec fn entry_of_text(s: Seq<char>) -> Option<Tree> {
    find_in(grammar::stream(encode_utf8(s)).elems, SyntaxKind::BLOCK_MAPPING_ENTRY)
}

/// Whether an entry can be made: its text is YAML with an entry in it, and no
/// longer than a tree can be.
pub open spec fn entry_fits(key: Seq<char>, value: YamlModel, col: int) -> bool {
    let s = entry_text(key, value, col);
    &&& 2 * builder::depth(entry_model(key, value)) + 2 <= usize::MAX
    &&& encode_utf8(s).len() <= MAX_LEN
    &&& grammar::stream(encode_utf8(s)).fault is None
    &&& entry_of_text(s) is Some
}

/// The green entry for `key: value` in a mapping at column `col`.
fn build_entry_green(key: &str, value: Yaml, col: usize) -> (r: rowan::GreenNode)
    requires
        entry_fits(key@, value.model(), col as int),
    ensures
        Some(green::node_tree(r)) == entry_of_text(entry_text(key@, value.model(), col as int)),
{
    let ghost m = value.model();
    let mut pairs: Vec<(String, Yaml)> = Vec::new();
    pairs.push((string_of(&chars_of(key)), value));
    let fragment = Yaml::Dict(pairs);
    proof {
        reveal_with_fuel(builder::pair_models, 2);
        assert(pairs@.drop_last() =~= seq![]);
        assert(builder::pair_models(pairs@) =~= seq![(key@, m)]);
        assert(fragment.model() == entry_model(key@, m));
    }
    let s = indent_fragment(fragment.to_yaml_string().as_str(), col);
    let (tree, _) = parse_recover(s.as_str());
    proof {
        let g = grammar::stream(encode_utf8(s@)).elems;
        assert(g.drop_last() =~= seq![]);
        reveal_with_fuel(find_in, 2);
        assert(find_in(g, SyntaxKind::BLOCK_MAPPING_ENTRY) == find_node(
            tree@,
            SyntaxKind::BLOCK_MAPPING_ENTRY,
        ));
    }
    match first_of_kind(&tree.root.green, SyntaxKind::BLOCK_MAPPING_ENTRY) {
        Some(n) => n,
        None => node_clone(&tree.root.green),
    }
}

/// The column of the entries of the mapping `t` at `path`: the whitespace that
/// the first entry begins with or, where it begins with none, the mapping's own
/// column.
pub open spec fn map_column(whole: Tree, path: Seq<usize>) -> nat {
    let cs = path::tree_at(whole, path)->0.children();
    match node::place_from(cs, 0, node::nodes_of(SyntaxKind::BLOCK_MAPPING_ENTRY)) {
        Some(i) => {
            let es = cs[i].children();
            if es.len() > 0 && es[0].is_token_of(SyntaxKind::WHITESPACE) {
                encode_utf8(es[0].text()).len()
            } else {
                tree_utils::block_column(whole, path)
            }
        },
        None => tree_utils::block_column(whole, path),
    }
}

/// The column of the entries of a mapping.
pub fn mapping_col(map: &SyntaxNode) -> (r: usize)
    requires
        map.wf(),
    ensures
        r == map_column(map.whole(), map.path@),
{
    let len = map.len();
    let mut i: usize = 0;
    let ghost f = node::nodes_of(SyntaxKind::BLOCK_MAPPING_ENTRY);
    while i < len
        invariant
            map.wf(),
            i <= len,
            len == map.parts().len(),
            f == node::nodes_of(SyntaxKind::BLOCK_MAPPING_ENTRY),
            node::place_from(map.parts(), i as int, f) == node::place_from(map.parts(), 0, f),
        decreases len - i,
    {
        if let SyntaxElement::Node(entry) = map.child_or_token(i) {
            if entry.is(SyntaxKind::BLOCK_MAPPING_ENTRY) {
                if entry.len() > 0 {
                    if let SyntaxElement::Token(t) = entry.child_or_token(0) {
                        if t.is(SyntaxKind::WHITESPACE) {
                            return t.text().as_bytes().len();
                        }
                    }
                }
                return observed_block_col(map);
            }
        }
        i = i + 1;
    }
    observed_block_col(map)
}

/// The places of the entries of a block mapping.
pub open spec fn entry_places(cs: Seq<Tree>) -> Seq<int> {
    node::places(cs, node::nodes_of(SyntaxKind::BLOCK_MAPPING_ENTRY))
}

/// The place of the entry at position `index`, if there is one.
fn entry_place(map: &SyntaxNode, index: usize) -> (r: Option<usize>)
    requires
        map.wf(),
    ensures
        match r {
            Some(i) => index < entry_places(map.parts()).len() && entry_places(
                map.parts(),
            )[index as int] == i && i < map.parts().len(),
            None => entry_places(map.parts()).len() <= index,
        },
{
    let len = map.len();
    let ghost cs = map.parts();
    let mut seen: Vec<usize> = Vec::new();
    let mut i: usize = 0;
    assert(cs.take(0) =~= seq![]);
    while i < len
        invariant
            map.wf(),
            cs == map.parts(),
            i <= len,
            len == cs.len(),
            seen@.len() == entry_places(cs.take(i as int)).len(),
            forall|j: int|
                0 <= j < seen@.len() ==> (#[trigger] seen@[j]) as int == entry_places(
                    cs.take(i as int),
                )[j] && seen@[j] < i,
        decreases len - i,
    {
        assert(cs.take(i + 1).drop_last() =~= cs.take(i as int));
        if let SyntaxElement::Node(entry) = map.child_or_token(i) {
            if entry.is(SyntaxKind::BLOCK_MAPPING_ENTRY) {
                seen.push(i);
            }
        }
        i = i + 1;
    }
    assert(cs.take(len as int) =~= cs);
    if index < seen.len() {
        Some(seen[index])
    } else {
        None
    }
}

/// Where an entry at position `index` is put: before the entry that stands
/// there, or behind everything.
pub open spec fn insert_place(cs: Seq<Tree>, index: int) -> int {
    let p = entry_places(cs);
    if index < p.len() {
        p[index]
    } else {
        cs.len() as int
    }
}

/// What is put in for an entry: its indentation, the entry, and a line break on
/// the side of its neighbour.
pub open spec fn insert_trees(cs: Seq<Tree>, index: int, entry: Tree, col: int) -> Seq<Tree> {
    let nl = Tree::Token { kind: SyntaxKind::NEWLINE.code(), text: seq!['\n'] };
    let ws = if col > 0 {
        seq![
            Tree::Token { kind: SyntaxKind::WHITESPACE.code(), text: text::spaces(col) },
        ]
    } else {
        seq![]
    };
    if index < entry_places(cs).len() {
        (ws.push(entry)).push(nl)
    } else {
        (seq![nl] + ws).push(entry)
    }
}

/// The tree after `key: value` was put into the block mapping at `path`.
pub open spec fn with_entry(
    t: Tree,
    path: Seq<usize>,
    index: int,
    key: Seq<char>,
    value: YamlModel,
) -> Tree {
    let cs = path::tree_at(t, path)->0.children();
    let col = map_column(t, path) as int;
    let at = insert_place(cs, index);
    edit::spliced_at(
        t,
        path,
        at,
        at,
        insert_trees(cs, index, entry_of_text(entry_text(key, value, col))->0, col),
    )
}

/// Puts `key: value` into the block mapping `map` at position `index` among its
/// entries, or at the end. The entry is indented to the mapping's column.
pub fn insert_map_entry(
    tree: &mut SyntaxTree,
    map: &SyntaxNode,
    index: usize,
    key: &str,
    value: Yaml,
)
    requires
        old(tree).wf(),
        map.wf(),
        map.whole() == old(tree)@,
        map.tree().is_node_of(SyntaxKind::BLOCK_MAPPING),
        entry_fits(key@, value.model(), map_column(old(tree)@, map.path@) as int),
        path::tree_len(
            with_entry(old(tree)@, map.path@, index as int, key@, value.model()),
        ) <= MAX_LEN,
    ensures
        final(tree).wf(),
        final(tree)@ == with_entry(old(tree)@, map.path@, index as int, key@, value.model()),
{
    let ghost cs = map.parts();
    let col = mapping_col(map);
    let entry = build_entry_green(key, value, col);
    let ghost e = green::node_tree(entry);
    let place = entry_place(map, index);
    let mut v: Vec<GreenElement> = Vec::new();
    if place.is_none() {
        v.push(newline());
    }
    if col > 0 {
        let mut pad: Vec<char> = Vec::new();
        push_spaces(&mut pad, col);
        assert(pad@ =~= text::spaces(col as int));
        v.push(GreenElement::Token(mk_token(SyntaxKind::WHITESPACE, string_of(&pad).as_str())));
    }
    v.push(GreenElement::Node(entry));
    let at = match place {
        Some(i) => {
            v.push(newline());
            i
        },
        None => map.len(),
    };
    assert(green::element_trees(v@) =~= insert_trees(cs, index as int, e, col as int));
    splice_at(tree, map, at, at, v);
}

/// A line break.
fn newline() -> (r: GreenElement)
    ensures
        r@ == (Tree::Token { kind: SyntaxKind::NEWLINE.code(), text: seq!['\n'] }),
{
    proof {
        reveal_strlit("\n");
        assert("\n"@ =~= seq!['\n']);
    }
    GreenElement::Token(mk_token(SyntaxKind::NEWLINE, "\n"))
}

/// Where the whitespace before `i` begins.
pub open spec fn blanks_start(cs: Seq<Tree>, i: int) -> int
    decreases i,
{
    if i > 0 && cs[i - 1].is_token_of(SyntaxKind::WHITESPACE) {
        blanks_start(cs, i - 1)
    } else {
        i
    }
}

/// What goes with the entry at `e`: the whitespace before it, and the line break
/// behind it or else the one before.
pub open spec fn removed_range(cs: Seq<Tree>, e: int) -> (int, int) {
    let start = blanks_start(cs, e);
    if e + 1 < cs.len() && cs[e + 1].is_token_of(SyntaxKind::NEWLINE) {
        (start, e + 2)
    } else if start > 0 && cs[start - 1].is_token_of(SyntaxKind::NEWLINE) {
        (start - 1, e + 1)
    } else {
        (start, e + 1)
    }
}

/// The tree after the entry at position `index` was taken out of the block
/// mapping at `path`; where there is none, the tree as it was.
pub open spec fn without_entry(t: Tree, path: Seq<usize>, index: int) -> Tree {
    let cs = path::tree_at(t, path)->0.children();
    let p = entry_places(cs);
    if index < p.len() {
        let (start, end) = removed_range(cs, p[index]);
        edit::spliced_at(t, path, start, end, seq![])
    } else {
        t
    }
}

/// Whether the child at `i` is a token of kind `k`.
fn token_at(n: &SyntaxNode, i: usize, k: SyntaxKind) -> (r: bool)
    requires
        n.wf(),
        i < n.parts().len(),
    ensures
        r == n.parts()[i as int].is_token_of(k),
{
    match n.child_or_token(i) {
        SyntaxElement::Token(t) => t.is(k),
        SyntaxElement::Node(_) => false,
    }
}

/// Takes the entry at position `index` out of the block mapping `map`, with the
/// line break that joined it to the rest. Without such an entry nothing changes.
pub fn remove_map_entry(tree: &mut SyntaxTree, map: &SyntaxNode, index: usize)
    requires
        old(tree).wf(),
        map.wf(),
        map.whole() == old(tree)@,
        map.tree().is_node_of(SyntaxKind::BLOCK_MAPPING),
        path::tree_len(without_entry(old(tree)@, map.path@, index as int)) <= MAX_LEN,
    ensures
        final(tree).wf(),
        final(tree)@ == without_entry(old(tree)@, map.path@, index as int),
{
    let e = match entry_place(map, index) {
        Some(i) => i,
        None => {
            return;
        },
    };
    let len = map.len();
    let ghost cs = map.parts();
    let mut start = e;
    while start > 0 && token_at(map, start - 1, SyntaxKind::WHITESPACE)
        invariant
            map.wf(),
            cs == map.parts(),
            start <= e < cs.len(),
            blanks_start(cs, start as int) == blanks_start(cs, e as int),
        decreases start,
    {
        start = start - 1;
    }
    let mut end = e + 1;
    if end < len && token_at(map, end, SyntaxKind::NEWLINE) {
        end = end + 1;
    } else if start > 0 && token_at(map, start - 1, SyntaxKind::NEWLINE) {
        start = start - 1;
    }
    let v: Vec<GreenElement> = Vec::new();
    assert(green::element_trees(v@) =~= seq![]);
    splice_at(tree, map, start, end, v);
}

} // verus!

use std::ops::Range;

use yamlito::ast::collections::Mapping;
use yamlito::ast::nodes::{AstNode, Node, Stream};
use yamlito::ast::scalar::Scalar;
use yamlito::edit::entry::{insert_map_entry, mapping_col, remove_map_entry};
use yamlito::edit::make::{mk_node, mk_token};
use yamlito::edit::{apply_edit, splice_children_green, TreeEdit};
use yamlito::syntax::green::GreenElement;
use yamlito::{SyntaxElement, SyntaxKind, SyntaxNode, SyntaxToken, SyntaxTree, Yaml};

fn descendants(n: &SyntaxNode) -> Vec<SyntaxNode> {
    let mut out = vec![n.handle()];
    for c in n.children() {
        out.extend(descendants(&c));
    }
    out
}

fn tokens(n: &SyntaxNode) -> Vec<SyntaxToken> {
    let mut out = Vec::new();
    for e in n.children_with_tokens() {
        match e {
            SyntaxElement::Node(c) => out.extend(tokens(&c)),
            SyntaxElement::Token(t) => out.push(t),
        }
    }
    out
}

fn all_scalars_in(root: &SyntaxNode) -> Vec<Scalar> {
    descendants(root)
        .into_iter()
        .filter_map(Scalar::cast)
        .collect()
}

/// Parse input and return the first BLOCK_MAPPING_ENTRY.
fn first_entry(src: &str) -> (SyntaxTree, SyntaxNode) {
    let tree = yamlito::parse(src).expect("parse");
    let entry = descendants(tree.root())
        .into_iter()
        .find(|n| n.kind() == SyntaxKind::BLOCK_MAPPING_ENTRY)
        .expect("no BLOCK_MAPPING_ENTRY found");
    (tree, entry)
}

#[test]
fn splice_children_green_inserts_before_index() {
    let (_tree, entry) = first_entry("k: v\n");
    let new_ws = GreenElement::Token(mk_token(SyntaxKind::WHITESPACE, "  "));
    let green = splice_children_green(&entry, 0..0, vec![new_ws]);
    let new_root = SyntaxNode::new_root(green);
    assert_eq!(new_root.text(), "  k: v");
}

#[test]
fn splice_children_green_replaces_range() {
    let (_tree, entry) = first_entry("k: v\n");
    // Replace `COLON WS` with `=`. Indices 1..3 span those tokens
    // because the parser emits: [SCALAR(k), COLON, WS, SCALAR(v)].
    let repl = GreenElement::Token(mk_token(SyntaxKind::COLON, "="));
    let green = splice_children_green(&entry, 1..3, vec![repl]);
    let new_root = SyntaxNode::new_root(green);
    assert_eq!(new_root.text(), "k=v");
}

#[test]
fn splice_children_green_appends_at_end() {
    let (_tree, entry) = first_entry("k: v\n");
    let end = entry.children_with_tokens().len();
    let extra = GreenElement::Token(mk_token(SyntaxKind::WHITESPACE, "!"));
    let green = splice_children_green(&entry, end..end, vec![extra]);
    let new_root = SyntaxNode::new_root(green);
    assert_eq!(new_root.text(), "k: v!");
}

#[test]
fn remove_token_detaches_from_parent() {
    let (mut tree, entry) = first_entry("k: v\n");
    let target = tokens(&entry)
        .into_iter()
        .find(|t| t.kind() == SyntaxKind::WHITESPACE)
        .unwrap();
    apply_edit(&mut tree, TreeEdit::RemoveToken { target });
    assert_eq!(tree.emit(), "k:v\n");
}

#[test]
fn replace_token_swaps_scalar_text() {
    let mut tree = yamlito::parse("a: hello\n").expect("parse");
    let scalar = all_scalars_in(tree.root())
        .into_iter()
        .find(|s| s.decoded().ok().as_deref() == Some("hello"))
        .expect("hello scalar");
    let token = scalar.value_token().expect("value token");
    apply_edit(
        &mut tree,
        TreeEdit::ReplaceToken {
            new: mk_token(token.kind(), "world"),
            target: token,
        },
    );
    assert_eq!(tree.emit(), "a: world\n");
}

#[test]
fn replace_token_plain_to_quoted_form() {
    let mut tree = yamlito::parse("a: yes\n").expect("parse");
    let scalar = all_scalars_in(tree.root())
        .into_iter()
        .find(|s| s.decoded().ok().as_deref() == Some("yes"))
        .expect("yes scalar");
    // Swap the PLAIN_SCALAR for a SINGLE_QUOTED_SCALAR — different
    // kind, so we must replace the enclosing SCALAR node instead.
    let new_node = mk_node(
        SyntaxKind::SCALAR,
        vec![GreenElement::Token(mk_token(
            SyntaxKind::SINGLE_QUOTED_SCALAR,
            "'yes'",
        ))],
    );
    apply_edit(
        &mut tree,
        TreeEdit::ReplaceNode {
            target: scalar.syntax().handle(),
            new: new_node,
        },
    );
    assert_eq!(tree.emit(), "a: 'yes'\n");
}

#[test]
fn replace_node_swaps_whole_scalar() {
    let mut tree = yamlito::parse("key: old\n").expect("parse");
    let scalar = all_scalars_in(tree.root())
        .into_iter()
        .find(|s| s.decoded().ok().as_deref() == Some("old"))
        .expect("old scalar");
    let new = mk_node(
        SyntaxKind::SCALAR,
        vec![GreenElement::Token(mk_token(
            SyntaxKind::PLAIN_SCALAR,
            "new",
        ))],
    );
    apply_edit(
        &mut tree,
        TreeEdit::ReplaceNode {
            target: scalar.syntax().handle(),
            new,
        },
    );
    assert_eq!(tree.emit(), "key: new\n");
}

#[test]
fn mutated_tree_re_parses_cleanly() {
    let mut tree = yamlito::parse("a: hello\n").expect("parse");
    let scalar = all_scalars_in(tree.root())
        .into_iter()
        .find(|s| s.decoded().ok().as_deref() == Some("hello"))
        .expect("hello");
    let token = scalar.value_token().expect("value token");
    apply_edit(
        &mut tree,
        TreeEdit::ReplaceToken {
            new: mk_token(token.kind(), "world"),
            target: token,
        },
    );
    let emitted = tree.emit();
    yamlito::parse(&emitted).expect("reparse");
    assert_eq!(emitted, "a: world\n");
}

#[test]
fn replace_node_on_root() {
    let mut tree = yamlito::parse("a: 1\n").expect("parse");
    // Build a fresh STREAM with different content by cloning green
    // from a fresh parse.
    let other = yamlito::parse("b: 2\n").expect("parse");
    let other_green: rowan::GreenNode = other.root().green();
    // Kinds match (both STREAM) so the assertion holds.
    let target = tree.root().handle();
    apply_edit(
        &mut tree,
        TreeEdit::ReplaceNode {
            target,
            new: other_green,
        },
    );
    assert_eq!(tree.emit(), "b: 2\n");
}

#[test]
fn stream_cast_after_edit() {
    let mut tree = yamlito::parse("a: hello\n").expect("parse");
    let scalar = all_scalars_in(tree.root())
        .into_iter()
        .find(|s| s.decoded().ok().as_deref() == Some("hello"))
        .expect("hello");
    let token = scalar.value_token().expect("v");
    apply_edit(
        &mut tree,
        TreeEdit::ReplaceToken {
            new: mk_token(token.kind(), "world"),
            target: token,
        },
    );
    let stream = Stream::cast(tree.root().handle()).expect("stream");
    let doc = stream.documents().into_iter().next().expect("doc");
    let root = doc.root_node().expect("root node");
    if let Node::BlockMapping(m) = root {
        let v = m.get("a").expect("a");
        if let Node::Scalar(s) = v {
            assert_eq!(s.decoded().ok().as_deref(), Some("world"));
        } else {
            panic!("value not a scalar");
        }
    } else {
        panic!("root not a block mapping");
    }
}

#[test]
fn mk_token_round_trips_kind_when_swapped_into_parsed_tree() {
    let mut tree = yamlito::parse("k: hello\n").expect("parse");
    let target = tokens(tree.root())
        .into_iter()
        .find(|t| t.kind() == SyntaxKind::PLAIN_SCALAR && t.text() == "hello")
        .unwrap();
    apply_edit(
        &mut tree,
        TreeEdit::ReplaceToken {
            target,
            new: mk_token(SyntaxKind::PLAIN_SCALAR, "world"),
        },
    );
    assert_eq!(tree.emit(), "k: world\n");
}

#[test]
fn mk_node_replaces_parsed_scalar_with_built_equivalent() {
    let mut tree = yamlito::parse("k: hello\n").expect("parse");
    let target = descendants(tree.root())
        .into_iter()
        .find(|n| n.kind() == SyntaxKind::SCALAR && n.text() == "hello")
        .unwrap();
    let new = mk_node(
        SyntaxKind::SCALAR,
        vec![GreenElement::Token(mk_token(SyntaxKind::SINGLE_QUOTED_SCALAR, "'hi'"))],
    );
    apply_edit(&mut tree, TreeEdit::ReplaceNode { target, new });
    assert_eq!(tree.emit(), "k: 'hi'\n");
}

fn map_node(tree: &SyntaxTree) -> SyntaxNode {
    descendants(tree.root())
        .into_iter()
        .find(|n| n.kind() == SyntaxKind::BLOCK_MAPPING)
        .expect("block mapping")
}

#[test]
fn insert_at_end() {
    let mut tree = yamlito::parse("a: 1\nb: 2\n").unwrap();
    let map = map_node(&tree);
    insert_map_entry(&mut tree, &map, 99, "c", Yaml::Int(3));
    assert_eq!(tree.emit(), "a: 1\nb: 2\nc: 3\n");
    yamlito::parse(&tree.emit()).expect("reparse");
}

#[test]
fn insert_at_front() {
    let mut tree = yamlito::parse("b: 2\n").unwrap();
    let map = map_node(&tree);
    insert_map_entry(&mut tree, &map, 0, "a", Yaml::Int(1));
    assert_eq!(tree.emit(), "a: 1\nb: 2\n");
}

#[test]
fn insert_string_value_quoted_when_needed() {
    let mut tree = yamlito::parse("a: 1\n").unwrap();
    let map = map_node(&tree);
    insert_map_entry(&mut tree, &map, 99, "b", Yaml::Str("true".into()));
    assert_eq!(tree.emit(), "a: 1\nb: 'true'\n");
}

#[test]
fn insert_nested_map_value() {
    let mut tree = yamlito::parse("a: 1\n").unwrap();
    let map = map_node(&tree);
    insert_map_entry(
        &mut tree,
        &map,
        99,
        "b",
        Yaml::Dict(vec![("c".into(), Yaml::Int(2))]),
    );
    assert_eq!(tree.emit(), "a: 1\nb:\n  c: 2\n");
    yamlito::parse(&tree.emit()).expect("reparse");
}

#[test]
fn insert_into_nested_mapping_indents() {
    let mut tree = yamlito::parse("outer:\n  a: 1\n").unwrap();
    // Target the inner mapping.
    let inner = descendants(tree.root())
        .into_iter()
        .filter(|n| n.kind() == SyntaxKind::BLOCK_MAPPING)
        .find(|n| mapping_col(n) == 2)
        .expect("inner map");
    insert_map_entry(&mut tree, &inner, 99, "b", Yaml::Int(2));
    assert_eq!(tree.emit(), "outer:\n  a: 1\n  b: 2\n");
    yamlito::parse(&tree.emit()).expect("reparse");
}

#[test]
fn remove_middle_entry() {
    let mut tree = yamlito::parse("a: 1\nb: 2\nc: 3\n").unwrap();
    let map = map_node(&tree);
    remove_map_entry(&mut tree, &map, 1);
    assert_eq!(tree.emit(), "a: 1\nc: 3\n");
    yamlito::parse(&tree.emit()).expect("reparse");
}

#[test]
fn remove_last_entry() {
    let mut tree = yamlito::parse("a: 1\nb: 2\n").unwrap();
    let map = map_node(&tree);
    remove_map_entry(&mut tree, &map, 1);
    assert_eq!(tree.emit(), "a: 1\n");
    yamlito::parse(&tree.emit()).expect("reparse");
}

#[test]
fn remove_out_of_range_is_noop() {
    let mut tree = yamlito::parse("a: 1\n").unwrap();
    let map = map_node(&tree);
    remove_map_entry(&mut tree, &map, 5);
    assert_eq!(tree.emit(), "a: 1\n");
}

#[test]
fn inserted_entry_is_readable() {
    let mut tree = yamlito::parse("a: 1\n").unwrap();
    let map = map_node(&tree);
    insert_map_entry(&mut tree, &map, 99, "b", Yaml::Int(2));
    // The new value parses as an explicit scalar.
    let scalar = descendants(tree.root())
        .into_iter()
        .filter_map(Scalar::cast)
        .find(|s| s.raw_text().as_deref() == Some("2"));
    assert!(scalar.is_some());
}

#[test]
fn splice_children_green_takes_nothing_for_a_reversed_range() {
    let (_tree, entry) = first_entry("k: v\n");
    let new = mk_token(SyntaxKind::WHITESPACE, "!");
    let range = Range { start: 2, end: 1 };
    let green = splice_children_green(&entry, range, vec![GreenElement::Token(new)]);
    assert_eq!(SyntaxNode::new_root(green).text(), "k:! v");
}

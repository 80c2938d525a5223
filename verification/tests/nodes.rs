use yamlito::ast::nodes::{AstNode, Node, Stream, Tag};

fn parse(src: &'static str) -> Stream {
    let tree = yamlito::parse(src).expect("parse");
    Stream::cast(tree.root().handle()).expect("stream")
}

fn first_doc_root(src: &'static str) -> Node {
    parse(src)
        .documents()
        .into_iter()
        .next()
        .expect("doc")
        .root_node()
        .expect("root")
}

#[test]
fn anchor_name_on_scalar() {
    let node = first_doc_root("&abc hello\n");
    let props = node.properties().expect("props");
    assert_eq!(props.anchor_name().as_deref(), Some("abc"));
}

#[test]
fn anchor_name_empty_when_absent() {
    let node = first_doc_root("hello\n");
    assert!(node.properties().is_none());
}

#[test]
fn alias_name_on_scalar() {
    let node = first_doc_root("*abc\n");
    match node {
        Node::Alias(a) => assert_eq!(a.name().as_deref(), Some("abc")),
        _ => panic!("expected alias"),
    }
}

#[test]
fn alias_in_mapping_value() {
    // key: *abc
    let stream = parse("key: *abc\n");
    let doc = stream.documents().into_iter().next().unwrap();
    let map = match doc.root_node().unwrap() {
        Node::BlockMapping(m) => m,
        _ => panic!(),
    };
    let entry = map.entries().into_iter().next().unwrap();
    match entry.value().unwrap() {
        Node::Alias(a) => assert_eq!(a.name().as_deref(), Some("abc")),
        _ => panic!(),
    }
}

#[test]
fn tag_secondary_shorthand() {
    let node = first_doc_root("!!str 1\n");
    let props = node.properties().expect("props");
    assert_eq!(props.tag_value().unwrap(), Tag::Secondary("str".into()));
}

#[test]
fn tag_primary_local() {
    let node = first_doc_root("!local 1\n");
    let props = node.properties().expect("props");
    assert_eq!(props.tag_value().unwrap(), Tag::Primary("local".into()));
}

#[test]
fn tag_verbatim() {
    let node = first_doc_root("!<tag:example.com,2024:foo> 1\n");
    let props = node.properties().expect("props");
    assert_eq!(
        props.tag_value().unwrap(),
        Tag::Verbatim("tag:example.com,2024:foo".into())
    );
}

#[test]
fn tag_named_handle() {
    let node = first_doc_root("!e!foo 1\n");
    let props = node.properties().expect("props");
    assert_eq!(
        props.tag_value().unwrap(),
        Tag::Handle {
            handle: "e".into(),
            suffix: "foo".into()
        }
    );
}

#[test]
fn tag_non_specific() {
    let node = first_doc_root("! 1\n");
    let props = node.properties().expect("props");
    assert_eq!(props.tag_value().unwrap(), Tag::NonSpecific);
}

#[test]
fn anchor_and_tag_together() {
    let node = first_doc_root("!!str &a hello\n");
    let props = node.properties().expect("props");
    assert_eq!(props.anchor_name().as_deref(), Some("a"));
    assert_eq!(props.tag_value().unwrap(), Tag::Secondary("str".into()));
}

#[test]
fn one_sigil_is_no_part_of_a_name() {
    match first_doc_root("**a\n") {
        Node::Alias(a) => assert_eq!(a.name().as_deref(), Some("*a")),
        _ => panic!("expected alias"),
    }
    let node = first_doc_root("&&a x\n");
    assert_eq!(node.properties().unwrap().anchor_name().as_deref(), Some("&a"));
}

#[test]
fn tags_of_each_form() {
    assert_eq!(Tag::parse("!!!"), Tag::Unknown("!!!".into()));
    assert_eq!(Tag::parse("!!!x"), Tag::Unknown("!!!x".into()));
    assert_eq!(Tag::parse("x"), Tag::Unknown("x".into()));
    assert_eq!(Tag::parse("!!x"), Tag::Secondary("x".into()));
}

#[test]
fn views_tell_where_their_text_is() {
    let stream = parse("# c\nkey: value\n");
    let doc = stream.documents().into_iter().next().unwrap();
    let map = match doc.root_node().unwrap() {
        Node::BlockMapping(m) => m,
        _ => panic!("expected mapping"),
    };
    let entry = map.entries().into_iter().next().unwrap();
    assert_eq!((entry.text_range().start, entry.text_range().end), (4, 14));
    let value = entry.value().unwrap();
    assert_eq!((value.text_range().start, value.text_range().end), (9, 14));
}

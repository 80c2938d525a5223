use yamlito::ast::collections::{Mapping, Sequence};
use yamlito::ast::nodes::{AstNode, Node, Stream};
use yamlito::ast::value::Value;

fn root(src: &str) -> Node {
    let tree = yamlito::parse(src).expect("parse");
    Stream::cast(tree.root().handle())
        .expect("stream")
        .documents()
        .into_iter()
        .next()
        .unwrap()
        .root_node()
        .unwrap()
}

#[test]
fn block_mapping_len() {
    let n = root("a: 1\nb: 2\nc: 3\n");
    assert_eq!(n.as_mapping().unwrap().len(), 3);
}

#[test]
fn block_mapping_get_returns_value_node() {
    let n = root("a: 1\nb: 2\n");
    let val = n.as_mapping().unwrap().get("b").expect("found b");
    match val {
        Node::Scalar(s) => assert_eq!(s.to_value().unwrap(), Value::Int(2)),
        _ => panic!(),
    }
}

#[test]
fn block_mapping_get_missing() {
    let n = root("a: 1\n");
    assert!(n.as_mapping().unwrap().get("missing").is_none());
}

#[test]
fn block_mapping_keys() {
    let n = root("a: 1\nb: 2\nc: 3\n");
    let keys: Vec<String> = n.as_mapping().unwrap().keys();
    assert_eq!(keys, vec!["a", "b", "c"]);
}

#[test]
fn block_mapping_get_nested() {
    let n = root("outer:\n  inner: 42\n");
    let inner_node = n.as_mapping().unwrap().get("outer").unwrap();
    let inner = inner_node.as_mapping().unwrap();
    assert_eq!(inner.len(), 1);
    match inner.get("inner").unwrap() {
        Node::Scalar(s) => assert_eq!(s.to_value().unwrap(), Value::Int(42)),
        _ => panic!(),
    }
}

#[test]
fn flow_mapping_get() {
    let n = root("{a: 1, b: 2}\n");
    let val = n.as_mapping().unwrap().get("a").expect("a");
    match val {
        Node::Scalar(s) => assert_eq!(s.to_value().unwrap(), Value::Int(1)),
        _ => panic!(),
    }
}

#[test]
fn flow_mapping_key_only_entry() {
    let n = root("{a}\n");
    let m = n.as_mapping().unwrap();
    assert_eq!(m.len(), 1);
    assert!(m.get("a").is_none());
}

#[test]
fn block_sequence_len() {
    let n = root("- 1\n- 2\n- 3\n");
    assert_eq!(n.as_sequence().unwrap().len(), 3);
}

#[test]
fn block_sequence_iter() {
    let n = root("- 1\n- 2\n- 3\n");
    let vals: Vec<Value> = n
        .as_sequence()
        .unwrap()
        .iter()
        .into_iter()
        .map(|n| match n {
            Node::Scalar(s) => s.to_value().unwrap(),
            _ => panic!(),
        })
        .collect();
    assert_eq!(vals, vec![Value::Int(1), Value::Int(2), Value::Int(3)]);
}

#[test]
fn flow_sequence_len() {
    let n = root("[a, b, c]\n");
    assert_eq!(n.as_sequence().unwrap().len(), 3);
}

#[test]
fn flow_sequence_iter() {
    let n = root("[1, 2]\n");
    let vals: Vec<Value> = n
        .as_sequence()
        .unwrap()
        .iter()
        .into_iter()
        .map(|n| match n {
            Node::Scalar(s) => s.to_value().unwrap(),
            _ => panic!(),
        })
        .collect();
    assert_eq!(vals, vec![Value::Int(1), Value::Int(2)]);
}

#[test]
fn scalar_is_not_mapping_or_sequence() {
    let n = root("42\n");
    assert!(n.as_mapping().is_none());
    assert!(n.as_sequence().is_none());
}

#[test]
fn mapping_is_not_sequence() {
    let n = root("a: 1\n");
    assert!(n.as_sequence().is_none());
}

#[test]
fn sequence_is_not_mapping() {
    let n = root("- 1\n");
    assert!(n.as_mapping().is_none());
}

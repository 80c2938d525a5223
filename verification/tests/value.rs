use yamlito::ast::nodes::{AstNode, Node, Stream};
use yamlito::ast::scalar::Scalar;
use yamlito::ast::value::{FloatValue, Value};

fn find(node: Node) -> Option<Scalar> {
    match node {
        Node::Scalar(s) => Some(s),
        Node::BlockMapping(m) => m
            .entries()
            .into_iter()
            .next()
            .and_then(|e| e.value())
            .and_then(find),
        Node::BlockSequence(s) => s
            .entries()
            .into_iter()
            .next()
            .and_then(|e| e.value())
            .and_then(find),
        _ => None,
    }
}

fn first_scalar(src: &'static str) -> Scalar {
    let tree = yamlito::parse(src).expect("parse");
    let stream = Stream::cast(tree.root().handle()).expect("stream");
    let doc = stream.documents().into_iter().next().expect("doc");
    let root = doc.root_node().expect("root");
    find(root).expect("scalar")
}

/// The number that a value stands for.
fn float(v: Value) -> f64 {
    match v {
        Value::Float(FloatValue::NotANumber) => f64::NAN,
        Value::Float(FloatValue::Infinity) => f64::INFINITY,
        Value::Float(FloatValue::NegInfinity) => f64::NEG_INFINITY,
        Value::Float(FloatValue::Decimal(s)) => s.parse().expect("number"),
        other => panic!("expected a float, got {other:?}"),
    }
}

fn v(src: &'static str) -> Value {
    first_scalar(src).to_value().expect("value")
}

#[test]
fn null_tilde() {
    assert_eq!(v("~\n"), Value::Null);
}
#[test]
fn null_lower() {
    assert_eq!(v("null\n"), Value::Null);
}
#[test]
fn null_cap() {
    assert_eq!(v("Null\n"), Value::Null);
}
#[test]
fn null_upper() {
    assert_eq!(v("NULL\n"), Value::Null);
}

#[test]
fn bool_true_lower() {
    assert_eq!(v("true\n"), Value::Bool(true));
}
#[test]
fn bool_true_cap() {
    assert_eq!(v("True\n"), Value::Bool(true));
}
#[test]
fn bool_true_upper() {
    assert_eq!(v("TRUE\n"), Value::Bool(true));
}
#[test]
fn bool_false_lower() {
    assert_eq!(v("false\n"), Value::Bool(false));
}
#[test]
fn bool_false_cap() {
    assert_eq!(v("False\n"), Value::Bool(false));
}
#[test]
fn bool_false_upper() {
    assert_eq!(v("FALSE\n"), Value::Bool(false));
}

#[test]
fn int_zero() {
    assert_eq!(v("0\n"), Value::Int(0));
}
#[test]
fn int_positive() {
    assert_eq!(v("42\n"), Value::Int(42));
}
#[test]
fn int_negative() {
    assert_eq!(v("-7\n"), Value::Int(-7));
}
#[test]
fn int_hex() {
    assert_eq!(v("0x1A\n"), Value::Int(26));
}
#[test]
fn int_octal() {
    assert_eq!(v("0o17\n"), Value::Int(15));
}

#[test]
fn int_overflow_falls_back_to_string() {
    assert_eq!(
        v("99999999999999999999\n"),
        Value::String("99999999999999999999".into())
    );
}

#[test]
fn float_decimal() {
    assert_eq!(float(v("1.5\n")), 1.5);
}
#[test]
fn float_negative() {
    assert_eq!(float(v("-0.5\n")), -0.5);
}
#[test]
fn float_exponent() {
    assert_eq!(float(v("1e3\n")), 1000.0);
}
#[test]
fn float_leading_dot() {
    assert_eq!(float(v(".5\n")), 0.5);
}
#[test]
fn float_trailing_dot() {
    assert_eq!(float(v("5.\n")), 5.0);
}

#[test]
fn float_nan() {
    assert!(float(v(".nan\n")).is_nan());
}

#[test]
fn float_inf() {
    assert_eq!(float(v(".inf\n")), f64::INFINITY);
}

#[test]
fn float_neg_inf() {
    assert_eq!(float(v("-.inf\n")), f64::NEG_INFINITY);
}

#[test]
fn string_bareword() {
    assert_eq!(v("hello\n"), Value::String("hello".into()));
}
#[test]
fn string_dash_word() {
    assert_eq!(v("-foo\n"), Value::String("-foo".into()));
}
#[test]
fn string_mixed() {
    assert_eq!(v("3abc\n"), Value::String("3abc".into()));
}

#[test]
fn single_quoted_is_string() {
    assert_eq!(v("'42'\n"), Value::String("42".into()));
}

#[test]
fn double_quoted_is_string() {
    assert_eq!(v("\"true\"\n"), Value::String("true".into()));
}

#[test]
fn literal_block_is_string() {
    assert_eq!(v("|\n  123\n"), Value::String("123\n".into()));
}

#[test]
fn plain_yes_no_not_bool() {
    // YAML 1.2 Core removed 1.1's yes/no/on/off. These stay strings.
    assert_eq!(v("yes\n"), Value::String("yes".into()));
    assert_eq!(v("No\n"), Value::String("No".into()));
    assert_eq!(v("ON\n"), Value::String("ON".into()));
    assert_eq!(v("off\n"), Value::String("off".into()));
}

#[test]
fn plain_empty_is_null() {
    // `key:` followed by EOL → value is empty → null.
    let tree = yamlito::parse("key:\n").unwrap();
    let stream = Stream::cast(tree.root().handle()).unwrap();
    let doc = stream.documents().into_iter().next().unwrap();
    let map = match doc.root_node().unwrap() {
        Node::BlockMapping(m) => m,
        _ => panic!(),
    };
    let entry = map.entries().into_iter().next().unwrap();
    // Empty value now yields an explicit zero-width null node.
    let value = entry.value().expect("value node");
    match value {
        Node::Scalar(s) => {
            assert!(s.is_null());
            assert_eq!(s.to_value().unwrap(), Value::Null);
        }
        _ => panic!("expected null scalar"),
    }
}

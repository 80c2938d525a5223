use yamlito::ast::collections::{Mapping, Sequence};
use yamlito::ast::nodes::{AstNode, Node, Stream};
use yamlito::ast::value::FloatValue;
use yamlito::{SyntaxTree, Yaml};

/// A floating-point number as a value.
fn float(f: f64) -> Yaml {
    Yaml::Float(if f.is_nan() {
        FloatValue::NotANumber
    } else if f == f64::INFINITY {
        FloatValue::Infinity
    } else if f == f64::NEG_INFINITY {
        FloatValue::NegInfinity
    } else {
        FloatValue::Decimal(format!("{f}"))
    })
}

fn build_str(y: &Yaml) -> String {
    y.to_yaml_string()
}

/// Build, then re-parse and confirm the tree round-trips.
fn assert_round_trips(y: &Yaml) -> SyntaxTree {
    let tree = y.build();
    let text = y.to_yaml_string();
    assert_eq!(tree.emit(), text, "built tree must round-trip");
    tree
}

#[test]
fn scalar_kinds() {
    assert_eq!(build_str(&Yaml::Null), "null\n");
    assert_eq!(build_str(&Yaml::Bool(true)), "true\n");
    assert_eq!(build_str(&Yaml::Int(42)), "42\n");
    assert_eq!(build_str(&float(1.5)), "1.5\n");
    assert_eq!(build_str(&Yaml::Str("hello".into())), "hello\n");
}

#[test]
fn float_gets_decimal_point() {
    assert_eq!(build_str(&float(3.0)), "3.0\n");
    assert_eq!(build_str(&float(f64::INFINITY)), ".inf\n");
}

#[test]
fn ambiguous_strings_quoted() {
    assert_eq!(build_str(&Yaml::Str("true".into())), "'true'\n");
    assert_eq!(build_str(&Yaml::Str("123".into())), "'123'\n");
    assert_eq!(build_str(&Yaml::Str("null".into())), "'null'\n");
    assert_eq!(build_str(&Yaml::Str("".into())), "''\n");
    assert_eq!(build_str(&Yaml::Str("a: b".into())), "'a: b'\n");
    assert_eq!(build_str(&Yaml::Str("- x".into())), "'- x'\n");
}

#[test]
fn single_quote_escaping() {
    // A leading apostrophe forces quoting; embedded quotes double.
    assert_eq!(build_str(&Yaml::Str("'tis".into())), "'''tis'\n");
    // Mid-word apostrophe is valid plain — left unquoted.
    assert_eq!(build_str(&Yaml::Str("it's".into())), "it's\n");
}

#[test]
fn simple_map() {
    let y = Yaml::Dict(vec![
        ("a".into(), Yaml::Int(1)),
        ("b".into(), Yaml::Str("x".into())),
    ]);
    assert_eq!(build_str(&y), "a: 1\nb: x\n");
    assert_round_trips(&y);
}

#[test]
fn nested_map() {
    let y = Yaml::Dict(vec![(
        "outer".into(),
        Yaml::Dict(vec![("inner".into(), Yaml::Int(1))]),
    )]);
    assert_eq!(build_str(&y), "outer:\n  inner: 1\n");
    assert_round_trips(&y);
}

#[test]
fn simple_seq() {
    let y = Yaml::List(vec![Yaml::Int(1), Yaml::Int(2)]);
    assert_eq!(build_str(&y), "- 1\n- 2\n");
    assert_round_trips(&y);
}

#[test]
fn seq_of_maps() {
    let y = Yaml::List(vec![
        Yaml::Dict(vec![("host".into(), Yaml::Str("alpha".into()))]),
        Yaml::Dict(vec![("host".into(), Yaml::Str("beta".into()))]),
    ]);
    assert_eq!(build_str(&y), "- host: alpha\n- host: beta\n");
    assert_round_trips(&y);
}

#[test]
fn map_with_seq_value() {
    let y = Yaml::Dict(vec![(
        "tags".into(),
        Yaml::List(vec![Yaml::Str("web".into()), Yaml::Str("api".into())]),
    )]);
    assert_eq!(build_str(&y), "tags:\n  - web\n  - api\n");
    assert_round_trips(&y);
}

#[test]
fn empty_collections_inline() {
    assert_eq!(build_str(&Yaml::List(vec![])), "[]\n");
    assert_eq!(build_str(&Yaml::Dict(vec![])), "{}\n");
    let y = Yaml::Dict(vec![("k".into(), Yaml::List(vec![]))]);
    assert_eq!(build_str(&y), "k: []\n");
}

#[test]
fn deeply_nested_round_trips() {
    let y = Yaml::Dict(vec![(
        "config".into(),
        Yaml::Dict(vec![
            (
                "servers".into(),
                Yaml::List(vec![Yaml::Dict(vec![
                    ("host".into(), Yaml::Str("alpha".into())),
                    ("port".into(), Yaml::Int(80)),
                ])]),
            ),
            ("tags".into(), Yaml::List(vec![Yaml::Str("web".into())])),
        ]),
    )]);
    let tree = assert_round_trips(&y);
    // Spot-check the parsed structure.
    let stream = Stream::cast(tree.root().handle()).unwrap();
    let doc = stream.documents().into_iter().next().unwrap();
    let Node::BlockMapping(root) = doc.root_node().unwrap() else {
        panic!("expected block mapping root");
    };
    let config = root.get("config").unwrap();
    let Node::BlockMapping(config) = config else {
        panic!("expected nested mapping");
    };
    assert_eq!(Mapping::len(&config), 2);
    let servers = config.get("servers").unwrap();
    let Node::BlockSequence(servers) = servers else {
        panic!("expected sequence");
    };
    assert_eq!(Sequence::len(&servers), 1);
}

fn from_yaml(src: &str) -> Yaml {
    Yaml::from_tree(&yamlito::parse(src).expect("parse")).expect("from_tree")
}

fn from_stream(src: &str) -> Vec<Yaml> {
    Yaml::from_stream(&yamlito::parse(src).expect("parse")).expect("from_stream")
}

#[test]
fn from_stream_single_document() {
    assert_eq!(
        from_stream("a: 1\n"),
        vec![Yaml::Dict(vec![("a".into(), Yaml::Int(1))])]
    );
}

#[test]
fn from_stream_multiple_documents() {
    assert_eq!(
        from_stream("a: 1\n---\nb: 2\n"),
        vec![
            Yaml::Dict(vec![("a".into(), Yaml::Int(1))]),
            Yaml::Dict(vec![("b".into(), Yaml::Int(2))]),
        ]
    );
}

#[test]
fn from_stream_empty_is_empty_vec() {
    assert_eq!(from_stream("# comment only\n"), Vec::<Yaml>::new());
}

#[test]
fn from_stream_rejects_alias() {
    let tree = yamlito::parse("a: &x 1\n---\nb: *x\n").unwrap();
    let err = Yaml::from_stream(&tree).unwrap_err();
    assert!(err.contains("alias"), "got {err:?}");
}

#[test]
fn to_multi_string_separates_documents() {
    let docs = vec![
        Yaml::Dict(vec![("a".into(), Yaml::Int(1))]),
        Yaml::Dict(vec![("b".into(), Yaml::Int(2))]),
    ];
    assert_eq!(Yaml::to_multi_string(&docs), "a: 1\n---\nb: 2\n");
}

#[test]
fn to_multi_string_empty_is_empty() {
    assert_eq!(Yaml::to_multi_string(&vec![]), "");
}

#[test]
fn multi_value_survives_emit_and_reparse() {
    let docs = from_stream("a: 1\n---\nb:\n  - x\n  - y\n");
    let reparsed = from_stream(&Yaml::to_multi_string(&docs));
    assert_eq!(docs, reparsed);
}

#[test]
fn from_tree_infers_scalar_types() {
    assert_eq!(from_yaml("42\n"), Yaml::Int(42));
    assert_eq!(from_yaml("true\n"), Yaml::Bool(true));
    assert_eq!(from_yaml("1.5\n"), float(1.5));
    assert_eq!(from_yaml("hello\n"), Yaml::Str("hello".into()));
    assert_eq!(from_yaml("null\n"), Yaml::Null);
    // Quoted scalars stay strings even when they look like numbers.
    assert_eq!(from_yaml("'42'\n"), Yaml::Str("42".into()));
}

#[test]
fn from_tree_walks_collections() {
    let y = from_yaml("name: web\nports:\n  - 80\n  - 443\nmeta:\n  a: 1\n");
    assert_eq!(
        y,
        Yaml::Dict(vec![
            ("name".into(), Yaml::Str("web".into())),
            (
                "ports".into(),
                Yaml::List(vec![Yaml::Int(80), Yaml::Int(443)])
            ),
            ("meta".into(), Yaml::Dict(vec![("a".into(), Yaml::Int(1))])),
        ])
    );
}

#[test]
fn from_tree_flow_collections() {
    assert_eq!(
        from_yaml("{a: 1, b: [x, y]}\n"),
        Yaml::Dict(vec![
            ("a".into(), Yaml::Int(1)),
            (
                "b".into(),
                Yaml::List(vec![Yaml::Str("x".into()), Yaml::Str("y".into())])
            ),
        ])
    );
}

#[test]
fn from_tree_empty_value_is_null() {
    assert_eq!(
        from_yaml("key:\n"),
        Yaml::Dict(vec![("key".into(), Yaml::Null)])
    );
}

#[test]
fn from_tree_empty_stream_is_null() {
    assert_eq!(from_yaml("# just a comment\n"), Yaml::Null);
}

#[test]
fn from_tree_rejects_multi_document() {
    let tree = yamlito::parse("a: 1\n---\nb: 2\n").unwrap();
    let err = Yaml::from_tree(&tree).unwrap_err();
    assert!(err.contains("multi-document"), "got {err:?}");
}

#[test]
fn from_tree_rejects_alias() {
    let tree = yamlito::parse("a: &x 1\nb: *x\n").unwrap();
    let err = Yaml::from_tree(&tree).unwrap_err();
    assert!(err.contains("alias"), "got {err:?}");
}

#[test]
fn from_tree_reads_through_anchor() {
    // An anchor decorates the value; the value itself is what we read.
    assert_eq!(
        from_yaml("a: &x 1\n"),
        Yaml::Dict(vec![("a".into(), Yaml::Int(1))])
    );
}

#[test]
fn value_survives_emit_and_reparse() {
    // parse/to_string are not byte-stable (the library owns the
    // output format), but a value must re-decode to the same value
    // after being emitted and re-parsed.
    let src = "name: web\nports:\n  - 80\n  - 443\nmeta:\n  a: 1\n";
    let y = from_yaml(src);
    let reparsed = from_yaml(&y.to_yaml_string());
    assert_eq!(y, reparsed);
}

use yamlito::ast::value::FloatValue;
use yamlito::builder::quote_scalar;
use yamlito::edit::entry::{insert_map_entry, remove_map_entry};
use yamlito::{SyntaxKind, SyntaxNode, SyntaxTree, Yaml};

fn descendants(n: &SyntaxNode) -> Vec<SyntaxNode> {
    let mut out = vec![n.handle()];
    for c in n.children() {
        out.extend(descendants(&c));
    }
    out
}

/// The block mapping at place `i`, in document order.
fn mapping(tree: &SyntaxTree, i: usize) -> SyntaxNode {
    descendants(tree.root())
        .into_iter()
        .filter(|n| n.kind() == SyntaxKind::BLOCK_MAPPING)
        .nth(i)
        .expect("block mapping")
}

fn text(s: &str) -> Yaml {
    Yaml::Str(s.into())
}

/// Strings that need care, and are read back.
fn words() -> Vec<&'static str> {
    vec![
        "it's", "'tis", "- x", "a: b", "a:b", "#c", "a #b", "a#b", "é", "x é:", "null", "true", "12",
        "-5", "0x1f", "", "...", "?", "% x", "a  b", "a\tb", "\"", "@", "[", "- ", "~", "1.5", ".inf",
        " ", " x", "x ", "\t", "a\nb", "\n", "a\n", "a\r\nb", "\r", "\u{feff}", "\u{feff}a", "a\0b",
        "... x", "....", "---", "'", "''", "\\", "\u{1b}", "\u{2028}", "\u{85}",
    ]
}

fn sample() -> Yaml {
    Yaml::Dict(vec![
        ("words".into(), Yaml::List(vec![text("- x"), text("a #b"), text("é")])),
        (
            "deep".into(),
            Yaml::List(vec![
                Yaml::List(vec![Yaml::Int(-5), Yaml::List(vec![])]),
                Yaml::Dict(vec![
                    ("a: b".into(), Yaml::Dict(vec![("...".into(), Yaml::Null)])),
                    ("c".into(), Yaml::Dict(vec![])),
                ]),
                Yaml::Bool(false),
            ]),
        ),
        ("x:".into(), Yaml::Float(FloatValue::NegInfinity)),
        ("f".into(), Yaml::Float(FloatValue::Decimal("-1.5e3".into()))),
        ("".into(), Yaml::Int(i64::MAX)),
    ])
}

#[test]
fn values_are_read_back() {
    let y = sample();
    let tree = y.build();
    assert_eq!(Yaml::from_tree(&tree).expect("value"), y);
}

#[test]
fn strings_are_read_back() {
    for w in words() {
        let y = text(w);
        assert_eq!(Yaml::from_tree(&y.build()).expect("value"), y, "{w:?}");
        let y = Yaml::Dict(vec![(w.into(), Yaml::List(vec![text(w)]))]);
        assert_eq!(Yaml::from_tree(&y.build()).expect("value"), y, "{w:?}");
    }
}

#[test]
fn strings_are_quoted_where_they_must_be() {
    for (s, t) in [
        ("...", "'...'\n"),
        ("... x", "'... x'\n"),
        ("- x", "'- x'\n"),
        ("- ", "\"- \"\n"),
        ("a\nb", "\"a\\nb\"\n"),
        ("a\rb", "\"a\\rb\"\n"),
        ("\u{feff}a", "'\u{feff}a'\n"),
        ("12", "'12'\n"),
        ("a b", "a b\n"),
    ] {
        assert_eq!(text(s).to_yaml_string(), t);
    }
    assert_eq!(quote_scalar("it's").iter().collect::<String>(), "it's");
    assert_eq!(quote_scalar("").iter().collect::<String>(), "''");
    assert_eq!(quote_scalar("'a").iter().collect::<String>(), "'''a'");
}

#[test]
fn integers_are_read_back() {
    for n in [i64::MIN, i64::MIN + 1, -1, 0, 1, i64::MAX] {
        let y = Yaml::Int(n);
        assert_eq!(Yaml::from_tree(&y.build()).expect("value"), y);
    }
}

#[test]
fn documents_are_read_back() {
    let docs = vec![
        sample(),
        Yaml::Null,
        Yaml::List(vec![text("...")]),
        Yaml::Dict(vec![]),
        text("é"),
        sample(),
    ];
    let tree = yamlito::parse(&Yaml::to_multi_string(&docs)).expect("parse");
    assert_eq!(Yaml::from_stream(&tree).expect("values"), docs);
}

#[test]
fn removing_undoes_inserting() {
    for (src, depth) in [("a: 1\nb: 2\n", 0), ("x:\n  a: 1\n  # note\n  b: 2\n", 1)] {
        for index in 0..4 {
            let mut tree = yamlito::parse(src).expect("parse");
            let map = mapping(&tree, depth);
            insert_map_entry(&mut tree, &map, index, "new", sample());
            assert_ne!(tree.emit(), src);
            let map = mapping(&tree, depth);
            remove_map_entry(&mut tree, &map, if index < 2 { index } else { 2 });
            assert_eq!(tree.emit(), src);
        }
    }
}

#[test]
fn removing_undoes_inserting_in_parsed_texts() {
    let sources = [
        "a: 1",
        "a: 1\n",
        "a: 1 # x\n\n# y\nb: 2\n",
        "# top\na:\n    - 1\nb: |\n  t\n",
        "a: 1\r\nb: 2\r\n",
        "- a: 1\n  b: 2\n",
        "? a\n: b\nc: d\n",
    ];
    for src in sources {
        for index in 0..4 {
            let mut tree = yamlito::parse(src).expect("parse");
            let map = mapping(&tree, 0);
            let count = map
                .children()
                .iter()
                .filter(|n| n.kind() == SyntaxKind::BLOCK_MAPPING_ENTRY)
                .count();
            insert_map_entry(&mut tree, &map, index, "zz", Yaml::Int(7));
            assert_ne!(tree.emit(), src);
            let map = mapping(&tree, 0);
            remove_map_entry(&mut tree, &map, index.min(count));
            assert_eq!(tree.emit(), src);
        }
    }
}

#[test]
fn inserted_entries_are_read_in_place() {
    for index in 0..4 {
        let mut tree = yamlito::parse("x:\n  a: 1\n  b: 2\n").expect("parse");
        let map = mapping(&tree, 1);
        insert_map_entry(&mut tree, &map, index, "it's: new", sample());
        let mut pairs = vec![("a".to_string(), Yaml::Int(1)), ("b".to_string(), Yaml::Int(2))];
        let at = if index < 2 { index } else { 2 };
        pairs.insert(at, ("it's: new".to_string(), sample()));
        let y = Yaml::Dict(vec![("x".into(), Yaml::Dict(pairs))]);
        assert_eq!(Yaml::from_tree(&tree).expect("value"), y);
    }
}

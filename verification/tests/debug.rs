use yamlito::debug::{ast_string, cst_string};
use yamlito::syntax::known::has_known_kinds;
use yamlito::{SyntaxNode, SyntaxTree};

#[test]
fn nodes_and_tokens_in_lines() {
    let tree = yamlito::parse("a: 1\n").expect("parse");
    assert!(has_known_kinds(&tree));
    assert_eq!(
        cst_string(&tree),
        "STREAM@0..5\n  DOCUMENT@0..4\n    BLOCK_MAPPING@0..4\n      BLOCK_MAPPING_ENTRY@0..4\n        SCALAR@0..1\n          PLAIN_SCALAR@0..1 \"a\"\n        COLON@1..2 \":\"\n        WHITESPACE@2..3 \" \"\n        SCALAR@3..4\n          PLAIN_SCALAR@3..4 \"1\"\n  NEWLINE@4..5 \"\\n\"\n"
    );
}

#[test]
fn values_in_lines() {
    let tree = yamlito::parse("a: &x 'b\"'\nc: [1, *x]\n").expect("parse");
    assert_eq!(
        ast_string(&tree),
        "Stream\n  Document\n    BlockMapping (2 entries)\n      Entry\n        Key\n          Scalar [plain] \"a\"\n            decoded=\"a\" value=String(\"a\")\n        Value\n          Scalar [single] \"'b\\\"'\"\n            NodeProperties\n              anchor &x\n            decoded=\"b\\\"\" value=String(\"b\\\"\")\n      Entry\n        Key\n          Scalar [plain] \"c\"\n            decoded=\"c\" value=String(\"c\")\n        Value\n          FlowSequence (2 entries)\n            Scalar [plain] \"1\"\n              decoded=\"1\" value=Int(1)\n            Alias *x\n"
    );
}

#[test]
fn tags_and_nulls_in_lines() {
    let tree = yamlito::parse("%YAML 1.2\n---\na: !!str x\nb:\n").expect("parse");
    let text = ast_string(&tree);
    assert!(cst_string(&tree).contains("  DIRECTIVES@0..10\n    DIRECTIVE@0..9 \"%YAML 1.2\"\n"));
    assert!(text.contains("tag Secondary(\"str\")\n"), "{text}");
    assert!(text.contains("Null\n"), "{text}");
}

#[test]
fn unknown_kinds_are_told() {
    let none: Vec<rowan::NodeOrToken<rowan::GreenNode, rowan::GreenToken>> = vec![];
    let inner = rowan::GreenNode::new(rowan::SyntaxKind(999), none);
    let outer = rowan::GreenNode::new(rowan::SyntaxKind(0), vec![rowan::NodeOrToken::Node(inner)]);
    let tree = SyntaxTree::new(SyntaxNode::new_root(outer));
    assert!(!has_known_kinds(&tree));
}

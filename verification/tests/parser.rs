use yamlito::{SyntaxElement, SyntaxKind, SyntaxNode};

fn expect_err(src: &'static str, substring: &str) {
    match yamlito::parse(src) {
        Ok(_) => panic!("expected error for {src:?}"),
        Err(err) => assert!(
            err.message.contains(substring),
            "for {src:?}: expected message to contain {substring:?}, got {:?}",
            err.message
        ),
    }
}

fn holds_error(n: &SyntaxNode) -> bool {
    n.children_with_tokens().iter().any(|e| match e {
        SyntaxElement::Node(c) => holds_error(c),
        SyntaxElement::Token(t) => t.kind() == SyntaxKind::ERROR,
    })
}

#[test]
fn unterminated_single_quoted() {
    expect_err("x: 'oops\n", "unterminated single-quoted");
}

#[test]
fn unterminated_double_quoted() {
    expect_err("x: \"oops\n", "unterminated double-quoted");
}

#[test]
fn tabs_in_block_indent_rejected() {
    // A block mapping with a tab-indented nested entry.
    expect_err("outer:\n\tinner: x\n", "tabs not allowed");
}

#[test]
fn tabs_in_block_sequence_indent_rejected() {
    expect_err("outer:\n\t- x\n", "tabs not allowed");
}

#[test]
fn recover_always_returns_tree_and_round_trips() {
    // An unterminated quote is a hard error for strict parse.
    let src = "a: 1\nb: 'oops\n";
    assert!(yamlito::parse(src).is_err());
    let (tree, errors) = yamlito::parse_recover(src);
    assert!(!errors.is_empty(), "expected at least one error");
    assert_eq!(tree.emit(), src, "recovered tree must round-trip");
}

#[test]
fn recover_captures_remainder_as_error_token() {
    let src = "outer:\n\t- x\n";
    let (tree, errors) = yamlito::parse_recover(src);
    assert!(!errors.is_empty());
    assert_eq!(tree.emit(), src);
    let has_error = holds_error(tree.root());
    assert!(has_error, "expected an ERROR token in the recovered tree");
}

#[test]
fn recover_clean_input_has_no_errors() {
    let (tree, errors) = yamlito::parse_recover("a: 1\nb: 2\n");
    assert!(errors.is_empty());
    assert_eq!(tree.emit(), "a: 1\nb: 2\n");
}

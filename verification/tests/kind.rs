use yamlito::{SyntaxKind, YamlLang};

#[test]
fn token_vs_node_split() {
    assert!(SyntaxKind::WHITESPACE.is_token());
    assert!(SyntaxKind::PLAIN_SCALAR.is_token());
    assert!(SyntaxKind::ERROR.is_token());
    assert!(SyntaxKind::STREAM.is_node());
    assert!(SyntaxKind::BLOCK_MAPPING.is_node());
    assert!(!SyntaxKind::__LAST.is_node());
}

#[test]
fn trivia_set() {
    assert!(SyntaxKind::WHITESPACE.is_trivia());
    assert!(SyntaxKind::NEWLINE.is_trivia());
    assert!(SyntaxKind::COMMENT.is_trivia());
    assert!(!SyntaxKind::BOM.is_trivia());
    assert!(!SyntaxKind::COLON.is_trivia());
}

#[test]
fn round_trip_raw_kind() {
    for kind in [SyntaxKind::WHITESPACE, SyntaxKind::COLON, SyntaxKind::DIRECTIVE, SyntaxKind::STREAM, SyntaxKind::SCALAR] {
        let raw = YamlLang::kind_to_raw(kind);
        assert_eq!(YamlLang::kind_from_raw(raw), Some(kind));
    }
}

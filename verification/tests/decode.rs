//! What scalars of each style stand for.

use yamlito::ast::decode::{
    decode_block, decode_double_quoted, decode_single_quoted, unicode_from_hex, BlockStyle,
    DecodeError,
};
use yamlito::ast::nodes::{AstNode, Node, Stream};
use yamlito::ast::scalar::Scalar;
use yamlito::debug::escape;
use yamlito::Yaml;

fn find(node: Node) -> Option<Scalar> {
    match node {
        Node::Scalar(s) => Some(s),
        Node::BlockMapping(m) => m
            .entries()
            .into_iter()
            .next()
            .and_then(|e| e.value())
            .and_then(find),
        Node::BlockSequence(s) => s
            .entries()
            .into_iter()
            .next()
            .and_then(|e| e.value())
            .and_then(find),
        _ => None,
    }
}

fn first_scalar(src: &'static str) -> Scalar {
    let tree = yamlito::parse(src).expect("parse");
    let stream = Stream::cast(tree.root().handle()).expect("stream");
    let doc = stream.documents().into_iter().next().expect("doc");
    let root = doc.root_node().expect("root");
    find(root).expect("scalar")
}

#[test]
fn plain_simple() {
    assert_eq!(first_scalar("hello\n").decoded().unwrap(), "hello");
}

#[test]
fn plain_with_internal_spaces() {
    assert_eq!(
        first_scalar("hello world\n").decoded().unwrap(),
        "hello world"
    );
}

#[test]
fn plain_in_mapping_value() {
    assert_eq!(first_scalar("k: v\n").decoded().unwrap(), "v");
}

#[test]
fn plain_multiline_folds_newline_to_space() {
    // "k: line one\n  line two\n" → "line one line two"
    assert_eq!(
        first_scalar("k: line one\n  line two\n").decoded().unwrap(),
        "line one line two"
    );
}

#[test]
fn plain_multiline_three_lines() {
    assert_eq!(first_scalar("k: a\n  b\n  c\n").decoded().unwrap(), "a b c");
}

#[test]
fn plain_multiline_blank_line_is_newline() {
    // Blank line inside a plain scalar folds to a newline.
    assert_eq!(first_scalar("k: a\n\n  b\n").decoded().unwrap(), "a\nb");
}

#[test]
fn plain_multiline_two_blank_lines_is_two_newlines() {
    assert_eq!(first_scalar("k: a\n\n\n  b\n").decoded().unwrap(), "a\n\nb");
}

#[test]
fn decode_single_quoted_simple() {
    assert_eq!(first_scalar("'hello'\n").decoded().unwrap(), "hello");
}

#[test]
fn single_quoted_with_escape() {
    assert_eq!(first_scalar("'it''s'\n").decoded().unwrap(), "it's");
}

#[test]
fn single_quoted_empty() {
    assert_eq!(first_scalar("''\n").decoded().unwrap(), "");
}

#[test]
fn single_quoted_multiline_folds() {
    assert_eq!(
        first_scalar("k: 'line one\n  line two'\n")
            .decoded()
            .unwrap(),
        "line one line two"
    );
}

#[test]
fn single_quoted_multiline_blank_is_newline() {
    assert_eq!(first_scalar("k: 'a\n\n  b'\n").decoded().unwrap(), "a\nb");
}

#[test]
fn single_quoted_escape_across_lines() {
    assert_eq!(
        first_scalar("k: 'it''s\n  great'\n").decoded().unwrap(),
        "it's great"
    );
}

#[test]
fn decode_double_quoted_simple() {
    assert_eq!(first_scalar("\"hello\"\n").decoded().unwrap(), "hello");
}

#[test]
fn double_quoted_empty() {
    assert_eq!(first_scalar("\"\"\n").decoded().unwrap(), "");
}

#[test]
fn double_quoted_escape_newline() {
    assert_eq!(first_scalar("\"a\\nb\"\n").decoded().unwrap(), "a\nb");
}

#[test]
fn double_quoted_escape_tab() {
    assert_eq!(first_scalar("\"a\\tb\"\n").decoded().unwrap(), "a\tb");
}

#[test]
fn double_quoted_escape_backslash() {
    assert_eq!(first_scalar("\"a\\\\b\"\n").decoded().unwrap(), "a\\b");
}

#[test]
fn double_quoted_escape_quote() {
    assert_eq!(first_scalar("\"a\\\"b\"\n").decoded().unwrap(), "a\"b");
}

#[test]
fn double_quoted_hex_escape() {
    assert_eq!(first_scalar("\"A\\x41\"\n").decoded().unwrap(), "AA");
}

#[test]
fn double_quoted_unicode_4hex() {
    assert_eq!(first_scalar("\"\\u00e9\"\n").decoded().unwrap(), "é");
}

#[test]
fn double_quoted_unicode_8hex() {
    assert_eq!(first_scalar("\"\\U0001F600\"\n").decoded().unwrap(), "😀");
}

#[test]
fn double_quoted_null_escape() {
    assert_eq!(first_scalar("\"a\\0b\"\n").decoded().unwrap(), "a\0b");
}

#[test]
fn double_quoted_line_continuation_backslash_newline() {
    // `\<newline>` suppresses the newline; indent on next line absorbed.
    assert_eq!(first_scalar("\"a\\\n  b\"\n").decoded().unwrap(), "ab");
}

#[test]
fn double_quoted_multiline_folds() {
    assert_eq!(
        first_scalar("k: \"line one\n  line two\"\n")
            .decoded()
            .unwrap(),
        "line one line two"
    );
}

#[test]
fn double_quoted_multiline_blank_is_newline() {
    assert_eq!(first_scalar("k: \"a\n\n  b\"\n").decoded().unwrap(), "a\nb");
}

#[test]
fn double_quoted_invalid_escape_is_error() {
    let s = first_scalar("\"a\\qb\"\n");
    assert!(s.decoded().is_err());
}

#[test]
fn double_quoted_slash_escape() {
    // `\/` decodes to `/`.
    assert_eq!(first_scalar("\"a\\/b\"\n").decoded().unwrap(), "a/b");
}

#[test]
fn double_quoted_space_escape() {
    // `\ ` decodes to a literal space.
    assert_eq!(first_scalar("\"a\\ b\"\n").decoded().unwrap(), "a b");
}

#[test]
fn literal_single_line_clip() {
    // Default chomp is clip: one trailing newline.
    assert_eq!(
        first_scalar("k: |\n  hello\n").decoded().unwrap(),
        "hello\n"
    );
}

#[test]
fn literal_two_lines_clip() {
    assert_eq!(
        first_scalar("k: |\n  hello\n  world\n").decoded().unwrap(),
        "hello\nworld\n"
    );
}

#[test]
fn literal_strip() {
    assert_eq!(first_scalar("k: |-\n  hello\n").decoded().unwrap(), "hello");
}

#[test]
fn literal_keep() {
    // Trailing blank lines preserved.
    assert_eq!(
        first_scalar("k: |+\n  hello\n\n").decoded().unwrap(),
        "hello\n\n"
    );
}

#[test]
fn literal_preserves_blank_lines_inside() {
    assert_eq!(
        first_scalar("k: |\n  a\n\n  b\n").decoded().unwrap(),
        "a\n\nb\n"
    );
}

#[test]
fn literal_explicit_indent_indicator() {
    assert_eq!(
        first_scalar("k: |2\n  hello\n").decoded().unwrap(),
        "hello\n"
    );
}

#[test]
fn literal_empty_body() {
    assert_eq!(first_scalar("k: |\n").decoded().unwrap(), "");
}

#[test]
fn literal_more_indented_lines_preserve_extra_indent() {
    // Body is at indent 2; the "  extra" line is at indent 4 → 2 spaces preserved.
    assert_eq!(
        first_scalar("k: |\n  a\n    extra\n  b\n")
            .decoded()
            .unwrap(),
        "a\n  extra\nb\n"
    );
}

#[test]
fn folded_single_line_clip() {
    assert_eq!(
        first_scalar("k: >\n  hello\n").decoded().unwrap(),
        "hello\n"
    );
}

#[test]
fn folded_two_lines_fold_to_space() {
    assert_eq!(
        first_scalar("k: >\n  hello\n  world\n").decoded().unwrap(),
        "hello world\n"
    );
}

#[test]
fn folded_blank_line_becomes_newline() {
    assert_eq!(
        first_scalar("k: >\n  a\n\n  b\n").decoded().unwrap(),
        "a\nb\n"
    );
}

#[test]
fn folded_more_indented_line_keeps_newlines() {
    // "  a\n    indent\n  b" → "a\n  indent\nb\n"
    assert_eq!(
        first_scalar("k: >\n  a\n    indent\n  b\n")
            .decoded()
            .unwrap(),
        "a\n  indent\nb\n"
    );
}

#[test]
fn folded_strip() {
    assert_eq!(first_scalar("k: >-\n  a\n  b\n").decoded().unwrap(), "a b");
}

#[test]
fn hex_is_made_of_digits_alone() {
    assert_eq!(
        unicode_from_hex("+4", 0),
        Err(DecodeError::InvalidHex { at: 0, text: "+4".into() })
    );
    assert_eq!(unicode_from_hex("4a", 0), Ok('J'));
    assert_eq!(unicode_from_hex("000000004A", 0), Ok('J'));
    assert_eq!(
        unicode_from_hex("d800", 3),
        Err(DecodeError::InvalidHex { at: 3, text: "d800".into() })
    );
    assert_eq!(
        unicode_from_hex("", 2),
        Err(DecodeError::InvalidHex { at: 2, text: "".into() })
    );
    assert!(unicode_from_hex("1234567890", 0).is_err());
}

#[test]
fn folded_keeps_as_many_line_breaks_as_there_are() {
    assert_eq!(decode_block(">+\n  a\n", BlockStyle::Folded).unwrap(), "a\n");
    assert_eq!(decode_block(">+\n  a\n\n", BlockStyle::Folded).unwrap(), "a\n\n");
    assert_eq!(decode_block(">+\n  a\n  b\n\n\n", BlockStyle::Folded).unwrap(), "a b\n\n\n");
    assert_eq!(decode_block(">\n  a\n\n", BlockStyle::Folded).unwrap(), "a\n");
    assert_eq!(decode_block(">-\n  a\n\n", BlockStyle::Folded).unwrap(), "a");
}

#[test]
fn clipped_text_ends_with_one_line_break() {
    assert_eq!(first_scalar("k: |\n  hello\nnext: 1\n").decoded().unwrap(), "hello\n");
    assert_eq!(first_scalar("k: >\n  a\n  b\nnext: 1\n").decoded().unwrap(), "a b\n");
    assert_eq!(first_scalar("k: |-\n  hello\nnext: 1\n").decoded().unwrap(), "hello");
    assert_eq!(first_scalar("k: |\n  hello").decoded().unwrap(), "hello\n");
}

#[test]
fn single_quotes_keep_every_character_of_a_line() {
    assert_eq!(decode_single_quoted("'a\0b''c'").unwrap(), "a\0b'c");
    assert_eq!(decode_single_quoted("'''tis'").unwrap(), "'tis");
    assert_eq!(decode_single_quoted("'a'' ''b'").unwrap(), "a' 'b");
    assert_eq!(decode_single_quoted("'a"), Err(DecodeError::MalformedQuoted));
}

#[test]
fn double_quotes_undo_escapes() {
    for s in ["", "a", "\"", "\\", "a\nb", "\r\t ", " x ", "é\u{feff}", "\u{7f}\0\u{1b}", "\u{1f600}'"] {
        assert_eq!(decode_double_quoted(&escape(s)).unwrap(), s, "{s:?}");
    }
}

fn value_of(src: &str, key: &str) -> String {
    let tree = yamlito::parse(src).expect("parse");
    match Yaml::from_tree(&tree).expect("value") {
        Yaml::Dict(pairs) => match pairs.into_iter().find(|p| p.0 == key).expect("key").1 {
            Yaml::Str(s) => s,
            y => panic!("expected a string, got {y:?}"),
        },
        y => panic!("expected a mapping, got {y:?}"),
    }
}

#[test]
fn kept_text_keeps_all_its_line_breaks() {
    for (src, text) in [
        ("k: |+\n  a\nnext: 1\n", "a\n"),
        ("k: |+\n  a\n\nnext: 1\n", "a\n\n"),
        ("k: |+\n  a\n\n\nnext: 1\n", "a\n\n\n"),
        ("k: >+\n  a\n  b\nnext: 1\n", "a b\n"),
        ("k: >+\n  a\n\nnext: 1\n", "a\n\n"),
        ("k: |+\nnext: 1\n", ""),
        ("k: |+\n\nnext: 1\n", "\n"),
        ("k: |+\n  a\n---\nb\n", "a\n"),
        ("k: |+\n  a\n", "a\n"),
        ("k: |+\n  a\n\n", "a\n\n"),
        ("k: |+\n  a", "a"),
        ("k: |-\n  a\n\nnext: 1\n", "a"),
        ("k: |\n  a\n\nnext: 1\n", "a\n"),
    ] {
        let tree = yamlito::parse(src).expect("parse");
        let stream = Stream::cast(tree.root().handle()).expect("stream");
        let root = stream.documents().into_iter().next().expect("doc").root_node().expect("root");
        assert_eq!(find(root).expect("scalar").decoded().unwrap(), text, "{src:?}");
        if !src.contains("---") {
            assert_eq!(value_of(src, "k"), text, "{src:?}");
        }
    }
}

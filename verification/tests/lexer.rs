use yamlito::lexer::{as_plain_scalar, LexError, LexHint, Lexer, PlainStop};
use yamlito::SyntaxKind;

fn lex(src: &str) -> Lexer<'_> {
    Lexer::new(src)
}

fn bump<'a>(l: &mut Lexer<'a>) -> (SyntaxKind, &'a str) {
    l.bump_simple()
}

#[test]
fn empty_is_eof() {
    let l = lex("");
    assert!(l.at_eof());
    assert_eq!(l.peek(), None);
}

#[test]
fn whitespace_spaces_and_tabs_combined_no_newline() {
    let mut l = lex("  \t  \nX");
    let (k, t) = bump(&mut l);
    assert_eq!(k, SyntaxKind::WHITESPACE);
    assert_eq!(t, "  \t  ");
    assert_eq!(l.pos(), 5);
}

#[test]
fn newline_lf_crlf_cr() {
    let mut l = lex("\n\r\n\rX");
    assert_eq!(bump(&mut l), (SyntaxKind::NEWLINE, "\n"));
    assert_eq!(bump(&mut l), (SyntaxKind::NEWLINE, "\r\n"));
    assert_eq!(bump(&mut l), (SyntaxKind::NEWLINE, "\r"));
    assert_eq!(l.peek(), Some(LexHint::PlainStart));
}

#[test]
fn comment_at_line_start() {
    let mut l = lex("# hello\n");
    let (k, t) = bump(&mut l);
    assert_eq!(k, SyntaxKind::COMMENT);
    assert_eq!(t, "# hello");
    // newline is a separate token
    assert_eq!(bump(&mut l), (SyntaxKind::NEWLINE, "\n"));
}

#[test]
fn comment_after_space_is_comment() {
    let mut l = lex("x #c");
    // skip 'x' (plain start); we don't scan plain yet, but we can
    // inspect by asking the byte.
    assert_eq!(l.peek(), Some(LexHint::PlainStart));
    l.set_pos(1); // pretend the parser consumed "x"
    assert_eq!(bump(&mut l), (SyntaxKind::WHITESPACE, " "));
    assert_eq!(bump(&mut l), (SyntaxKind::COMMENT, "#c"));
}

#[test]
fn hash_not_after_whitespace_is_plain() {
    // "a#b": the '#' is not after whitespace → PlainStart (entire run
    // a#b scanned as plain later)
    let mut l = lex("a#b");
    l.set_pos(1); // parser positioned at '#'
    assert_eq!(l.peek(), Some(LexHint::PlainStart));
}

#[test]
fn bom_bytes_classified() {
    let l = lex("\u{FEFF}x");
    assert_eq!(l.peek(), Some(LexHint::Token(SyntaxKind::BOM)));
}

#[test]
fn bom_consumed_three_bytes() {
    let mut l = lex("\u{FEFF}x");
    assert_eq!(bump(&mut l), (SyntaxKind::BOM, "\u{FEFF}"));
    assert_eq!(l.pos(), 3);
}

#[test]
fn colon_and_punctuation() {
    let mut l = lex(":,{}[]");
    for expected in [
        SyntaxKind::COLON,
        SyntaxKind::COMMA,
        SyntaxKind::L_BRACE,
        SyntaxKind::R_BRACE,
        SyntaxKind::L_BRACKET,
        SyntaxKind::R_BRACKET,
    ] {
        let (k, _) = bump(&mut l);
        assert_eq!(k, expected);
    }
}

#[test]
fn dash_indicator_vs_plain() {
    let l = lex("- x");
    assert_eq!(l.peek(), Some(LexHint::Token(SyntaxKind::DASH)));

    let l = lex("-x");
    assert_eq!(l.peek(), Some(LexHint::PlainStart));

    let l = lex("-");
    assert_eq!(l.peek(), Some(LexHint::Token(SyntaxKind::DASH)));

    let l = lex("-\n");
    assert_eq!(l.peek(), Some(LexHint::Token(SyntaxKind::DASH)));
}

#[test]
fn question_indicator_classified() {
    let l = lex("? key");
    assert_eq!(l.peek(), Some(LexHint::Token(SyntaxKind::QUESTION)));
}

#[test]
fn question_not_indicator_is_plain() {
    let l = lex("?foo");
    assert_eq!(l.peek(), Some(LexHint::PlainStart));
}

#[test]
fn percent_at_column_0_is_directive() {
    let l = lex("%YAML 1.2");
    assert_eq!(l.peek(), Some(LexHint::Token(SyntaxKind::DIRECTIVE)));
}

#[test]
fn percent_not_at_column_0_is_plain() {
    // Hypothetical: after some content on a line, `%` is plain.
    let mut l = lex("a %x");
    l.set_pos(2);
    assert_eq!(l.peek(), Some(LexHint::PlainStart));
}

#[test]
fn bump_directive_consumes_to_end_of_line() {
    let mut l = lex("%YAML 1.2\n---");
    let (k, t) = l.bump_simple();
    assert_eq!(k, SyntaxKind::DIRECTIVE);
    assert_eq!(t, "%YAML 1.2");
}

#[test]
fn block_scalar_sigils_classified() {
    assert_eq!(
        lex("| x").peek(),
        Some(LexHint::Token(SyntaxKind::LITERAL_SCALAR))
    );
    assert_eq!(
        lex("> x").peek(),
        Some(LexHint::Token(SyntaxKind::FOLDED_SCALAR))
    );
}

#[test]
fn bump_block_scalar_basic_literal() {
    let mut l = lex("|\n  hello\n");
    let (k, t) = l.bump_block_scalar(0).unwrap();
    assert_eq!(k, SyntaxKind::LITERAL_SCALAR);
    // Includes the final newline because loop iter consumed it before
    // detecting EOF.
    assert_eq!(t, "|\n  hello\n");
}

#[test]
fn bump_block_scalar_chomp_keep() {
    let mut l = lex("|+\n  a\n\n");
    let (_, t) = l.bump_block_scalar(0).unwrap();
    assert_eq!(t, "|+\n  a\n\n");
}

#[test]
fn bump_block_scalar_terminated_by_lower_indent() {
    let mut l = lex("|\n  a\n  b\nnext\n");
    let (_, t) = l.bump_block_scalar(0).unwrap();
    // Stops at the newline before "next"; the newline stays as trivia.
    assert_eq!(t, "|\n  a\n  b");
    assert_eq!(l.peek_byte(), Some(b'\n'));
}

#[test]
fn anchor_alias_tag_classified() {
    assert_eq!(
        lex("&anchor").peek(),
        Some(LexHint::Token(SyntaxKind::ANCHOR))
    );
    assert_eq!(
        lex("*alias").peek(),
        Some(LexHint::Token(SyntaxKind::ALIAS))
    );
    assert_eq!(lex("!tag").peek(), Some(LexHint::Token(SyntaxKind::TAG)));
}

#[test]
fn bump_anchor_consumes_name() {
    let mut l = lex("&abc rest");
    let s = l.bump_anchor().unwrap();
    assert_eq!(s, "&abc");
    assert_eq!(l.peek_byte(), Some(b' '));
}

#[test]
fn bump_alias_stops_at_flow_indicator() {
    let mut l = lex("*a,b");
    let s = l.bump_alias().unwrap();
    assert_eq!(s, "*a");
    assert_eq!(l.peek_byte(), Some(b','));
}

#[test]
fn bump_anchor_empty_is_error() {
    let mut l = lex("& ");
    assert_eq!(l.bump_anchor(), Err(LexError::EmptyAnchorName { start: 0 }));
}

#[test]
fn bump_tag_bare() {
    let mut l = lex("! x");
    let s = l.bump_tag().unwrap();
    assert_eq!(s, "!");
}

#[test]
fn bump_tag_secondary_shorthand() {
    let mut l = lex("!!str x");
    let s = l.bump_tag().unwrap();
    assert_eq!(s, "!!str");
}

#[test]
fn bump_tag_named_handle() {
    let mut l = lex("!e!foo x");
    let s = l.bump_tag().unwrap();
    assert_eq!(s, "!e!foo");
}

#[test]
fn bump_tag_local() {
    let mut l = lex("!local x");
    let s = l.bump_tag().unwrap();
    assert_eq!(s, "!local");
}

#[test]
fn bump_tag_verbatim() {
    let mut l = lex("!<tag:example.com,2024:foo> x");
    let s = l.bump_tag().unwrap();
    assert_eq!(s, "!<tag:example.com,2024:foo>");
}

#[test]
fn bump_tag_verbatim_unterminated() {
    let mut l = lex("!<oops\n");
    assert_eq!(
        l.bump_tag(),
        Err(LexError::UnterminatedVerbatimTag { start: 0 })
    );
}

#[test]
fn block_colon_indicator_detection() {
    assert!(lex(": x").is_block_colon_indicator());
    assert!(lex(":\n").is_block_colon_indicator());
    assert!(lex(":\t").is_block_colon_indicator());
    assert!(lex(":").is_block_colon_indicator());
    let l = lex(":x");
    assert!(!l.is_block_colon_indicator());
}

#[test]
fn flow_colon_indicator_detection() {
    assert!(lex(": ").is_flow_colon_indicator());
    assert!(lex(":,").is_flow_colon_indicator());
    assert!(lex(":}").is_flow_colon_indicator());
    assert!(lex(":]").is_flow_colon_indicator());
    assert!(!lex(":x").is_flow_colon_indicator());
}

#[test]
fn lexer_single_quoted_simple() {
    let mut l = lex("'hello'");
    let (k, t) = l.bump_quoted().unwrap();
    assert_eq!(k, SyntaxKind::SINGLE_QUOTED_SCALAR);
    assert_eq!(t, "'hello'");
    assert!(l.at_eof());
}

#[test]
fn single_quoted_escape() {
    let mut l = lex("'it''s'");
    let (_, t) = l.bump_quoted().unwrap();
    assert_eq!(t, "'it''s'");
    assert!(l.at_eof());
}

#[test]
fn single_quoted_multiline_ok() {
    let mut l = lex("'oops\nmore'");
    let (k, t) = l.bump_quoted().unwrap();
    assert_eq!(k, SyntaxKind::SINGLE_QUOTED_SCALAR);
    assert_eq!(t, "'oops\nmore'");
}

#[test]
fn single_quoted_unterminated_on_eof() {
    let mut l = lex("'oops");
    assert_eq!(
        l.bump_quoted(),
        Err(LexError::UnterminatedSingleQuoted { start: 0 })
    );
}

#[test]
fn lexer_double_quoted_simple() {
    let mut l = lex("\"hello\"");
    let (k, t) = l.bump_quoted().unwrap();
    assert_eq!(k, SyntaxKind::DOUBLE_QUOTED_SCALAR);
    assert_eq!(t, "\"hello\"");
}

#[test]
fn double_quoted_escape_does_not_terminate() {
    let mut l = lex(r#""a\"b""#);
    let (_, t) = l.bump_quoted().unwrap();
    assert_eq!(t, r#""a\"b""#);
}

#[test]
fn double_quoted_various_escapes_preserved() {
    let mut l = lex(r#""a\\b\nc\tq""#);
    let (_, t) = l.bump_quoted().unwrap();
    assert_eq!(t, r#""a\\b\nc\tq""#);
}

#[test]
fn double_quoted_multiline_ok() {
    let mut l = lex("\"oops\nmore\"");
    let (k, t) = l.bump_quoted().unwrap();
    assert_eq!(k, SyntaxKind::DOUBLE_QUOTED_SCALAR);
    assert_eq!(t, "\"oops\nmore\"");
}

#[test]
fn double_quoted_line_continuation_escape() {
    let mut l = lex("\"a\\\n  b\"");
    let (_, t) = l.bump_quoted().unwrap();
    assert_eq!(t, "\"a\\\n  b\"");
}

#[test]
fn double_quoted_unterminated_on_eof() {
    let mut l = lex("\"oops");
    assert_eq!(
        l.bump_quoted(),
        Err(LexError::UnterminatedDoubleQuoted { start: 0 })
    );
}

#[test]
fn read_plain_block_key_stops_at_colon_space() {
    let mut l = lex("key: value");
    let s = l.read_plain(PlainStop::BlockKey);
    assert_eq!(s, "key");
    assert_eq!(l.pos(), 3);
}

#[test]
fn read_plain_block_key_stops_at_colon_eol() {
    let mut l = lex("key:\n");
    let s = l.read_plain(PlainStop::BlockKey);
    assert_eq!(s, "key");
    assert_eq!(l.pos(), 3);
}

#[test]
fn read_plain_block_key_stops_at_colon_eof() {
    let mut l = lex("key:");
    let s = l.read_plain(PlainStop::BlockKey);
    assert_eq!(s, "key");
}

#[test]
fn read_plain_block_value_stops_at_newline() {
    let mut l = lex("hello world\n");
    let s = l.read_plain(PlainStop::BlockValue);
    assert_eq!(s, "hello world");
    assert_eq!(l.peek_byte(), Some(b'\n'));
}

#[test]
fn read_plain_block_value_stops_at_eof() {
    let mut l = lex("hello");
    let s = l.read_plain(PlainStop::BlockValue);
    assert_eq!(s, "hello");
    assert!(l.at_eof());
}

#[test]
fn read_plain_block_value_stops_at_space_hash_comment() {
    let mut l = lex("hello #comment\n");
    let s = l.read_plain(PlainStop::BlockValue);
    assert_eq!(s, "hello");
    // pos is at the space before '#'
    assert_eq!(l.peek_byte(), Some(b' '));
}

#[test]
fn read_plain_block_value_allows_hash_inside() {
    let mut l = lex("a#b\n");
    let s = l.read_plain(PlainStop::BlockValue);
    assert_eq!(s, "a#b");
}

#[test]
fn read_plain_trailing_spaces_excluded() {
    let mut l = lex("hello   \n");
    let s = l.read_plain(PlainStop::BlockValue);
    assert_eq!(s, "hello");
    assert_eq!(l.peek_byte(), Some(b' '));
}

#[test]
fn read_plain_block_value_stops_at_colon_space() {
    // YAML says a plain scalar in block value still terminates at ": "
    let mut l = lex("a: b\n");
    let s = l.read_plain(PlainStop::BlockValue);
    assert_eq!(s, "a");
    assert_eq!(l.peek_byte(), Some(b':'));
}

#[test]
fn read_plain_flow_value_stops_at_comma() {
    let mut l = lex("x, y");
    let s = l.read_plain(PlainStop::FlowValue);
    assert_eq!(s, "x");
}

#[test]
fn read_plain_flow_value_stops_at_rbrace() {
    let mut l = lex("x}");
    let s = l.read_plain(PlainStop::FlowValue);
    assert_eq!(s, "x");
}

#[test]
fn read_plain_flow_value_stops_at_rbracket() {
    let mut l = lex("x]");
    let s = l.read_plain(PlainStop::FlowValue);
    assert_eq!(s, "x");
}

#[test]
fn read_plain_flow_key_stops_at_colon_flow_indicator() {
    let mut l = lex("k:v");
    // ":" is NOT a flow-colon indicator when followed by arbitrary char
    let s = l.read_plain(PlainStop::FlowKey);
    assert_eq!(s, "k:v");

    let mut l = lex("k: v");
    let s = l.read_plain(PlainStop::FlowKey);
    assert_eq!(s, "k");

    let mut l = lex("k:,");
    let s = l.read_plain(PlainStop::FlowKey);
    assert_eq!(s, "k");

    let mut l = lex("k:}");
    let s = l.read_plain(PlainStop::FlowKey);
    assert_eq!(s, "k");
}

#[test]
fn read_plain_empty_at_terminator() {
    let mut l = lex(":");
    let s = l.read_plain(PlainStop::BlockKey);
    assert_eq!(s, "");
    assert_eq!(l.pos(), 0);
}

#[test]
fn column_tracking() {
    let mut l = lex("a\nbc\ndef");
    assert_eq!(l.column(), 0);
    l.set_pos(1);
    assert_eq!(l.column(), 1);
    l.set_pos(2);
    assert_eq!(l.column(), 0); // just past \n
    l.set_pos(4);
    assert_eq!(l.column(), 2);
    l.set_pos(5);
    assert_eq!(l.column(), 0); // just past \n
    l.set_pos(8);
    assert_eq!(l.column(), 3);
}

#[test]
fn read_plain_with_stops_before_a_comment_line() {
    let mut l = lex("a\n  # c\n");
    assert_eq!(l.read_plain_with(PlainStop::BlockValue, Some(0)), "a");
    assert_eq!(l.pos(), 1);
    let mut l = lex("a\n  b\n  # c\n  d\n");
    assert_eq!(l.read_plain_with(PlainStop::BlockValue, Some(0)), "a\n  b");
}

#[test]
fn plain_scalars_are_scanned_whole() {
    let stops = [
        PlainStop::BlockKey,
        PlainStop::BlockValue,
        PlainStop::FlowKey,
        PlainStop::FlowValue,
    ];
    for w in ["a", "a b", "a\tb", "a:b", "a#b", "-x", "?x", "é", "{x"] {
        for stop in stops {
            if let Some(s) = as_plain_scalar(w) {
                let mut l = lex(s);
                assert_eq!(l.read_plain_with(stop, None), w);
                assert!(l.at_eof());
            }
        }
    }
    assert_eq!(as_plain_scalar("a b"), Some("a b"));
    assert_eq!(as_plain_scalar("a, b"), None);
    assert_eq!(as_plain_scalar("a #b"), None);
}

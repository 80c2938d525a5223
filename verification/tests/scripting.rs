use yamlito::ast::value::{FloatValue, Value};
use yamlito::fixers::indent::try_reindent;
use yamlito::fixers::scalars::{try_rule, ScalarRule};
use yamlito::fixers::trim::try_trim_trailing_whitespace;
use yamlito::scripting::change::{try_fix, try_fmt};
use yamlito::scripting::comment;
use yamlito::scripting::cursor::{
    root_cursor, stream_cursor, Cursor, MappingCursor, ScalarCursor, SequenceCursor,
};
use yamlito::scripting::file::YamlFile;
use yamlito::scripting::fs::{
    chosen, dir_glob, dir_pattern, glob_places, import_admitted, import_base, path_basename,
    path_dirname, path_extension, path_stem, STDIN_PATH,
};
use yamlito::scripting::lint::render_lint;
use yamlito::scripting::place::{node_at, place_of};
use yamlito::scripting::quote::{is_ambiguous_number, yaml_quote_if_needed, Written};
use yamlito::SyntaxTree;

fn tree(src: &str) -> SyntaxTree {
    yamlito::parse(src).expect("parse")
}

fn mapping(t: &SyntaxTree) -> MappingCursor {
    match root_cursor(t) {
        Cursor::Mapping(m) => m,
        _ => panic!("expected a mapping"),
    }
}

fn sequence(t: &SyntaxTree) -> SequenceCursor {
    match root_cursor(t) {
        Cursor::Sequence(s) => s,
        _ => panic!("expected a sequence"),
    }
}

fn scalar(c: Result<Cursor, String>) -> ScalarCursor {
    match c {
        Ok(Cursor::Scalar(s)) => s,
        _ => panic!("expected a scalar"),
    }
}

fn error<T>(r: Result<T, String>) -> String {
    match r {
        Ok(_) => panic!("expected an error"),
        Err(e) => e,
    }
}

#[test]
fn mapping_is_read() {
    let t = tree("a: 1\nb: [x]\n");
    let m = mapping(&t);
    assert_eq!(m.len(), 2);
    assert_eq!(m.keys(), vec!["a", "b"]);
    assert_eq!(m.values().len(), 2);
    assert!(m.contains("a"));
    assert!(!m.contains("z"));
    assert_eq!(m.to_text(), "a: 1\nb: [x]");
    assert_eq!(m.tree_source(), "a: 1\nb: [x]\n");
    assert_eq!(m.node_span(), 0..11);
    assert_eq!(m.key_token_span("b"), Some(5..6));
    assert_eq!(m.value_node_span("b"), Some(8..11));
    assert_eq!(m.value_node_span("z"), None);
    assert_eq!(scalar(m.get_by_key("a")).read(), Ok(Value::Int(1)));
    assert_eq!(error(m.get_by_key("z")), "key not found: z");
}

#[test]
fn mapping_entries_skip_what_has_no_value() {
    let t = tree("{a, b: 2}\n");
    let entries = mapping(&t).entries();
    assert_eq!(entries.len(), 1);
    assert_eq!(entries[0].key, "b");
    assert_eq!(entries[0].key_span(), 4..5);
    assert_eq!(entries[0].value_span(), Some(7..8));
    assert_eq!(entries[0].tree_source(), "{a, b: 2}\n");
    assert!(matches!(entries[0].key_cursor(), Cursor::Scalar(_)));
}

#[test]
fn sequence_is_read() {
    let t = tree("- 1\n- [2]\n- {a: 3}\n");
    let s = sequence(&t);
    assert_eq!(s.len(), 3);
    assert_eq!(s.cursors().len(), 3);
    assert_eq!(s.scalars().len(), 1);
    assert_eq!(s.sequences().len(), 1);
    assert_eq!(s.mappings().len(), 1);
    assert_eq!(scalar(s.get_by_index(0)).to_text(), "1");
    assert_eq!(error(s.get_by_index(-1)), "negative index: -1");
    assert_eq!(error(s.get_by_index(3)), "index out of range: 3");
}

#[test]
fn stream_is_read() {
    let t = tree("a\n---\n---\nc\n");
    let s = stream_cursor(&t);
    assert_eq!(s.len(), 3);
    assert_eq!(s.cursors().len(), 2);
    assert_eq!(scalar(s.get_by_index(2)).read(), Ok(Value::String("c".into())));
    assert_eq!(error(s.get_by_index(1)), "document 1 is empty");
    assert_eq!(error(s.get_by_index(3)), "document index out of range: 3");
    assert_eq!(error(s.get_by_index(-2)), "negative index: -2");
}

#[test]
fn empty_document_has_no_cursor() {
    assert!(matches!(root_cursor(&tree("# c\n")), Cursor::Null(_)));
    assert_eq!(root_cursor(&tree("# c\n")).span(), Some(0..0));
}

#[test]
fn decode_error_is_told() {
    let t = tree("a: \"\\q\"\n");
    let e = error(scalar(mapping(&t).get_by_key("a")).read());
    assert!(e.starts_with("decode error: InvalidEscape { at: "), "{e}");
}

#[test]
fn written_values_are_read() {
    for (value, text, read) in [
        (Written::Unit, "null", Value::Null),
        (Written::Bool(true), "true", Value::Bool(true)),
        (Written::Int(-7), "-7", Value::Int(-7)),
        (
            Written::Float("1.5".into()),
            "1.5",
            Value::Float(FloatValue::Decimal("1.5".into())),
        ),
        (Written::Text("x y".into()), "x y", Value::String("x y".into())),
        (Written::Text("12".into()), "'12'", Value::String("12".into())),
        (
            Written::Text("it's".into()),
            "'it''s'",
            Value::String("it's".into()),
        ),
    ] {
        let mut t = tree("a: old\n");
        let c = scalar(mapping(&t).get_by_key("a"));
        assert_eq!(c.write(&mut t, &value), Ok(()));
        assert_eq!(t.emit(), format!("a: {text}\n"));
        assert_eq!(scalar(mapping(&t).get_by_key("a")).read(), Ok(read));
    }
}

#[test]
fn unwritable_value_is_refused() {
    let mut t = tree("a: old\n");
    let c = scalar(mapping(&t).get_by_key("a"));
    assert_eq!(
        error(c.write(&mut t, &Written::Other)),
        "cannot write this value as a YAML scalar"
    );
    assert_eq!(t.emit(), "a: old\n");
}

#[test]
fn quotes_are_made_and_dropped() {
    let mut t = tree("a: 'x'\nb: y\nc: 'true'\n");
    let c = scalar(mapping(&t).get_by_key("a"));
    assert!(c.try_make_unquoted(&mut t));
    let c = scalar(mapping(&t).get_by_key("b"));
    assert_eq!(c.make_single_quoted(&mut t), Ok(()));
    let c = scalar(mapping(&t).get_by_key("c"));
    assert_eq!(
        error(c.make_unquoted(&mut t)),
        "scalar cannot be represented as an unquoted value"
    );
    assert!(!c.try_make_single_quoted(&mut t));
    assert_eq!(
        error(c.make_single_quoted(&mut t)),
        "scalar cannot be represented as a single-quoted value"
    );
    assert_eq!(t.emit(), "a: x\nb: 'y'\nc: 'true'\n");
}

#[test]
fn keys_are_renamed() {
    let mut t = tree("a: 1\nb: 2\n");
    let m = mapping(&t);
    assert_eq!(m.rename_key(&mut t, "b", "on: x"), Ok(true));
    assert_eq!(t.emit(), "a: 1\n'on: x': 2\n");
    assert_eq!(mapping(&t).keys(), vec!["a", "on: x"]);
    let m = mapping(&t);
    assert_eq!(m.rename_key(&mut t, "z", "y"), Ok(false));
    assert_eq!(
        m.rename_key(&mut t, "on: x", "y"),
        Err("key is not a plain scalar".to_string())
    );
    assert_eq!(t.emit(), "a: 1\n'on: x': 2\n");
}

#[test]
fn quoting_is_exact() {
    for s in ["", "a:b", "#x", "- x", "~", "NULL", "1e3", "+.5", "-INF", "nan", "Infinity"] {
        assert_eq!(yaml_quote_if_needed(s), format!("'{s}'"));
    }
    for s in ["x", "0x1F", "1.2.3", "1e", ".", "infinit", "a b"] {
        assert_eq!(yaml_quote_if_needed(s), s);
    }
    assert!(is_ambiguous_number("5."));
    assert!(!is_ambiguous_number("5.e"));
}

#[test]
fn cursor_comments_are_read_back() {
    let mut t = tree("a:\n  b: 1\n  c: 2\n");
    let m = mapping(&t);
    let inner = match m.get_by_key("a") {
        Ok(Cursor::Mapping(x)) => x,
        _ => panic!("expected a mapping"),
    };
    let c = scalar(inner.get_by_key("b"));
    let place = place_of(&c.node);
    assert_eq!(comment::write_leading(&mut t, &c.node, "one\n\ntwo"), Ok(()));
    assert_eq!(t.emit(), "a:\n  # one\n  #\n  # two\n  b: 1\n  c: 2\n");
    let n = node_at(t.root(), &place).expect("the scalar");
    assert_eq!(n.text(), "1");
    assert_eq!(comment::read_leading(&n), "one\n\ntwo");
    assert_eq!(comment::write_trailing(&mut t, &n, "end"), Ok(()));
    let n = node_at(t.root(), &place).expect("the scalar");
    assert_eq!(comment::read_trailing(&n), "end");
    comment::clear_trailing(&mut t, &n);
    let n = node_at(t.root(), &place).expect("the scalar");
    comment::clear_leading(&mut t, &n);
    assert_eq!(t.emit(), "a:\n  b: 1\n  c: 2\n");
}

#[test]
fn comments_in_flow_are_refused() {
    let mut t = tree("{a: 1}\n");
    let c = scalar(mapping(&t).get_by_key("a"));
    assert_eq!(
        error(comment::write_leading(&mut t, &c.node, "x")),
        "cannot attach a comment inside a flow-style mapping or sequence; convert to block form first"
    );
    assert_eq!(
        error(comment::write_trailing(&mut t, &c.node, "x")),
        "cannot attach a trailing comment inside a flow-style mapping or sequence"
    );
    assert_eq!(comment::read_leading(&c.node), "");
    assert_eq!(comment::read_trailing(&c.node), "");
}

#[test]
fn documents_have_no_trailing_comment() {
    let mut t = tree("a: 1\n");
    let m = mapping(&t);
    assert_eq!(
        error(comment::write_trailing(&mut t, &m.node, "x")),
        "documents cannot carry a same-line trailing comment"
    );
}

#[test]
fn stream_comment_needs_a_marker() {
    let mut t = tree("---\na: 1\n");
    let s = stream_cursor(&t);
    assert_eq!(s.comment(), "");
    assert_eq!(s.set_comment(&mut t, Some("top")), Ok(()));
    assert_eq!(t.emit(), "# top\n---\na: 1\n");
    assert_eq!(stream_cursor(&t).comment(), "top");
    let mut t = tree("a: 1\n");
    let s = stream_cursor(&t);
    assert!(error(s.set_comment(&mut t, Some("top"))).starts_with("stream has no explicit"));
}

#[test]
fn file_is_parsed_when_asked_for() {
    let mut f = YamlFile::lazy("x.yml".into());
    assert!(f.needs_source());
    assert_eq!(
        f.ensure_parsed(),
        Err("file x.yml has no source available".into())
    );
    assert_eq!(f.take_new_source(), None);
    f.supply_source("a: yes\n".into());
    f.supply_source("ignored".into());
    assert!(!f.changed());
    assert_eq!(f.ensure_parsed(), Ok(()));
    assert_eq!(f.ensure_parsed(), Ok(()));
    assert_eq!(f.path_str(), "x.yml");
    assert_eq!(f.source_snapshot(), Some("a: yes\n".into()));
    assert!(!f.changed());
    let mut t = f.tree.take().expect("tree");
    yamlito::scripting::change::stream_fix(&mut t);
    f.tree = Some(t);
    assert_eq!(f.take_new_source(), Some("a: true\n".into()));
    assert!(f.changed());
}

#[test]
fn file_tells_parse_errors() {
    let mut f = YamlFile::new("bad.yml".into(), "x: 'oops\n".into());
    let e = error(f.ensure_parsed());
    assert!(e.starts_with("parse error in bad.yml: "), "{e}");
    assert!(e.contains(" at byte "), "{e}");
}

#[test]
fn globs_choose_paths() {
    let paths: Vec<String> = ["/r/a.yml", "/r/d/b.yaml", "/r/d/c.txt"]
        .iter()
        .map(|s| s.to_string())
        .collect();
    assert_eq!(glob_places("/r/*.yml", &paths), Ok(vec![0]));
    assert_eq!(dir_glob("/r", "*.{yml,yaml}", &paths), Ok(vec![0, 1]));
    assert_eq!(dir_glob("/r", "/r/d/*", &paths), Ok(vec![1, 2]));
    assert_eq!(
        error(dir_glob("/r", "/s/*", &paths)),
        "glob pattern /s/* is outside the input directory /r"
    );
    assert!(error(glob_places("{a", &paths)).starts_with("invalid glob pattern: "));
    assert_eq!(STDIN_PATH, "/dev/stdin");
}

#[test]
fn deep_patterns_are_refused_without_a_panic() {
    let pattern = "{".repeat(600) + &"}".repeat(600);
    let paths = vec!["x".to_string()];
    if let Err(e) = glob_places(&pattern, &paths) {
        assert!(e.starts_with("invalid glob pattern: "), "{e}");
    }
}

#[test]
fn patterns_for_directories() {
    assert_eq!(dir_pattern("/r", "x", false, false), Ok("/r/**/x".into()));
    assert_eq!(dir_pattern("/r", "/r/x", true, true), Ok("/r/x".into()));
    assert!(dir_pattern("/r", "/x", true, false).is_err());
    assert_eq!(chosen(&vec![true, false, true]), vec![0, 2]);
}

#[test]
fn lint_shows_message_and_line() {
    let text = render_lint("bad word", 3..6, "a: yes\n", "x.yml");
    assert!(text.contains("bad word"), "{text}");
    assert!(text.contains("x.yml"), "{text}");
    assert!(text.contains("a: yes"), "{text}");
}

#[test]
fn lint_at_both_ends_of_the_source() {
    for (span, source) in [(0..0, ""), (0..0, "a\n"), (2..2, "a\n"), (0..2, "a\n"), (1..3, "aé\n")] {
        assert!(render_lint("m", span, source, "p").contains('m'));
    }
}

#[test]
fn imports_lie_beside_their_script() {
    assert_eq!(import_base("/r", Some("/r/d"), true), Some("/r/d".into()));
    assert_eq!(import_base("/r", None, true), Some("/r".into()));
    assert_eq!(import_base("/r", Some("/r/d"), false), None);
    assert_eq!(import_admitted("x", true, true), Ok(()));
    assert_eq!(import_admitted("x", true, false), Err("x".into()));
    assert_eq!(import_admitted("x", false, false), Err("x".into()));
}

#[test]
fn aliases_are_looked_at_as_scalars() {
    let mut t = tree("a: &x 1\nb: *x\nc: [*x, y]\n");
    let b = scalar(mapping(&t).get_by_key("b"));
    assert_eq!(b.read(), Ok(Value::String("*x".into())));
    assert_eq!(b.to_text(), "*x");
    assert_eq!(b.write(&mut t, &Written::Int(2)), Err("not a scalar".into()));
    assert!(!b.try_make_unquoted(&mut t));
    assert!(!b.try_make_single_quoted(&mut t));
    assert_eq!(t.emit(), "a: &x 1\nb: *x\nc: [*x, y]\n");
}

#[test]
fn paths_have_parts() {
    assert_eq!(path_basename("/d/a.b.yml"), "a.b.yml");
    assert_eq!(path_dirname("/d/a.b.yml"), "/d");
    assert_eq!(path_stem("/d/a.b.yml"), "a.b");
    assert_eq!(path_extension("/d/a.b.yml"), "yml");
    assert_eq!(path_basename("/"), "");
    assert_eq!(path_dirname("/"), "");
    assert_eq!(path_extension("/d/a"), "");
}

#[test]
fn lint_may_end_one_past_the_source() {
    for (span, source) in [(0..1, ""), (0..2, "a"), (1..2, "a"), (2..3, "a\n"), (0..3, "a\n")] {
        let text = render_lint("msg", span, source, "p");
        assert!(text.contains("msg"), "{text}");
    }
}

#[test]
fn passes_tell_whether_they_fit() {
    let mut t = tree("a:\n    b: yes \n");
    assert!(try_fmt(&mut t));
    assert_eq!(t.emit(), "a:\n  b: 'yes'\n");
    let mut t = tree("a: on\nb: 0644\n");
    assert!(try_fix(&mut t));
    assert_eq!(t.emit(), "a: true\nb: '0644'\n");
    let mut t = tree("a:\n    b: 'x' \n");
    assert_eq!(try_reindent(&mut t), Some(1));
    assert_eq!(try_trim_trailing_whitespace(&mut t), Some(1));
    assert_eq!(try_rule(&mut t, ScalarRule::Unquote), Some(1));
    assert_eq!(t.emit(), "a:\n  b: x\n");
}

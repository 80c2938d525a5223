use yamlito::fixers::indent::reindent;
use yamlito::fixers::scalars::{
    prefer_single_quotes, quote_yaml_1_1_bool, unquote_scalars, yaml11_bool_to_yaml12_bool,
    yaml11_octal_to_quoted, yaml11_sexagesimal_to_quoted,
};
use yamlito::fixers::trim::trim_trailing_whitespace;
use yamlito::scripting::change::{stream_fix, stream_fmt};
use yamlito::SyntaxTree;

/// What a pass makes of a text, and how many changes it counts. A second run
/// must find nothing to do.
fn run(src: &str, pass: fn(&mut SyntaxTree) -> usize) -> (String, usize) {
    let mut tree = yamlito::parse(src).expect("parse");
    let n = pass(&mut tree);
    let once = tree.emit();
    assert_eq!(pass(&mut tree), 0, "a second pass over {once:?}");
    assert_eq!(tree.emit(), once);
    (once, n)
}

#[test]
fn bool_words_become_bools() {
    assert_eq!(
        run("a: yes\nb: Off\nc: maybe\n", yaml11_bool_to_yaml12_bool),
        ("a: true\nb: false\nc: maybe\n".to_string(), 2)
    );
}

#[test]
fn bool_keys_are_quoted() {
    assert_eq!(
        run("on: 1\n", yaml11_bool_to_yaml12_bool),
        ("'on': 1\n".to_string(), 1)
    );
}

#[test]
fn bool_words_are_quoted() {
    assert_eq!(
        run("- yes\n- 'no'\n- NO\n", quote_yaml_1_1_bool),
        ("- 'yes'\n- 'no'\n- 'NO'\n".to_string(), 2)
    );
}

#[test]
fn octals_are_quoted() {
    assert_eq!(
        run("a: 0755\nb: 0o755\nc: 0\n", yaml11_octal_to_quoted),
        ("a: '0755'\nb: 0o755\nc: 0\n".to_string(), 1)
    );
}

#[test]
fn sexagesimals_are_quoted() {
    assert_eq!(
        run("a: 1:30:00\nb: 1:99\n", yaml11_sexagesimal_to_quoted),
        ("a: '1:30:00'\nb: 1:99\n".to_string(), 1)
    );
}

#[test]
fn quotes_are_dropped_where_they_can_be() {
    assert_eq!(
        run(
            "a: 'x y'\nb: \"z\"\nc: 'true'\nd: 'it''s'\ne: \"a\\tb\"\n",
            unquote_scalars
        ),
        (
            "a: x y\nb: z\nc: 'true'\nd: 'it''s'\ne: \"a\\tb\"\n".to_string(),
            2
        )
    );
}

#[test]
fn double_quotes_become_single() {
    assert_eq!(
        run("a: \"x'y\"\nb: \"a\\nb\"\nc: z\n", prefer_single_quotes),
        ("a: 'x''y'\nb: \"a\\nb\"\nc: z\n".to_string(), 1)
    );
}

#[test]
fn trailing_whitespace_goes() {
    assert_eq!(
        run("a: 1  \nb: 2 # c \t\n", trim_trailing_whitespace),
        ("a: 1\nb: 2 # c\n".to_string(), 2)
    );
}

#[test]
fn indentation_becomes_two() {
    let (text, n) = run("a:\n    b: 1\n    c:\n        - x\n        -   y\n", reindent);
    assert_eq!(text, "a:\n  b: 1\n  c:\n    - x\n    - y\n");
    assert!(n > 0);
}

#[test]
fn block_scalars_keep_their_lines() {
    let src = "a:\n    b: |\n      x\n";
    assert_eq!(run(src, reindent), (src.to_string(), 0));
}

#[test]
fn formatting_indents_and_trims() {
    let mut tree = yamlito::parse("a:\n    b: 1 \n").expect("parse");
    stream_fmt(&mut tree);
    assert_eq!(tree.emit(), "a:\n  b: 1\n");
}

#[test]
fn formatting_quotes_boolean_words() {
    let mut tree = yamlito::parse("a:\n    b: yes \n    no: 'on'\n").expect("parse");
    stream_fmt(&mut tree);
    assert_eq!(tree.emit(), "a:\n  b: 'yes'\n  'no': 'on'\n");
    stream_fmt(&mut tree);
    assert_eq!(tree.emit(), "a:\n  b: 'yes'\n  'no': 'on'\n");
}

#[test]
fn fixing_runs_three_rules_and_settles() {
    let mut tree = yamlito::parse("a: on\nb: 0644\nc: 1:30\n").expect("parse");
    stream_fix(&mut tree);
    assert_eq!(tree.emit(), "a: true\nb: '0644'\nc: '1:30'\n");
    stream_fix(&mut tree);
    assert_eq!(tree.emit(), "a: true\nb: '0644'\nc: '1:30'\n");
}

#[test]
fn one_quote_is_dropped_at_each_end() {
    assert_eq!(run("a: '''tis'\n", unquote_scalars), ("a: '''tis'\n".to_string(), 0));
    assert_eq!(run("a: 'x'\n", unquote_scalars), ("a: x\n".to_string(), 1));
}

#[test]
fn every_document_is_reindented() {
    let (text, n) = run("a:\n    b: 1\n---\nc:\n    d: 1\n", reindent);
    assert_eq!(text, "a:\n  b: 1\n---\nc:\n  d: 1\n");
    assert_eq!(n, 2);
}

#[test]
fn trimming_counts_what_it_takes() {
    assert_eq!(run("a: 1\nb: 2\n", trim_trailing_whitespace), ("a: 1\nb: 2\n".to_string(), 0));
    let (text, n) = run("a: 1 \n# c  \nb:\t\n  - x \n", trim_trailing_whitespace);
    assert_eq!(n, 4);
    assert!(text.lines().all(|l| !l.ends_with([' ', '\t'])), "{text:?}");
}

#[test]
fn trimming_counts_nothing_where_the_text_stays() {
    for src in ["", "a: 1", "a: 1 ", "a: 1\n ", "# c\t\n", "a:  1\n", " \n", "- a\n-  b\n", "a: [x , y] \n"] {
        let mut tree = yamlito::parse(src).expect("parse");
        let n = trim_trailing_whitespace(&mut tree);
        assert_eq!(n == 0, tree.emit() == src, "{src:?}");
    }
}

#[test]
fn a_document_does_not_count_towards_the_columns_of_the_next() {
    let src = "\na:\n    b: 1\n--- - - |\n      - y\n";
    let (text, _) = run(src, reindent);
    assert!(text.starts_with("\na:\n  b: 1\n--- - - |\n"), "{text:?}");
}

#[test]
fn explicit_keys_may_take_two_passes() {
    let mut tree = yamlito::parse("? \n    ? \n: - a: \n    ? ").expect("parse");
    assert_eq!(reindent(&mut tree), 2);
    assert!(reindent(&mut tree) > 0);
}

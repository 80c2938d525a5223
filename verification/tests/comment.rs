use yamlito::ast::entries::Entry;
use yamlito::ast::nodes::{
    AstNode, BlockMappingEntry, FlowMapping, FlowMappingEntry, Node, Stream,
};
use yamlito::SyntaxTree;

fn first_flow_mapping(tree: &SyntaxTree) -> FlowMapping {
    let stream = Stream::cast(tree.root().handle()).unwrap();
    let doc = stream.documents().into_iter().next().unwrap();
    match doc.root_node().unwrap() {
        Node::FlowMapping(m) => m,
        _ => panic!("expected flow mapping"),
    }
}

const MULTILINE: &str = "{\n  host: localhost,\n  port: 8080\n}\n";

#[test]
fn flow_trailing_write_and_read_multiline() {
    let mut tree = yamlito::parse(MULTILINE).unwrap();
    let entry = first_flow_mapping(&tree).entries().into_iter().next().unwrap();
    entry.set_trailing_comment(&mut tree, "the host").unwrap();
    assert_eq!(
        tree.emit(),
        "{\n  host: localhost, # the host\n  port: 8080\n}\n"
    );
    let tree2 = yamlito::parse(&tree.emit()).unwrap();
    let entry2 = first_flow_mapping(&tree2).entries().into_iter().next().unwrap();
    assert_eq!(entry2.trailing_comment(), "the host");
}

#[test]
fn flow_trailing_on_last_entry() {
    let mut tree = yamlito::parse(MULTILINE).unwrap();
    let entry = first_flow_mapping(&tree).entries().into_iter().nth(1).unwrap();
    entry.set_trailing_comment(&mut tree, "the port").unwrap();
    assert_eq!(
        tree.emit(),
        "{\n  host: localhost,\n  port: 8080 # the port\n}\n"
    );
}

#[test]
fn flow_trailing_clear() {
    let mut tree = yamlito::parse(MULTILINE).unwrap();
    let entry = first_flow_mapping(&tree).entries().into_iter().next().unwrap();
    entry.set_trailing_comment(&mut tree, "x").unwrap();
    let entry = first_flow_mapping(&tree).entries().into_iter().next().unwrap();
    entry.clear_trailing_comment(&mut tree);
    assert_eq!(tree.emit(), MULTILINE);
}

#[test]
fn flow_leading_write_and_read() {
    let mut tree = yamlito::parse(MULTILINE).unwrap();
    let entry = first_flow_mapping(&tree).entries().into_iter().nth(1).unwrap();
    entry
        .set_leading_comment(&mut tree, Some("about port"))
        .unwrap();
    assert_eq!(
        tree.emit(),
        "{\n  host: localhost,\n  # about port\n  port: 8080\n}\n"
    );
    let tree2 = yamlito::parse(&tree.emit()).unwrap();
    let entry2 = first_flow_mapping(&tree2).entries().into_iter().nth(1).unwrap();
    assert_eq!(entry2.leading_comment(), "about port");
}

#[test]
fn single_line_flow_trailing_rejected() {
    let mut tree = yamlito::parse("{a: 1, b: 2}\n").unwrap();
    let entry = first_flow_mapping(&tree).entries().into_iter().next().unwrap();
    let err = entry.set_trailing_comment(&mut tree, "x").unwrap_err();
    assert!(err.contains("newline"), "got: {err}");
    assert_eq!(tree.emit(), "{a: 1, b: 2}\n");
}

#[test]
fn single_line_flow_leading_rejected() {
    let mut tree = yamlito::parse("{a: 1, b: 2}\n").unwrap();
    let entry = first_flow_mapping(&tree).entries().into_iter().nth(1).unwrap();
    let err = entry.set_leading_comment(&mut tree, Some("x")).unwrap_err();
    assert!(err.contains("newline"), "got: {err}");
    assert_eq!(tree.emit(), "{a: 1, b: 2}\n");
}

#[test]
fn entry_trait_object_reads_key_value() {
    let tree = yamlito::parse(MULTILINE).unwrap();
    let entry = first_flow_mapping(&tree).entries().into_iter().next().unwrap();
    fn reads<E: Entry>(e: &E) -> (bool, bool) {
        (e.key().is_some(), e.value().is_some())
    }
    let (key, value) = reads::<FlowMappingEntry>(&entry);
    assert!(key);
    assert!(value);
}

#[test]
fn flow_sequence_trailing() {
    let src = "[\n  1,\n  2\n]\n";
    let mut tree = yamlito::parse(src).unwrap();
    let stream = Stream::cast(tree.root().handle()).unwrap();
    let doc = stream.documents().into_iter().next().unwrap();
    let seq = match doc.root_node().unwrap() {
        Node::FlowSequence(s) => s,
        _ => panic!("expected flow sequence"),
    };
    let e = seq.entries().into_iter().next().unwrap();
    e.set_trailing_comment(&mut tree, "one").unwrap();
    assert_eq!(tree.emit(), "[\n  1, # one\n  2\n]\n");
}

#[test]
fn single_line_flow_clear_is_permissive() {
    // Clearing a (nonexistent) comment on a single-line flow entry
    // must not error, even though writing one would be rejected.
    let mut tree = yamlito::parse("{a: 1, b: 2}\n").unwrap();
    let entry = first_flow_mapping(&tree).entries().into_iter().next().unwrap();
    entry.clear_trailing_comment(&mut tree); // no panic / no-op
    entry.set_leading_comment(&mut tree, None).unwrap(); // clear ok
    assert_eq!(tree.emit(), "{a: 1, b: 2}\n");
}

fn block_entries(tree: &SyntaxTree) -> Vec<BlockMappingEntry> {
    let mut open = vec![tree.root().handle()];
    let mut out = vec![];
    while let Some(n) = open.pop() {
        let mut below = n.children();
        below.reverse();
        open.extend(below);
        out.extend(BlockMappingEntry::cast(n));
    }
    out
}

#[test]
fn block_trailing_on_last_entry() {
    let mut tree = yamlito::parse("a: 1\nb: 2\n").unwrap();
    let entry = block_entries(&tree).pop().unwrap();
    entry.set_trailing_comment(&mut tree, "last").unwrap();
    assert_eq!(tree.emit(), "a: 1\nb: 2 # last\n");
    let tree = yamlito::parse(&tree.emit()).unwrap();
    assert_eq!(block_entries(&tree).pop().unwrap().trailing_comment(), "last");
}

#[test]
fn block_trailing_on_last_nested_entry() {
    let mut tree = yamlito::parse("a:\n  b: 1\n  c: 2\nd: 3\n").unwrap();
    let entry = block_entries(&tree).remove(2);
    entry.set_trailing_comment(&mut tree, "inner").unwrap();
    assert_eq!(tree.emit(), "a:\n  b: 1\n  c: 2 # inner\nd: 3\n");
}

#[test]
fn block_trailing_needs_a_line_break() {
    let mut tree = yamlito::parse("a: 1\nb: 2").unwrap();
    let entry = block_entries(&tree).pop().unwrap();
    let err = entry.set_trailing_comment(&mut tree, "x").unwrap_err();
    assert!(err.contains("newline"), "got: {err}");
    assert_eq!(tree.emit(), "a: 1\nb: 2");
}

fn with_leading(src: &str, nth: usize, text: Option<&str>) -> String {
    let mut tree = yamlito::parse(src).unwrap();
    let entry = block_entries(&tree).into_iter().nth(nth).unwrap();
    entry.set_leading_comment(&mut tree, text).unwrap();
    tree.emit()
}

#[test]
fn block_leading_takes_the_place_of_the_old() {
    let src = "x: 1\n# old\ny: 2\n";
    assert_eq!(with_leading(src, 1, Some("new")), "x: 1\n# new\ny: 2\n");
    assert_eq!(
        with_leading(src, 1, Some("one\n\ntwo")),
        "x: 1\n# one\n#\n# two\ny: 2\n"
    );
    assert_eq!(with_leading(src, 1, None), "x: 1\ny: 2\n");
    let nested = "a:\n  # old\n  # older\n  b: 1\n  c: 2\n";
    assert_eq!(
        with_leading(nested, 1, Some("new")),
        "a:\n  # new\n  b: 1\n  c: 2\n"
    );
    assert_eq!(with_leading(nested, 1, None), "a:\n  b: 1\n  c: 2\n");
}

#[test]
fn block_leading_leaves_what_a_blank_line_parts() {
    let src = "# licence\n\n# old\na: 1\n";
    assert_eq!(
        with_leading(src, 0, Some("new")),
        "# licence\n\n# new\na: 1\n"
    );
    assert_eq!(with_leading(src, 0, None), "# licence\n\na: 1\n");
}

#[test]
fn leading_behind_a_key_keeps_the_line_break() {
    let src = "a: # old\n  b: 1\n";
    assert_eq!(with_leading(src, 1, Some("new")), "a:  # new\n  b: 1\n");
    assert_eq!(with_leading(src, 1, None), "a:\n  b: 1\n");
}

#[test]
fn flow_leading_takes_the_place_of_the_old() {
    let src = "{\n  # c\n  host: h,\n  # d\n  port: 1\n}\n";
    let mut tree = yamlito::parse(src).unwrap();
    let entry = first_flow_mapping(&tree).entries().into_iter().nth(1).unwrap();
    entry.set_leading_comment(&mut tree, Some("new")).unwrap();
    assert_eq!(
        tree.emit(),
        "{\n  # c\n  host: h,\n  # new\n  port: 1\n}\n"
    );
    let entry = first_flow_mapping(&tree).entries().into_iter().nth(1).unwrap();
    entry.set_leading_comment(&mut tree, None).unwrap();
    assert_eq!(tree.emit(), "{\n  # c\n  host: h,\n  port: 1\n}\n");
}

#[test]
fn clearing_a_leading_comment_gives_back_the_tree() {
    let src = "x: 1\ny:\n  z: 2\n  w: 3\n";
    for nth in 1..4 {
        let mut tree = yamlito::parse(src).unwrap();
        let entry = block_entries(&tree).into_iter().nth(nth).unwrap();
        entry.set_leading_comment(&mut tree, Some("a\nb")).unwrap();
        assert!(tree.emit().contains("# a\n"));
        let entry = block_entries(&tree).into_iter().nth(nth).unwrap();
        assert_eq!(entry.leading_comment(), "a\nb");
        entry.set_leading_comment(&mut tree, None).unwrap();
        assert_eq!(tree.emit(), src);
    }
}

#[test]
fn trailing_comment_stands_on_the_line_of_the_entry() {
    let tree = yamlito::parse("items:\n  # about a\n  - a\n").unwrap();
    assert_eq!(block_entries(&tree)[0].trailing_comment(), "");
    let tree = yamlito::parse("items: # all\n  # about a\n  - a\n").unwrap();
    assert_eq!(block_entries(&tree)[0].trailing_comment(), "all");
    let tree = yamlito::parse("a: 1\n# b\nb: 2\n").unwrap();
    assert_eq!(block_entries(&tree)[0].trailing_comment(), "");
}

#[test]
fn trailing_comment_of_an_entry_with_a_block_is_written_behind_its_key() {
    let mut tree = yamlito::parse("items:\n  # about a\n  - a\n").unwrap();
    let entry = block_entries(&tree).remove(0);
    entry.set_trailing_comment(&mut tree, "all").unwrap();
    let text = tree.emit();
    let tree = yamlito::parse(&text).unwrap();
    assert_eq!(block_entries(&tree)[0].trailing_comment(), "all", "{text}");
}

#[test]
fn flow_trailing_is_read_where_no_comma_follows() {
    let tree = yamlito::parse("{\n  a: 1 # x\n}\n").unwrap();
    let entry = first_flow_mapping(&tree).entries().into_iter().next().unwrap();
    assert_eq!(entry.trailing_comment(), "x");
}

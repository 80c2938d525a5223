//! Trees in words, for a look at what was parsed.

use vstd::prelude::*;
use vstd::string::*;

use crate::ast::collections;
use crate::ast::collections::{
    count_entries, entry_value, is_entry,
};
use crate::ast::nodes;
use crate::ast::nodes::{AliasNode, AstNode, Document, Node, NodeProperties, Stream, Tag, TagForm};
use crate::ast::scalar;
use crate::ast::scalar::{Scalar, ScalarStyle};
use crate::ast::value::{FloatModel, FloatValue, Value, ValueModel};
use crate::syntax::green::Tree;
use crate::syntax::kind;
use crate::syntax::kind::SyntaxKind;
use crate::syntax::known;
use crate::syntax::node;
use crate::syntax::node::{SyntaxElement, SyntaxNode};
use crate::syntax::path;
use crate::syntax::tree::SyntaxTree;
use crate::syntax::walk;
use crate::text;
use crate::text::{chars_of, debug_text, decimal_chars, int_chars, string_of};

verus! {

// ---- Texts in quotes ----

/// The digit of the number `n` below sixteen.
pub open spec fn hex_digit(n: int) -> char {
    if n < 10 {
        ('0' as int + n) as char
    } else {
        ('a' as int + (n - 10)) as char
    }
}

/// A character as it stands in quotes.
pub open spec fn escaped_char(c: char) -> Seq<char> {
    if c == '\\' {
        seq!['\\', '\\']
    } else if c == '"' {
        seq!['\\', '"']
    } else if c == '\n' {
        seq!['\\', 'n']
    } else if c == '\r' {
        seq!['\\', 'r']
    } else if c == '\t' {
        seq!['\\', 't']
    } else if (c as u32) < 0x20 {
        seq!['\\', 'x', hex_digit((c as u32 / 16) as int), hex_digit((c as u32 % 16) as int)]
    } else {
        seq![c]
    }
}

/// Characters as they stand in quotes.
pub open spec fn escaped_chars(s: Seq<char>) -> Seq<char>
    decreases s.len(),
{
    if s.len() == 0 {
        seq![]
    } else {
        escaped_chars(s.drop_last()) + escaped_char(s.last())
    }
}

/// A text in quotes.
pub open spec fn escaped(s: Seq<char>) -> Seq<char> {
    seq!['"'] + escaped_chars(s) + seq!['"']
}

/// The digit of a number below sixteen.
fn hex(n: u8) -> (r: char)
    requires
        n < 16,
    ensures
        r == hex_digit(n as int),
{
    if n < 10 {
        (0x30u8 + n) as char
    } else {
        (0x61u8 + (n - 10)) as char
    }
}

/// A text in quotes.
pub fn escape(s: &str) -> (r: String)
    ensures
        r@ == escaped(s@),
{
    let v = chars_of(s);
    let mut out: Vec<char> = Vec::new();
    out.push('"');
    let mut i: usize = 0;
    assert(v@.take(0) =~= seq![]);
    assert(out@ =~= seq!['"'] + escaped_chars(v@.take(0)));
    while i < v.len()
        invariant
            i <= v@.len(),
            out@ == seq!['"'] + escaped_chars(v@.take(i as int)),
        decreases v@.len() - i,
    {
        let c = v[i];
        let ghost before = out@;
        if c == '\\' {
            out.push('\\');
            out.push('\\');
        } else if c == '"' {
            out.push('\\');
            out.push('"');
        } else if c == '\n' {
            out.push('\\');
            out.push('n');
        } else if c == '\r' {
            out.push('\\');
            out.push('r');
        } else if c == '\t' {
            out.push('\\');
            out.push('t');
        } else if (c as u32) < 0x20 {
            let n = c as u32;
            out.push('\\');
            out.push('x');
            out.push(hex((n / 16) as u8));
            out.push(hex((n % 16) as u8));
        } else {
            out.push(c);
        }
        proof {
            assert(v@.take(i + 1).drop_last() =~= v@.take(i as int));
            assert(v@.take(i + 1).last() == c);
            assert(out@ =~= before + escaped_char(c));
            assert(out@ =~= seq!['"'] + escaped_chars(v@.take(i + 1)));
        }
        i = i + 1;
    }
    assert(v@.take(v@.len() as int) =~= v@);
    out.push('"');
    assert(out@ =~= escaped(s@));
    string_of(&out)
}

/// A line: `body`, indented.
pub open spec fn line(pad: Seq<char>, body: Seq<char>) -> Seq<char> {
    pad + body + seq!['\n']
}

/// An indentation one level deeper.
pub open spec fn deeper(pad: Seq<char>) -> Seq<char> {
    pad + seq![' ', ' ']
}

/// Appends a line.
fn push_line(out: &mut String, pad: &str, body: &str)
    ensures
        final(out)@ == old(out)@ + line(pad@, body@),
{
    out.push_str(pad);
    out.push_str(body);
    out.push('\n');
    assert(out@ =~= old(out)@ + line(pad@, body@));
}

/// An indentation one level deeper.
fn indent(pad: &str) -> (r: String)
    ensures
        r@ == deeper(pad@),
{
    let mut r = string_of(&chars_of(pad));
    r.push(' ');
    r.push(' ');
    assert(r@ =~= deeper(pad@));
    r
}

/// A text behind another.
fn join(a: &str, b: &str) -> (r: String)
    ensures
        r@ == a@ + b@,
{
    let mut r = string_of(&chars_of(a));
    r.push_str(b);
    r
}

// ---- The tree of nodes and tokens ----

/// The kind and the byte range of what stands at `path`.
pub open spec fn head_text(whole: Tree, path: Seq<usize>, kind: u16) -> Seq<char> {
    kind::kind_of(kind)->0.name() + seq!['@'] + text::int_text(walk::offset(whole, path) as int)
        + seq!['.', '.'] + text::int_text(walk::end_offset(whole, path) as int)
}

/// The lines for the tree `t` at `path`: one for itself, and those of its
/// children, a level deeper.
pub open spec fn cst_lines(whole: Tree, path: Seq<usize>, t: Tree, pad: Seq<char>) -> Seq<char>
    decreases t,
{
    let head = head_text(whole, path, t.kind());
    match t {
        Tree::Token { text, .. } => line(pad, head + seq![' '] + escaped(text)),
        Tree::Node { children, .. } => line(pad, head) + cst_children(
            whole,
            path,
            children,
            deeper(pad),
        ),
    }
}

/// The lines for the first children of the node at `path`.
pub open spec fn cst_children(
    whole: Tree,
    path: Seq<usize>,
    ts: Seq<Tree>,
    pad: Seq<char>,
) -> Seq<char>
    decreases ts,
{
    if ts.len() == 0 {
        seq![]
    } else {
        cst_children(whole, path, ts.drop_last(), pad) + cst_lines(
            whole,
            path.push((ts.len() - 1) as usize),
            ts.last(),
            pad,
        )
    }
}

/// The kind and the byte range, in words.
fn head_of(kind: SyntaxKind, start: usize, end: usize) -> (r: String)
    ensures
        r@ == kind.name() + seq!['@'] + text::int_text(start as int) + seq!['.', '.']
            + text::int_text(end as int),
{
    let mut r = string_of(&chars_of(kind.as_str()));
    r.push('@');
    r.push_str(string_of(&decimal_chars(start as u64)).as_str());
    r.push('.');
    r.push('.');
    r.push_str(string_of(&decimal_chars(end as u64)).as_str());
    assert(r@ =~= kind.name() + seq!['@'] + text::int_text(start as int) + seq!['.', '.']
        + text::int_text(end as int));
    r
}

/// Appends the lines for a node.
fn cst_node(n: &SyntaxNode, pad: &str, out: &mut String)
    requires
        n.wf(),
        known::known(n.tree()),
    ensures
        final(out)@ == old(out)@ + cst_lines(n.whole(), n.path@, n.tree(), pad@),
    decreases n.tree(),
{
    let range = n.text_range();
    push_line(out, pad, head_of(n.kind(), range.start, range.end).as_str());
    let pad2 = indent(pad);
    let len = n.len();
    let ghost cs = n.parts();
    let ghost start = out@;
    let mut i: usize = 0;
    assert(cs.take(0) =~= seq![]);
    assert(out@ =~= start + cst_children(n.whole(), n.path@, cs.take(0), pad2@));
    while i < len
        invariant
            n.wf(),
            known::known(n.tree()),
            cs == n.parts(),
            i <= len,
            len == cs.len(),
            out@ == start + cst_children(n.whole(), n.path@, cs.take(i as int), pad2@),
        decreases len - i,
    {
        let ghost before = out@;
        proof {
            known::lemma_all_known(cs, i as int);
            assert(cs.take(i + 1).drop_last() =~= cs.take(i as int));
        }
        match n.child_or_token(i) {
            SyntaxElement::Node(c) => {
                assert(decreases_to!(n.tree() => cs[i as int]));
                cst_node(&c, pad2.as_str(), out);
            },
            SyntaxElement::Token(t) => {
                let r = t.text_range();
                let mut body = head_of(t.kind(), r.start, r.end);
                let ghost head = body@;
                body.push(' ');
                body.push_str(escape(t.text()).as_str());
                assert(body@ =~= head + seq![' '] + escaped(t.tree().text()));
                assert(t.place() =~= n.path@.push(i));
                assert(path::tree_at(n.whole(), t.place()) == Some(t.tree())) by {
                    assert(t.place().drop_last() =~= n.path@);
                }
                push_line(out, pad2.as_str(), body.as_str());
            },
        }
        assert(out@ =~= before + cst_lines(n.whole(), n.path@.push(i), cs[i as int], pad2@));
        assert(out@ =~= start + cst_children(n.whole(), n.path@, cs.take(i + 1), pad2@));
        i = i + 1;
    }
    assert(cs.take(len as int) =~= cs);
    assert(out@ =~= old(out)@ + cst_lines(n.whole(), n.path@, n.tree(), pad@));
}

/// The nodes and tokens of a tree, a line each.
pub fn cst_string(tree: &SyntaxTree) -> (r: String)
    requires
        tree.wf(),
        known::known(tree@),
    ensures
        r@ == cst_lines(tree@, seq![], tree@, seq![]),
{
    let mut out = String::new();
    let ghost none = Seq::<usize>::empty();
    assert(tree.root.path@ =~= none);
    proof {
        reveal_strlit("");
        assert(""@ =~= Seq::<char>::empty());
    }
    cst_node(&tree.root, "", &mut out);
    assert(out@ =~= cst_lines(tree@, seq![], tree@, seq![]));
    out
}

// ---- The tree of values ----

/// A tag as `Debug` writes it.
pub open spec fn tag_debug(t: TagForm) -> Seq<char> {
    match t {
        TagForm::NonSpecific => "NonSpecific"@,
        TagForm::Verbatim(s) => "Verbatim("@ + text::debug_of(s) + ")"@,
        TagForm::Secondary(s) => "Secondary("@ + text::debug_of(s) + ")"@,
        TagForm::Handle { handle, suffix } => "Handle { handle: "@ + text::debug_of(handle)
            + ", suffix: "@ + text::debug_of(suffix) + " }"@,
        TagForm::Primary(s) => "Primary("@ + text::debug_of(s) + ")"@,
        TagForm::Unknown(s) => "Unknown("@ + text::debug_of(s) + ")"@,
    }
}

/// A value as `Debug` writes it; a decimal number as it was written.
pub open spec fn value_debug(v: ValueModel) -> Seq<char> {
    match v {
        ValueModel::Null => "Null"@,
        ValueModel::Bool(b) => if b {
            "Bool(true)"@
        } else {
            "Bool(false)"@
        },
        ValueModel::Int(n) => "Int("@ + text::int_text(n) + ")"@,
        ValueModel::Float(FloatModel::NotANumber) => "Float(NaN)"@,
        ValueModel::Float(FloatModel::Infinity) => "Float(inf)"@,
        ValueModel::Float(FloatModel::NegInfinity) => "Float(-inf)"@,
        ValueModel::Float(FloatModel::Decimal(s)) => "Float("@ + s + ")"@,
        ValueModel::Text(s) => "String("@ + text::debug_of(s) + ")"@,
    }
}

/// A text between a head and a tail.
fn wrapped(head: &str, s: &str, tail: &str) -> (r: String)
    ensures
        r@ == head@ + s@ + tail@,
{
    let mut r = join(head, s);
    r.push_str(tail);
    r
}

/// A tag in words.
fn tag_words(t: &Tag) -> (r: String)
    ensures
        r@ == tag_debug(t@),
{
    match t {
        Tag::NonSpecific => string_of(&chars_of("NonSpecific")),
        Tag::Verbatim(s) => wrapped("Verbatim(", debug_text(s.as_str()).as_str(), ")"),
        Tag::Secondary(s) => wrapped("Secondary(", debug_text(s.as_str()).as_str(), ")"),
        Tag::Handle { handle, suffix } => {
            let head = wrapped(
                "Handle { handle: ",
                debug_text(handle.as_str()).as_str(),
                ", suffix: ",
            );
            wrapped(head.as_str(), debug_text(suffix.as_str()).as_str(), " }")
        },
        Tag::Primary(s) => wrapped("Primary(", debug_text(s.as_str()).as_str(), ")"),
        Tag::Unknown(s) => wrapped("Unknown(", debug_text(s.as_str()).as_str(), ")"),
    }
}

/// A value in words.
fn value_words(v: &Value) -> (r: String)
    ensures
        r@ == value_debug(v@),
{
    match v {
        Value::Null => string_of(&chars_of("Null")),
        Value::Bool(b) => if *b {
            string_of(&chars_of("Bool(true)"))
        } else {
            string_of(&chars_of("Bool(false)"))
        },
        Value::Int(n) => wrapped("Int(", string_of(&int_chars(*n)).as_str(), ")"),
        Value::Float(FloatValue::NotANumber) => string_of(&chars_of("Float(NaN)")),
        Value::Float(FloatValue::Infinity) => string_of(&chars_of("Float(inf)")),
        Value::Float(FloatValue::NegInfinity) => string_of(&chars_of("Float(-inf)")),
        Value::Float(FloatValue::Decimal(s)) => wrapped("Float(", s.as_str(), ")"),
        Value::String(s) => wrapped("String(", debug_text(s.as_str()).as_str(), ")"),
    }
}

/// The lines for properties.
pub open spec fn property_lines(p: Tree, pad: Seq<char>) -> Seq<char> {
    let anchor = match nodes::first_text(p.children(), SyntaxKind::ANCHOR) {
        Some(s) => line(deeper(pad), "anchor &"@ + nodes::without_leading(s, '&')),
        None => seq![],
    };
    let tag = match nodes::first_text(p.children(), SyntaxKind::TAG) {
        Some(s) => line(deeper(pad), "tag "@ + tag_debug(nodes::tag_form(s))),
        None => seq![],
    };
    line(pad, "NodeProperties"@) + anchor + tag
}

/// The lines for the properties of the node at `path`, where it has some.
pub open spec fn properties_of(whole: Tree, path: Seq<usize>, pad: Seq<char>) -> Seq<char> {
    let cs = path::tree_at(whole, path.drop_last())->0.children();
    if path.len() == 0 {
        seq![]
    } else {
        match nodes::properties_place(cs, path.last() as int) {
            Some(i) => property_lines(cs[i], pad),
            None => seq![],
        }
    }
}

/// The name of a style.
pub open spec fn style_name(s: Option<ScalarStyle>) -> Seq<char> {
    match s {
        Some(ScalarStyle::Plain) => "plain"@,
        Some(ScalarStyle::SingleQuoted) => "single"@,
        Some(ScalarStyle::DoubleQuoted) => "double"@,
        Some(ScalarStyle::Literal) => "literal"@,
        Some(ScalarStyle::Folded) => "folded"@,
        None => "?"@,
    }
}

/// The lines for the scalar `t` at `path`.
pub open spec fn scalar_lines(whole: Tree, path: Seq<usize>, t: Tree, pad: Seq<char>) -> Seq<char> {
    let props = properties_of(whole, path, deeper(pad));
    if t.kind() == SyntaxKind::NULL_SCALAR.code() {
        line(pad, "Null"@) + props
    } else {
        let token = scalar::value_token_of(t.children());
        let style = match token {
            Some(x) => scalar::token_style(x),
            None => None,
        };
        let raw = match token {
            Some(x) => x.text(),
            None => seq![],
        };
        let broken = scalar::break_behind(whole, path);
        let decoded = match (
            scalar::scalar_text_in(t.children(), broken),
            scalar::scalar_value_in(t, broken),
        ) {
            (Ok(s), Ok(v)) => line(
                deeper(pad),
                "decoded="@ + escaped(s) + " value="@ + value_debug(v),
            ),
            _ => seq![],
        };
        line(pad, "Scalar ["@ + style_name(style) + "] "@ + escaped(raw)) + props + decoded
    }
}

/// Appends the lines for properties.
fn ast_properties(p: &NodeProperties, pad: &str, out: &mut String)
    requires
        p.0.wf(),
    ensures
        final(out)@ == old(out)@ + property_lines(p.0.tree(), pad@),
{
    let pad2 = indent(pad);
    push_line(out, pad, "NodeProperties");
    if let Some(a) = p.anchor_name() {
        push_line(out, pad2.as_str(), join("anchor &", a.as_str()).as_str());
    }
    if let Some(t) = p.tag_value() {
        push_line(out, pad2.as_str(), join("tag ", tag_words(&t).as_str()).as_str());
    }
    assert(out@ =~= old(out)@ + property_lines(p.0.tree(), pad@));
}

/// Appends the lines for the properties of a node, where it has some.
fn ast_properties_of(p: Option<NodeProperties>, n: &SyntaxNode, pad: &str, out: &mut String)
    requires
        n.wf(),
        nodes::properties_are(p, *n),
    ensures
        final(out)@ == old(out)@ + properties_of(n.whole(), n.path@, pad@),
{
    if let Some(p) = p {
        ast_properties(&p, pad, out);
    }
    assert(out@ =~= old(out)@ + properties_of(n.whole(), n.path@, pad@));
}

/// Appends the lines for a scalar.
fn ast_scalar(s: &Scalar, pad: &str, out: &mut String)
    requires
        s.0.wf(),
    ensures
        final(out)@ == old(out)@ + scalar_lines(s.0.whole(), s.0.path@, s.0.tree(), pad@),
{
    let pad2 = indent(pad);
    if s.is_null() {
        push_line(out, pad, "Null");
        ast_properties_of(s.properties(), &s.0, pad2.as_str(), out);
        assert(out@ =~= old(out)@ + scalar_lines(s.0.whole(), s.0.path@, s.0.tree(), pad@));
        return;
    }
    let style = match s.style() {
        Some(ScalarStyle::Plain) => "plain",
        Some(ScalarStyle::SingleQuoted) => "single",
        Some(ScalarStyle::DoubleQuoted) => "double",
        Some(ScalarStyle::Literal) => "literal",
        Some(ScalarStyle::Folded) => "folded",
        None => "?",
    };
    let raw = match s.raw_text() {
        Some(t) => t,
        None => {
            let t = String::new();
            assert(t@ =~= seq![]);
            t
        },
    };
    let head = wrapped("Scalar [", style, "] ");
    push_line(out, pad, join(head.as_str(), escape(raw.as_str()).as_str()).as_str());
    ast_properties_of(s.properties(), &s.0, pad2.as_str(), out);
    if let Ok(decoded) = s.decoded() {
        if let Ok(v) = s.to_value() {
            let head = wrapped("decoded=", escape(decoded.as_str()).as_str(), " value=");
            push_line(
                out,
                pad2.as_str(),
                join(head.as_str(), value_words(&v).as_str()).as_str(),
            );
        }
    }
    assert(out@ =~= old(out)@ + scalar_lines(s.0.whole(), s.0.path@, s.0.tree(), pad@));
}

/// A collection with the number of its entries.
pub open spec fn counted(label: Seq<char>, t: Tree, kind: SyntaxKind) -> Seq<char> {
    label + " ("@ + text::int_text(node::places(t.children(), node::nodes_of(kind)).len() as int)
        + " entries)"@
}

/// The lines for the value `t` at `path`.
pub open spec fn ast_lines(whole: Tree, path: Seq<usize>, t: Tree, pad: Seq<char>) -> Seq<char>
    decreases t, 0int,
{
    let k = t.kind();
    match t {
        Tree::Token { .. } => seq![],
        Tree::Node { children, .. } => if k == SyntaxKind::BLOCK_MAPPING.code() {
            line(pad, counted("BlockMapping"@, t, SyntaxKind::BLOCK_MAPPING_ENTRY)) + entries_lines(
                whole,
                path,
                children,
                SyntaxKind::BLOCK_MAPPING_ENTRY,
                pad,
            )
        } else if k == SyntaxKind::FLOW_MAPPING.code() {
            line(pad, counted("FlowMapping"@, t, SyntaxKind::FLOW_MAPPING_ENTRY)) + entries_lines(
                whole,
                path,
                children,
                SyntaxKind::FLOW_MAPPING_ENTRY,
                pad,
            )
        } else if k == SyntaxKind::BLOCK_SEQUENCE.code() {
            line(pad, counted("BlockSequence"@, t, SyntaxKind::BLOCK_SEQUENCE_ENTRY)) + items_lines(
                whole,
                path,
                children,
                SyntaxKind::BLOCK_SEQUENCE_ENTRY,
                pad,
            )
        } else if k == SyntaxKind::FLOW_SEQUENCE.code() {
            line(pad, counted("FlowSequence"@, t, SyntaxKind::FLOW_SEQUENCE_ENTRY)) + items_lines(
                whole,
                path,
                children,
                SyntaxKind::FLOW_SEQUENCE_ENTRY,
                pad,
            )
        } else if k == SyntaxKind::ALIAS_NODE.code() {
            line(
                pad,
                "Alias *"@ + match nodes::first_text(children, SyntaxKind::ALIAS) {
                    Some(s) => nodes::without_leading(s, '*'),
                    None => seq![],
                },
            )
        } else {
            scalar_lines(whole, path, t, pad)
        },
    }
}

/// The lines for the value at place `k` among those of the entry `e` at `path`.
pub open spec fn held_lines(
    whole: Tree,
    path: Seq<usize>,
    e: Tree,
    k: int,
    pad: Seq<char>,
) -> Seq<char>
    decreases e, 1int,
{
    let p = collections::value_places(e);
    match e {
        Tree::Token { .. } => seq![],
        Tree::Node { children, .. } => {
            if 0 <= k < p.len() && 0 <= p[k] < children.len() {
                ast_lines(whole, path.push(p[k] as usize), children[p[k]], pad)
            } else {
                seq![]
            }
        },
    }
}

/// The lines for the entry `e` at `path`.
pub open spec fn entry_lines(whole: Tree, path: Seq<usize>, e: Tree, pad: Seq<char>) -> Seq<char>
    decreases e, 2int,
{
    let pad1 = deeper(pad);
    let pad2 = deeper(pad1);
    let pad3 = deeper(pad2);
    line(pad1, "Entry"@) + line(pad2, "Key"@) + held_lines(whole, path, e, 0, pad3) + (
    if collections::value_places(e).len() > 1 {
        line(pad2, "Value"@) + held_lines(whole, path, e, 1, pad3)
    } else {
        line(pad2, "Value (none)"@)
    })
}

/// The lines for the entries of kind `kind` among the first children of the node
/// at `path`.
pub open spec fn entries_lines(
    whole: Tree,
    path: Seq<usize>,
    ts: Seq<Tree>,
    kind: SyntaxKind,
    pad: Seq<char>,
) -> Seq<char>
    decreases ts, 3int,
{
    if ts.len() == 0 {
        seq![]
    } else {
        entries_lines(whole, path, ts.drop_last(), kind, pad) + (if collections::holding(kind)(
            ts.last(),
        ) {
            entry_lines(whole, path.push((ts.len() - 1) as usize), ts.last(), pad)
        } else {
            seq![]
        })
    }
}

/// The lines for the items of kind `kind` among the first children of the node
/// at `path`.
pub open spec fn items_lines(
    whole: Tree,
    path: Seq<usize>,
    ts: Seq<Tree>,
    kind: SyntaxKind,
    pad: Seq<char>,
) -> Seq<char>
    decreases ts, 3int,
{
    if ts.len() == 0 {
        seq![]
    } else {
        items_lines(whole, path, ts.drop_last(), kind, pad) + (if collections::holding(kind)(
            ts.last(),
        ) {
            held_lines(
                whole,
                path.push((ts.len() - 1) as usize),
                ts.last(),
                0,
                deeper(pad),
            )
        } else {
            seq![]
        })
    }
}

/// Appends the line for a collection.
fn push_counted(label: &str, n: &SyntaxNode, kind: SyntaxKind, pad: &str, out: &mut String)
    requires
        n.wf(),
    ensures
        final(out)@ == old(out)@ + line(pad@, counted(label@, n.tree(), kind)),
{
    let count = count_entries(n, kind);
    let head = wrapped(label, " (", string_of(&decimal_chars(count as u64)).as_str());
    push_line(out, pad, join(head.as_str(), " entries)").as_str());
}

/// Appends the lines for the entry at `i` of a mapping.
fn ast_entry(n: &SyntaxNode, i: usize, key: &Node, pad: &str, out: &mut String)
    requires
        n.wf(),
        i < n.parts().len(),
        n.parts()[i as int] is Node,
        collections::value_at(*key, *n, i as int, 0),
    ensures
        final(out)@ == old(out)@ + entry_lines(
            n.whole(),
            n.path@.push(i),
            n.parts()[i as int],
            pad@,
        ),
    decreases n.tree(), 0int,
{
    let pad1 = indent(pad);
    let pad2 = indent(pad1.as_str());
    let pad3 = indent(pad2.as_str());
    let ghost e = n.parts()[i as int];
    let ghost at = n.path@.push(i);
    proof {
        let p = collections::value_places(e);
        node::lemma_places(e.children(), nodes::typed::<Node>());
        assert(decreases_to!(n.tree() => n.tree()->children[i as int]));
        assert(decreases_to!(e => e->children[p[0]]));
        if p.len() > 1 {
            assert(decreases_to!(e => e->children[p[1]]));
        }
    }
    push_line(out, pad1.as_str(), "Entry");
    push_line(out, pad2.as_str(), "Key");
    ast_node(key, pad3.as_str(), out);
    assert(held_lines(n.whole(), at, e, 0, pad3@) == ast_lines(
        n.whole(),
        key.node().path@,
        key.node().tree(),
        pad3@,
    ));
    match entry_value(n, i, 1) {
        Some(v) => {
            push_line(out, pad2.as_str(), "Value");
            ast_node(&v, pad3.as_str(), out);
            assert(held_lines(n.whole(), at, e, 1, pad3@) == ast_lines(
                n.whole(),
                v.node().path@,
                v.node().tree(),
                pad3@,
            ));
        },
        None => {
            push_line(out, pad2.as_str(), "Value (none)");
        },
    }
    assert(out@ =~= old(out)@ + entry_lines(n.whole(), at, e, pad@));
}

/// Appends the lines for a mapping.
fn ast_mapping(label: &str, n: &SyntaxNode, kind: SyntaxKind, pad: &str, out: &mut String)
    requires
        n.wf(),
    ensures
        final(out)@ == old(out)@ + line(pad@, counted(label@, n.tree(), kind)) + entries_lines(
            n.whole(),
            n.path@,
            n.parts(),
            kind,
            pad@,
        ),
    decreases n.tree(), 1int,
{
    push_counted(label, n, kind, pad, out);
    let len = n.len();
    let ghost cs = n.parts();
    let ghost start = out@;
    let mut i: usize = 0;
    assert(cs.take(0) =~= seq![]);
    assert(out@ =~= start + entries_lines(n.whole(), n.path@, cs.take(0), kind, pad@));
    while i < len
        invariant
            n.wf(),
            cs == n.parts(),
            i <= len,
            len == cs.len(),
            out@ == start + entries_lines(n.whole(), n.path@, cs.take(i as int), kind, pad@),
        decreases len - i,
    {
        assert(cs.take(i + 1).drop_last() =~= cs.take(i as int));
        if is_entry(n, i, kind) {
            if let Some(key) = entry_value(n, i, 0) {
                ast_entry(n, i, &key, pad, out);
            }
        }
        assert(out@ =~= start + entries_lines(n.whole(), n.path@, cs.take(i + 1), kind, pad@));
        i = i + 1;
    }
    assert(cs.take(len as int) =~= cs);
}

/// Appends the lines for the items of a sequence.
fn ast_sequence(label: &str, n: &SyntaxNode, kind: SyntaxKind, pad: &str, out: &mut String)
    requires
        n.wf(),
    ensures
        final(out)@ == old(out)@ + line(pad@, counted(label@, n.tree(), kind)) + items_lines(
            n.whole(),
            n.path@,
            n.parts(),
            kind,
            pad@,
        ),
    decreases n.tree(), 1int,
{
    push_counted(label, n, kind, pad, out);
    let pad1 = indent(pad);
    let len = n.len();
    let ghost cs = n.parts();
    let ghost start = out@;
    let mut i: usize = 0;
    assert(cs.take(0) =~= seq![]);
    assert(out@ =~= start + items_lines(n.whole(), n.path@, cs.take(0), kind, pad@));
    while i < len
        invariant
            n.wf(),
            cs == n.parts(),
            i <= len,
            len == cs.len(),
            pad1@ == deeper(pad@),
            out@ == start + items_lines(n.whole(), n.path@, cs.take(i as int), kind, pad@),
        decreases len - i,
    {
        let ghost before = out@;
        let ghost e = cs[i as int];
        assert(cs.take(i + 1).drop_last() =~= cs.take(i as int));
        if is_entry(n, i, kind) {
            if let Some(v) = entry_value(n, i, 0) {
                proof {
                    node::lemma_places(e.children(), nodes::typed::<Node>());
                    let p = collections::value_places(e);
                    assert(decreases_to!(n.tree() => n.tree()->children[i as int]));
                    assert(decreases_to!(e => e->children[p[0]]));
                    if p.len() > 1 {
                        assert(decreases_to!(e => e->children[p[1]]));
                    }
                }
                ast_node(&v, pad1.as_str(), out);
                assert(held_lines(n.whole(), n.path@.push(i), e, 0, pad1@) == ast_lines(
                    n.whole(),
                    v.node().path@,
                    v.node().tree(),
                    pad1@,
                ));
            }
        }
        assert(out@ =~= start + items_lines(n.whole(), n.path@, cs.take(i + 1), kind, pad@));
        i = i + 1;
    }
    assert(cs.take(len as int) =~= cs);
}

/// Appends the line for an alias.
fn ast_alias(a: &AliasNode, pad: &str, out: &mut String)
    requires
        a.0.wf(),
        a.fits(),
    ensures
        final(out)@ == old(out)@ + ast_lines(a.0.whole(), a.0.path@, a.0.tree(), pad@),
{
    let name = match a.name() {
        Some(s) => s,
        None => {
            let t = String::new();
            assert(t@ =~= seq![]);
            t
        },
    };
    push_line(out, pad, join("Alias *", name.as_str()).as_str());
}

/// Appends the lines for a value.
fn ast_node(x: &Node, pad: &str, out: &mut String)
    requires
        x.fits(),
        x.node().wf(),
    ensures
        final(out)@ == old(out)@ + ast_lines(
            x.node().whole(),
            x.node().path@,
            x.node().tree(),
            pad@,
        ),
    decreases x.node().tree(), 2int,
{
    match x {
        Node::Scalar(s) => ast_scalar(s, pad, out),
        Node::BlockMapping(m) => ast_mapping(
            "BlockMapping",
            &m.0,
            SyntaxKind::BLOCK_MAPPING_ENTRY,
            pad,
            out,
        ),
        Node::FlowMapping(m) => ast_mapping(
            "FlowMapping",
            &m.0,
            SyntaxKind::FLOW_MAPPING_ENTRY,
            pad,
            out,
        ),
        Node::BlockSequence(m) => ast_sequence(
            "BlockSequence",
            &m.0,
            SyntaxKind::BLOCK_SEQUENCE_ENTRY,
            pad,
            out,
        ),
        Node::FlowSequence(m) => ast_sequence(
            "FlowSequence",
            &m.0,
            SyntaxKind::FLOW_SEQUENCE_ENTRY,
            pad,
            out,
        ),
        Node::Alias(a) => ast_alias(a, pad, out),
    }
    assert(out@ =~= old(out)@ + ast_lines(
        x.node().whole(),
        x.node().path@,
        x.node().tree(),
        pad@,
    ));
}

/// The lines for directives.
pub open spec fn directive_lines(ts: Seq<Tree>, pad: Seq<char>) -> Seq<char>
    decreases ts.len(),
{
    if ts.len() == 0 {
        seq![]
    } else {
        directive_lines(ts.drop_last(), pad) + (if ts.last().is_token_of(SyntaxKind::DIRECTIVE) {
            line(pad, "Directive "@ + escaped(ts.last().text()))
        } else {
            seq![]
        })
    }
}

/// The lines for the document `d` at `path`.
pub open spec fn document_lines(whole: Tree, path: Seq<usize>, d: Tree, pad: Seq<char>) -> Seq<
    char,
> {
    let pad1 = deeper(pad);
    let ds = node::places(d.children(), nodes::typed::<nodes::Directives>());
    let vs = node::places(d.children(), nodes::typed::<Node>());
    line(pad, "Document"@) + (if ds.len() > 0 {
        line(pad1, "Directives"@) + directive_lines(
            d.children()[ds[0]].children(),
            deeper(pad1),
        )
    } else {
        seq![]
    }) + (if vs.len() > 0 {
        ast_lines(whole, path.push(vs[0] as usize), d.children()[vs[0]], pad1)
    } else {
        seq![]
    })
}

/// The lines for the documents among the first children of a stream.
pub open spec fn documents_lines(whole: Tree, ts: Seq<Tree>, pad: Seq<char>) -> Seq<char>
    decreases ts.len(),
{
    if ts.len() == 0 {
        seq![]
    } else {
        documents_lines(whole, ts.drop_last(), pad) + (if nodes::typed::<Document>()(ts.last()) {
            document_lines(whole, seq![(ts.len() - 1) as usize], ts.last(), pad)
        } else {
            seq![]
        })
    }
}

/// Appends the lines for directives.
fn ast_directives(d: &nodes::Directives, pad: &str, out: &mut String)
    requires
        d.0.wf(),
    ensures
        final(out)@ == old(out)@ + directive_lines(d.0.parts(), pad@),
{
    let len = d.0.len();
    let ghost cs = d.0.parts();
    let mut i: usize = 0;
    assert(cs.take(0) =~= seq![]);
    assert(out@ =~= old(out)@ + directive_lines(cs.take(0), pad@));
    while i < len
        invariant
            d.0.wf(),
            cs == d.0.parts(),
            i <= len,
            len == cs.len(),
            out@ == old(out)@ + directive_lines(cs.take(i as int), pad@),
        decreases len - i,
    {
        assert(cs.take(i + 1).drop_last() =~= cs.take(i as int));
        if let SyntaxElement::Token(t) = d.0.child_or_token(i) {
            if t.is(SyntaxKind::DIRECTIVE) {
                let body = join("Directive ", escape(t.text()).as_str());
                push_line(out, pad, body.as_str());
            }
        }
        assert(out@ =~= old(out)@ + directive_lines(cs.take(i + 1), pad@));
        i = i + 1;
    }
    assert(cs.take(len as int) =~= cs);
}

/// Appends the lines for a document.
fn ast_document(doc: &Document, pad: &str, out: &mut String)
    requires
        doc.0.wf(),
    ensures
        final(out)@ == old(out)@ + document_lines(
            doc.0.whole(),
            doc.0.path@,
            doc.0.tree(),
            pad@,
        ),
{
    let pad1 = indent(pad);
    push_line(out, pad, "Document");
    if let Some(dirs) = doc.directives() {
        push_line(out, pad1.as_str(), "Directives");
        ast_directives(&dirs, indent(pad1.as_str()).as_str(), out);
    }
    if let Some(root) = doc.root_node() {
        ast_node(&root, pad1.as_str(), out);
    }
    assert(out@ =~= old(out)@ + document_lines(
        doc.0.whole(),
        doc.0.path@,
        doc.0.tree(),
        pad@,
    ));
}

/// The values of a tree, a line or more each.
pub fn ast_string(tree: &SyntaxTree) -> (r: String)
    requires
        tree.wf(),
    ensures
        r@ == (if tree@.kind() == SyntaxKind::STREAM.code() {
            "Stream\n"@ + documents_lines(tree@, tree@.children(), seq![' ', ' '])
        } else {
            "Stream (no root)\n"@
        }),
{
    if !tree.root.is(SyntaxKind::STREAM) {
        return string_of(&chars_of("Stream (no root)\n"));
    }
    let mut out = string_of(&chars_of("Stream\n"));
    let ghost start = out@;
    let ghost pad = seq![' ', ' '];
    proof {
        reveal_strlit("  ");
        assert("  "@ =~= pad);
    }
    let len = tree.root.len();
    let ghost cs = tree.root.parts();
    let mut i: usize = 0;
    assert(cs.take(0) =~= seq![]);
    assert(out@ =~= start + documents_lines(tree@, cs.take(0), pad));
    while i < len
        invariant
            tree.wf(),
            cs == tree.root.parts(),
            i <= len,
            len == cs.len(),
            "  "@ == pad,
            out@ == start + documents_lines(tree@, cs.take(i as int), pad),
        decreases len - i,
    {
        assert(cs.take(i + 1).drop_last() =~= cs.take(i as int));
        if let SyntaxElement::Node(c) = tree.root.child_or_token(i) {
            assert(c.path@ =~= seq![i]);
            if let Some(doc) = Document::cast(c) {
                ast_document(&doc, "  ", &mut out);
            }
        }
        assert(out@ =~= start + documents_lines(tree@, cs.take(i + 1), pad));
        i = i + 1;
    }
    assert(cs.take(len as int) =~= cs);
    out
}

} // verus!

//! Comments on entries and documents.
//!
//! A leading comment is the run of comment lines right before a node; a blank
//! line ends the run. A trailing comment stands behind an entry, on its line. A
//! comment is read without its `#` and one space behind it, and written as `# `
//! with the text behind, or `#` alone for an empty line.

use vstd::prelude::*;
use vstd::string::*;

use crate::edit;
use crate::edit::entry;
use crate::edit::make::mk_token;
use crate::edit::splice_at;
use crate::syntax::green;
use crate::syntax::green::{GreenElement, Tree, MAX_LEN};
use crate::syntax::kind::SyntaxKind;
use crate::syntax::node::{SyntaxElement, SyntaxNode, SyntaxToken};
use crate::syntax::path;
use crate::syntax::tree::SyntaxTree;
use crate::syntax::tree_utils;
use crate::syntax::tree_utils::{indent_of, is_first_meaningful_child};
use crate::text;
use crate::text::{chars_of, chars_slice, has_char, push_chars, split_chars, string_of};

verus! {

// ---- Reading ----

/// What a comment says: its text without a `#` and one space.
pub open spec fn comment_payload(raw: Seq<char>) -> Seq<char> {
    let a = if raw.len() > 0 && raw[0] == '#' {
        raw.skip(1)
    } else {
        raw
    };
    if a.len() > 0 && a[0] == ' ' {
        a.skip(1)
    } else {
        a
    }
}

/// What a comment says.
fn strip_hash(raw: &str) -> (r: Vec<char>)
    ensures
        r@ == comment_payload(raw@),
{
    let v = chars_of(raw);
    let n = v.len();
    let mut i: usize = 0;
    if i < n && v[i] == '#' {
        i = i + 1;
    }
    if i < n && v[i] == ' ' {
        i = i + 1;
    }
    let r = chars_slice(&v, i, n);
    assert(r@ =~= comment_payload(raw@));
    r
}

/// Comments collected from trivia: those since the last blank line, and how many
/// line breaks came since the last of them.
pub struct Run {
    pub texts: Seq<Seq<char>>,
    pub breaks: int,
}

/// The run after one more token of trivia.
pub open spec fn run_step(r: Run, t: Tree) -> Run {
    if t.is_token_of(SyntaxKind::COMMENT) {
        Run { texts: r.texts.push(t.text()), breaks: 0 }
    } else if t.is_token_of(SyntaxKind::NEWLINE) {
        Run {
            texts: if r.breaks >= 1 {
                seq![]
            } else {
                r.texts
            },
            breaks: r.breaks + 1,
        }
    } else {
        r
    }
}

/// The run of comments at the end of trivia.
pub open spec fn trailing_run(ts: Seq<Tree>) -> Run
    decreases ts.len(),
{
    if ts.len() == 0 {
        Run { texts: seq![], breaks: 0 }
    } else {
        run_step(trailing_run(ts.drop_last()), ts.last())
    }
}

/// Which of the tokens is the first comment of the run at their end.
pub open spec fn run_first(ts: Seq<Tree>) -> int
    decreases ts.len(),
{
    if ts.len() == 0 {
        0
    } else if ts.last().is_token_of(SyntaxKind::COMMENT) && trailing_run(
        ts.drop_last(),
    ).texts.len() == 0 {
        ts.len() - 1
    } else {
        run_first(ts.drop_last())
    }
}

/// Where the trivia before `i` begins.
pub open spec fn trivia_start(cs: Seq<Tree>, i: int) -> int
    decreases i,
{
    if i > 0 && cs[i - 1].is_trivia() {
        trivia_start(cs, i - 1)
    } else {
        i
    }
}

/// The comments right before the child at `i`.
pub open spec fn comments_at(cs: Seq<Tree>, i: int) -> Seq<Seq<char>> {
    trailing_run(cs.subrange(trivia_start(cs, i), i)).texts
}

/// Where the first of the comments right before the child at `i` stands.
pub open spec fn comments_first(cs: Seq<Tree>, i: int) -> int {
    trivia_start(cs, i) + run_first(cs.subrange(trivia_start(cs, i), i))
}

/// Where the lines of the comments right before the child at `i` begin: at the
/// whitespace before the first of them.
pub open spec fn block_start(cs: Seq<Tree>, i: int) -> int {
    let f = comments_first(cs, i);
    if f > 0 && cs[f - 1].is_token_of(SyntaxKind::WHITESPACE) {
        f - 1
    } else {
        f
    }
}

/// Whether the child at `k` would begin a line.
pub open spec fn at_line_start(cs: Seq<Tree>, k: int) -> bool {
    k == 0 || cs[k - 1].is_token_of(SyntaxKind::NEWLINE) || ({
        let s = cs[k - 1].text();
        s.len() > 0 && s.last() == '\n'
    })
}

/// Where what is cleared with the comments right before the child at `i` ends:
/// with their last line, whose line break stays where the first comment stands
/// behind something else on its line.
pub open spec fn cleared_end(cs: Seq<Tree>, i: int) -> int {
    let e = entry::blanks_start(cs, i);
    if e > 0 && cs[e - 1].is_token_of(SyntaxKind::NEWLINE) && !at_line_start(
        cs,
        block_start(cs, i),
    ) {
        e - 1
    } else {
        e
    }
}

/// The siblings of the node at `path`, itself among them.
pub open spec fn siblings(whole: Tree, path: Seq<usize>) -> Seq<Tree> {
    path::tree_at(whole, path.drop_last())->0.children()
}

/// The node whose leading comments are those of the node at `path`: itself or,
/// while there are none and it is the first child that is no trivia, the node
/// above.
pub open spec fn leading_anchor(whole: Tree, path: Seq<usize>) -> Option<Seq<usize>>
    decreases path.len(),
{
    if path.len() == 0 {
        None
    } else {
        let cs = siblings(whole, path);
        let i = path.last() as int;
        if comments_at(cs, i).len() > 0 {
            Some(path)
        } else if tree_utils::first_meaningful(cs, i) {
            leading_anchor(whole, path.drop_last())
        } else {
            None
        }
    }
}

/// Comments as one text, a line for each.
pub open spec fn payload(texts: Seq<Seq<char>>) -> Seq<char>
    decreases texts.len(),
{
    if texts.len() == 0 {
        seq![]
    } else if texts.len() == 1 {
        comment_payload(texts[0])
    } else {
        payload(texts.drop_last()).push('\n') + comment_payload(texts.last())
    }
}

/// The leading comment of the node at `path`.
pub open spec fn leading_text(whole: Tree, path: Seq<usize>) -> Seq<char> {
    match leading_anchor(whole, path) {
        Some(q) => payload(comments_at(siblings(whole, q), q.last() as int)),
        None => seq![],
    }
}

/// Where the trivia before `i` begins.
fn find_trivia_start(n: &SyntaxNode, i: usize) -> (r: usize)
    requires
        n.wf(),
        i <= n.parts().len(),
    ensures
        r == trivia_start(n.parts(), i as int),
        r <= i,
{
    let mut k = i;
    while k > 0
        invariant
            n.wf(),
            k <= i <= n.parts().len(),
            trivia_start(n.parts(), k as int) == trivia_start(n.parts(), i as int),
        decreases k,
    {
        match n.child_or_token(k - 1) {
            SyntaxElement::Token(t) => {
                if !t.is_trivia() {
                    return k;
                }
            },
            SyntaxElement::Node(_) => {
                return k;
            },
        }
        k = k - 1;
    }
    k
}

/// The comments right before the child at `i`, as one text, and where the first
/// of them stands; nothing where there are none.
fn comments_before(n: &SyntaxNode, i: usize) -> (r: Option<(Vec<char>, usize)>)
    requires
        n.wf(),
        i <= n.parts().len(),
    ensures
        match r {
            Some((v, first)) => {
                &&& comments_at(n.parts(), i as int).len() > 0
                &&& v@ == payload(comments_at(n.parts(), i as int))
                &&& first == comments_first(n.parts(), i as int)
                &&& first < i
                &&& n.parts()[first as int].is_token_of(SyntaxKind::COMMENT)
            },
            None => comments_at(n.parts(), i as int).len() == 0,
        },
{
    let ghost cs = n.parts();
    let start = find_trivia_start(n, i);
    let mut out: Vec<char> = Vec::new();
    let mut any = false;
    let mut broken = false;
    let mut first = start;
    let mut k = start;
    assert(cs.subrange(start as int, start as int) =~= seq![]);
    while k < i
        invariant
            n.wf(),
            cs == n.parts(),
            start <= k <= i <= cs.len(),
            ({
                let run = trailing_run(cs.subrange(start as int, k as int));
                &&& any == (run.texts.len() > 0)
                &&& out@ == payload(run.texts)
                &&& broken == (run.breaks >= 1)
                &&& run.breaks >= 0
                &&& any ==> first == start + run_first(cs.subrange(start as int, k as int))
                &&& any ==> first < k && cs[first as int].is_token_of(SyntaxKind::COMMENT)
            }),
        decreases i - k,
    {
        let ghost run = trailing_run(cs.subrange(start as int, k as int));
        proof {
            let x = cs.subrange(start as int, k + 1);
            assert(x.drop_last() =~= cs.subrange(start as int, k as int));
            assert(x.last() == cs[k as int]);
        }
        if let SyntaxElement::Token(t) = n.child_or_token(k) {
            if t.is(SyntaxKind::COMMENT) {
                if any {
                    out.push('\n');
                } else {
                    first = k;
                }
                push_chars(&mut out, &strip_hash(t.text()));
                any = true;
                broken = false;
                proof {
                    let more = run.texts.push(t.tree().text());
                    assert(more.drop_last() =~= run.texts);
                    assert(out@ =~= payload(more));
                }
            } else if t.is(SyntaxKind::NEWLINE) {
                if broken {
                    out = Vec::new();
                    any = false;
                    assert(out@ =~= payload(seq![]));
                }
                broken = true;
            }
        }
        k = k + 1;
    }
    if any {
        Some((out, first))
    } else {
        None
    }
}

/// The node whose leading comments are those of `anchor`, what they say, and
/// where the first of them stands.
fn find_leading_block_with_walk_up(anchor: &SyntaxNode) -> (r: Option<
    (SyntaxNode, Vec<char>, usize),
>)
    requires
        anchor.wf(),
    ensures
        match leading_anchor(anchor.whole(), anchor.path@) {
            Some(q) => {
                let (n, v, first) = r->0;
                &&& r is Some
                &&& n.wf()
                &&& n.whole() == anchor.whole()
                &&& n.path@ == q
                &&& q.len() > 0
                &&& v@ == payload(comments_at(siblings(anchor.whole(), q), q.last() as int))
                &&& first == comments_first(siblings(anchor.whole(), q), q.last() as int)
                &&& first < q.last()
                &&& siblings(anchor.whole(), q)[first as int].is_token_of(SyntaxKind::COMMENT)
            },
            None => r is None,
        },
    decreases anchor.path@.len(),
{
    let parent = match anchor.parent() {
        Some(p) => p,
        None => {
            return None;
        },
    };
    let i = anchor.index();
    match comments_before(&parent, i) {
        Some((v, first)) => Some((anchor.handle(), v, first)),
        None => {
            if is_first_meaningful_child(anchor) {
                find_leading_block_with_walk_up(&parent)
            } else {
                None
            }
        },
    }
}

/// The leading comment of a node; empty where there is none.
pub(crate) fn read_leading(anchor: &SyntaxNode) -> (r: String)
    requires
        anchor.wf(),
    ensures
        r@ == leading_text(anchor.whole(), anchor.path@),
{
    match find_leading_block_with_walk_up(anchor) {
        Some((_, v, _)) => string_of(&v),
        None => {
            let r = String::new();
            assert(r@ =~= seq![]);
            r
        },
    }
}

// ---- Writing leading comments ----

/// A comment that says `line`.
pub open spec fn comment_tree(line: Seq<char>) -> Tree {
    Tree::Token {
        kind: SyntaxKind::COMMENT.code(),
        text: if line.len() == 0 {
            seq!['#']
        } else {
            seq!['#', ' '] + line
        },
    }
}

/// A line break.
pub open spec fn newline_tree() -> Tree {
    Tree::Token { kind: SyntaxKind::NEWLINE.code(), text: seq!['\n'] }
}

/// An indentation, if there is any.
pub open spec fn indent_trees(indent: Seq<char>) -> Seq<Tree> {
    if indent.len() > 0 {
        seq![Tree::Token { kind: SyntaxKind::WHITESPACE.code(), text: indent }]
    } else {
        seq![]
    }
}

/// Comment lines, each indented and ended by a line break.
pub open spec fn line_trees(lines: Seq<Seq<char>>, indent: Seq<char>) -> Seq<Tree>
    decreases lines.len(),
{
    if lines.len() == 0 {
        seq![]
    } else {
        line_trees(lines.drop_last(), indent) + indent_trees(indent) + seq![
            comment_tree(lines.last()),
            newline_tree(),
        ]
    }
}

/// A leading comment; where it takes the place of what stood before its node,
/// the node's indentation comes behind it.
pub open spec fn leading_trees(
    text: Option<Seq<char>>,
    indent: Seq<char>,
    from_line_start: bool,
) -> Seq<Tree> {
    match text {
        None => seq![],
        Some(s) => line_trees(text::split_on(s, '\n'), indent) + if from_line_start {
            indent_trees(indent)
        } else {
            seq![]
        },
    }
}

/// A comment that says `line`.
fn comment_element(line: &Vec<char>) -> (r: GreenElement)
    ensures
        r@ == comment_tree(line@),
{
    let mut v: Vec<char> = Vec::new();
    v.push('#');
    if line.len() > 0 {
        v.push(' ');
        push_chars(&mut v, line);
    }
    assert(v@ =~= comment_tree(line@).text());
    GreenElement::Token(mk_token(SyntaxKind::COMMENT, string_of(&v).as_str()))
}

/// A line break.
fn newline_element() -> (r: GreenElement)
    ensures
        r@ == newline_tree(),
{
    proof {
        reveal_strlit("\n");
        assert("\n"@ =~= seq!['\n']);
    }
    GreenElement::Token(mk_token(SyntaxKind::NEWLINE, "\n"))
}

/// Appends an indentation, if there is any.
fn push_indent(out: &mut Vec<GreenElement>, indent: &str)
    ensures
        green::element_trees(final(out)@) == green::element_trees(old(out)@) + indent_trees(
            indent@,
        ),
{
    if indent.as_bytes().len() > 0 {
        proof {
            if indent@.len() == 0 {
                assert(indent.spec_bytes().len() == 0) by {
                    assert(indent@ =~= seq![]);
                }
            }
        }
        out.push(GreenElement::Token(mk_token(SyntaxKind::WHITESPACE, indent)));
    } else {
        proof {
            if indent@.len() > 0 {
                vstd::utf8::encode_utf8_decode_utf8(indent@);
                vstd::utf8::encode_utf8_decode_utf8(Seq::<char>::empty());
                assert(indent.spec_bytes() =~= vstd::utf8::encode_utf8(Seq::<char>::empty()));
            }
        }
    }
    assert(green::element_trees(out@) =~= green::element_trees(old(out)@) + indent_trees(indent@));
}

/// A leading comment, as green elements.
fn build_leading_elements(
    text: Option<&str>,
    indent: &str,
    from_line_start: bool,
) -> (r: Vec<GreenElement>)
    ensures
        green::element_trees(r@) == leading_trees(
            (match text {
                Some(s) => Some(s@),
                None => None,
            }),
            indent@,
            from_line_start,
        ),
{
    let mut out: Vec<GreenElement> = Vec::new();
    let s = match text {
        Some(s) => s,
        None => {
            assert(green::element_trees(out@) =~= seq![]);
            return out;
        },
    };
    let lines = split_chars(&chars_of(s), '\n');
    let ghost ls = text::views(lines@);
    let mut i: usize = 0;
    assert(ls.take(0) =~= seq![]);
    assert(green::element_trees(out@) =~= seq![]);
    while i < lines.len()
        invariant
            ls == text::views(lines@),
            i <= lines@.len(),
            green::element_trees(out@) == line_trees(ls.take(i as int), indent@),
        decreases lines@.len() - i,
    {
        let ghost before = green::element_trees(out@);
        push_indent(&mut out, indent);
        let ghost mid = green::element_trees(out@);
        out.push(comment_element(&lines[i]));
        out.push(newline_element());
        proof {
            let x = ls.take(i + 1);
            assert(x.drop_last() =~= ls.take(i as int));
            assert(x.last() == lines@[i as int]@);
            assert(green::element_trees(out@) =~= mid + seq![
                comment_tree(x.last()),
                newline_tree(),
            ]);
        }
        i = i + 1;
    }
    assert(ls.take(ls.len() as int) =~= ls);
    if from_line_start {
        push_indent(&mut out, indent);
    } else {
        assert(line_trees(ls, indent@) + seq![] =~= line_trees(ls, indent@));
    }
    out
}

/// Whether the node at `path` stands in a flow collection.
pub open spec fn in_flow_at(whole: Tree, path: Seq<usize>) -> bool {
    path.len() > 0 && ({
        let p = path::tree_at(whole, path.drop_last())->0;
        p.is_node_of(SyntaxKind::FLOW_MAPPING) || p.is_node_of(SyntaxKind::FLOW_SEQUENCE)
    })
}

/// Whether a node stands in a flow collection.
fn in_flow(n: &SyntaxNode) -> (r: bool)
    requires
        n.wf(),
    ensures
        r == in_flow_at(n.whole(), n.path@),
{
    match n.parent() {
        Some(p) => p.is(SyntaxKind::FLOW_MAPPING) || p.is(SyntaxKind::FLOW_SEQUENCE),
        None => false,
    }
}

/// The tree after the leading comment of the node at `path` was set to `text`,
/// or cleared. The lines take the place of those that stood there, and what else
/// stands before the node stays.
pub open spec fn with_leading(whole: Tree, path: Seq<usize>, text: Option<Seq<char>>) -> Tree {
    match leading_anchor(whole, path) {
        Some(q) => {
            let cs = siblings(whole, q);
            let i = q.last() as int;
            edit::spliced_at(
                whole,
                q.drop_last(),
                block_start(cs, i),
                if text is Some {
                    entry::blanks_start(cs, i)
                } else {
                    cleared_end(cs, i)
                },
                leading_trees(text, tree_utils::indent_text(whole, q), false),
            )
        },
        None => if text is None || path.len() == 0 {
            whole
        } else if in_flow_at(whole, path) {
            edit::spliced_at(
                whole,
                path.drop_last(),
                entry::blanks_start(siblings(whole, path), path.last() as int),
                path.last() as int,
                leading_trees(text, tree_utils::indent_text(whole, path), true),
            )
        } else {
            edit::spliced_at(
                whole,
                path.drop_last(),
                path.last() as int,
                path.last() as int,
                leading_trees(text, tree_utils::indent_text(whole, path), false),
            )
        },
    }
}

/// A text that may be missing, by its content.
pub open spec fn opt_view(text: Option<&str>) -> Option<Seq<char>> {
    match text {
        Some(s) => Some(s@),
        None => None,
    }
}

/// Where the whitespace before `i` begins.
fn find_blanks_start(n: &SyntaxNode, i: usize) -> (r: usize)
    requires
        n.wf(),
        i <= n.parts().len(),
    ensures
        r == entry::blanks_start(n.parts(), i as int),
        r <= i,
{
    let mut k = i;
    while k > 0
        invariant
            n.wf(),
            k <= i <= n.parts().len(),
            entry::blanks_start(n.parts(), k as int) == entry::blanks_start(n.parts(), i as int),
        decreases k,
    {
        match n.child_or_token(k - 1) {
            SyntaxElement::Token(t) => {
                if !t.is(SyntaxKind::WHITESPACE) {
                    return k;
                }
            },
            SyntaxElement::Node(_) => {
                return k;
            },
        }
        k = k - 1;
    }
    k
}

/// Whitespace before `i` begins behind everything else that stands before `i`.
pub proof fn lemma_blanks_behind(cs: Seq<Tree>, i: int, f: int)
    requires
        0 <= f < i,
        !cs[f].is_token_of(SyntaxKind::WHITESPACE),
    ensures
        f < entry::blanks_start(cs, i),
    decreases i,
{
    if cs[i - 1].is_token_of(SyntaxKind::WHITESPACE) {
        lemma_blanks_behind(cs, i - 1, f);
    }
}

/// Where the line of the comment at `first` begins, as far as whitespace goes.
fn find_block_start(n: &SyntaxNode, first: usize) -> (r: usize)
    requires
        n.wf(),
        first <= n.parts().len(),
    ensures
        r == (if first > 0 && n.parts()[first - 1].is_token_of(SyntaxKind::WHITESPACE) {
            first - 1
        } else {
            first as int
        }),
{
    if first > 0 {
        if let SyntaxElement::Token(t) = n.child_or_token(first - 1) {
            if t.is(SyntaxKind::WHITESPACE) {
                return first - 1;
            }
        }
    }
    first
}

/// Whether a text ends with a line break.
fn ends_line(s: &str) -> (r: bool)
    ensures
        r == (s@.len() > 0 && s@.last() == '\n'),
{
    let v = chars_of(s);
    v.len() > 0 && v[v.len() - 1] == '\n'
}

/// Where what is cleared with the comments right before the child at `i` ends,
/// where their lines begin at `start`.
fn find_cleared_end(n: &SyntaxNode, start: usize, i: usize) -> (r: usize)
    requires
        n.wf(),
        i <= n.parts().len(),
        start == block_start(n.parts(), i as int),
        start <= i,
    ensures
        r == cleared_end(n.parts(), i as int),
        r <= i,
{
    let e = find_blanks_start(n, i);
    let fresh = start == 0 || match n.child_or_token(start - 1) {
        SyntaxElement::Token(t) => t.is(SyntaxKind::NEWLINE) || ends_line(t.text()),
        SyntaxElement::Node(m) => ends_line(m.text().as_str()),
    };
    if e > 0 && !fresh {
        if let SyntaxElement::Token(t) = n.child_or_token(e - 1) {
            if t.is(SyntaxKind::NEWLINE) {
                return e - 1;
            }
        }
    }
    e
}

/// Sets the leading comment of a node, or clears it.
pub(crate) fn write_leading(tree: &mut SyntaxTree, anchor: &SyntaxNode, text: Option<&str>)
    requires
        old(tree).wf(),
        anchor.wf(),
        anchor.whole() == old(tree)@,
        path::tree_len(with_leading(old(tree)@, anchor.path@, opt_view(text))) <= MAX_LEN,
    ensures
        final(tree).wf(),
        final(tree)@ == with_leading(old(tree)@, anchor.path@, opt_view(text)),
{
    if let Some((n, _, first)) = find_leading_block_with_walk_up(anchor) {
        if let Some(parent) = n.parent() {
            let i = n.index();
            let start = find_block_start(&parent, first);
            let end = if text.is_some() {
                find_blanks_start(&parent, i)
            } else {
                find_cleared_end(&parent, start, i)
            };
            proof {
                lemma_blanks_behind(parent.parts(), i as int, first as int);
            }
            let indent = indent_of(&n);
            let v = build_leading_elements(text, indent.as_str(), false);
            splice_at(tree, &parent, start, end, v);
        }
        return;
    }
    if text.is_none() {
        return;
    }
    let parent = match anchor.parent() {
        Some(p) => p,
        None => {
            return;
        },
    };
    let i = anchor.index();
    let indent = indent_of(anchor);
    if in_flow(anchor) {
        let start = find_blanks_start(&parent, i);
        let v = build_leading_elements(text, indent.as_str(), true);
        splice_at(tree, &parent, start, i, v);
    } else {
        let v = build_leading_elements(text, indent.as_str(), false);
        splice_at(tree, &parent, i, i, v);
    }
}

/// Whether the child at `i` begins its line: only whitespace stands between it
/// and a line break. Where there is nothing else before it, it must be the
/// first child that is no trivia.
pub open spec fn begins_line(cs: Seq<Tree>, i: int) -> bool {
    let k = entry::blanks_start(cs, i);
    if k > 0 {
        cs[k - 1].is_token_of(SyntaxKind::NEWLINE)
    } else {
        tree_utils::first_meaningful(cs, i)
    }
}

/// Whether there is room for a comment line above a node.
pub(crate) fn can_write_leading(n: &SyntaxNode) -> (r: bool)
    requires
        n.wf(),
    ensures
        r == (n.path@.len() > 0 && begins_line(siblings(n.whole(), n.path@), n.path@.last() as int)),
{
    let parent = match n.parent() {
        Some(p) => p,
        None => {
            return false;
        },
    };
    let k = find_blanks_start(&parent, n.index());
    if k > 0 {
        match parent.child_or_token(k - 1) {
            SyntaxElement::Token(t) => t.is(SyntaxKind::NEWLINE),
            SyntaxElement::Node(_) => false,
        }
    } else {
        is_first_meaningful_child(n)
    }
}

/// Why a leading comment cannot be written.
pub open spec fn no_leading_room() -> Seq<char> {
    "cannot attach a leading comment: the entry is not preceded by a newline (e.g. a single-line flow item has no room for a comment line above)"@
}

/// Sets the leading comment of an entry, where there is room for it. To clear it
/// always works.
pub(crate) fn write_leading_guarded(
    tree: &mut SyntaxTree,
    anchor: &SyntaxNode,
    text: Option<&str>,
) -> (r: Result<(), String>)
    requires
        old(tree).wf(),
        anchor.wf(),
        anchor.whole() == old(tree)@,
        path::tree_len(with_leading(old(tree)@, anchor.path@, opt_view(text))) <= MAX_LEN,
    ensures
        leading_written(r, *old(tree), *final(tree), anchor.path@, opt_view(text)),
{
    if text.is_some() && !can_write_leading(anchor) {
        return Err(
            string_of(
                &chars_of(
                    "cannot attach a leading comment: the entry is not preceded by a newline (e.g. a single-line flow item has no room for a comment line above)",
                ),
            ),
        );
    }
    write_leading(tree, anchor, text);
    Ok(())
}

/// Whether setting the leading comment of the entry at `path` went as it should.
pub open spec fn leading_written(
    r: Result<(), String>,
    before: SyntaxTree,
    after: SyntaxTree,
    path: Seq<usize>,
    text: Option<Seq<char>>,
) -> bool {
    let room = path.len() > 0 && begins_line(siblings(before@, path), path.last() as int);
    &&& after.wf()
    &&& if text is Some && !room {
        r is Err && r->Err_0@ == no_leading_room() && after@ == before@
    } else {
        r is Ok && after@ == with_leading(before@, path, text)
    }
}

// ---- Trailing comments ----

/// The text of the last comment among `cs`.
pub open spec fn last_comment(cs: Seq<Tree>) -> Option<Seq<char>>
    decreases cs.len(),
{
    if cs.len() == 0 {
        None
    } else if cs.last().is_token_of(SyntaxKind::COMMENT) {
        Some(cs.last().text())
    } else {
        last_comment(cs.drop_last())
    }
}

/// The text of the last comment from `j` on, on the same line: behind
/// whitespace and commas. `found` is the one so far.
pub open spec fn flow_comment(cs: Seq<Tree>, j: int, found: Option<Seq<char>>) -> Option<Seq<char>>
    decreases cs.len() - j,
{
    if !(0 <= j < cs.len()) {
        found
    } else if cs[j].is_token_of(SyntaxKind::COMMENT) {
        flow_comment(cs, j + 1, Some(cs[j].text()))
    } else if cs[j].is_token_of(SyntaxKind::WHITESPACE) || cs[j].is_token_of(SyntaxKind::COMMA) {
        flow_comment(cs, j + 1, found)
    } else {
        found
    }
}

/// The line break that ends the line at `j`, behind whitespace, comments and at
/// most one comma.
pub open spec fn line_end(cs: Seq<Tree>, j: int, comma: bool) -> Option<int>
    decreases cs.len() - j,
{
    if !(0 <= j < cs.len()) {
        None
    } else if cs[j].is_token_of(SyntaxKind::NEWLINE) {
        Some(j)
    } else if cs[j].is_token_of(SyntaxKind::WHITESPACE) || cs[j].is_token_of(SyntaxKind::COMMENT) {
        line_end(cs, j + 1, comma)
    } else if cs[j].is_token_of(SyntaxKind::COMMA) && !comma {
        line_end(cs, j + 1, true)
    } else {
        None
    }
}

/// Whether only whitespace, comments and at most one comma stand from `j` on.
pub open spec fn line_runs_out(cs: Seq<Tree>, j: int, comma: bool) -> bool
    decreases cs.len() - j,
{
    if !(0 <= j < cs.len()) {
        true
    } else if cs[j].is_token_of(SyntaxKind::WHITESPACE) || cs[j].is_token_of(SyntaxKind::COMMENT) {
        line_runs_out(cs, j + 1, comma)
    } else {
        cs[j].is_token_of(SyntaxKind::COMMA) && !comma && line_runs_out(cs, j + 1, true)
    }
}

/// The last of `cs` that is no trivia.
pub open spec fn last_solid(cs: Seq<Tree>) -> Option<int>
    decreases cs.len(),
{
    if cs.len() == 0 {
        None
    } else if cs.last().is_trivia() {
        last_solid(cs.drop_last())
    } else {
        Some(cs.len() - 1)
    }
}

/// Whether a tree is whitespace or a comment.
pub open spec fn blank_or_comment(t: Tree) -> bool {
    t.is_token_of(SyntaxKind::WHITESPACE) || t.is_token_of(SyntaxKind::COMMENT)
}

/// Where the whitespace and comments from `j` on end.
pub open spec fn comments_end(cs: Seq<Tree>, j: int) -> int
    decreases cs.len() - j,
{
    if 0 <= j < cs.len() && blank_or_comment(cs[j]) {
        comments_end(cs, j + 1)
    } else {
        j
    }
}

/// Whether there is a comment from `a` up to `b`.
pub open spec fn comment_between(cs: Seq<Tree>, a: int, b: int) -> bool {
    exists|i: int| a <= i < b && (#[trigger] cs[i]).is_token_of(SyntaxKind::COMMENT)
}

/// Whether a comment stands behind the child at `j`, on its line.
pub open spec fn comment_behind(cs: Seq<Tree>, j: int) -> bool {
    comment_between(cs, j + 1, comments_end(cs, j + 1))
}

/// Where the first line of `cs` ends.
pub open spec fn first_line_end(cs: Seq<Tree>, i: int) -> int
    decreases cs.len() - i,
{
    if 0 <= i < cs.len() && !cs[i].is_token_of(SyntaxKind::NEWLINE) {
        first_line_end(cs, i + 1)
    } else {
        i
    }
}

/// Whether a value leaves the line of its key to the comment: a block collection,
/// or nothing.
pub open spec fn leaves_line(t: Tree) -> bool {
    t.is_node_of(SyntaxKind::BLOCK_MAPPING) || t.is_node_of(SyntaxKind::BLOCK_SEQUENCE) || (t
        is Node && t.text().len() == 0)
}

/// The child of an entry that its trailing comment stands behind. That is the
/// value, where a comment stands behind it on its line. Else it is the last on the
/// entry's first line, where a comment stands behind that one, or where the value
/// is a block collection or nothing; and the value otherwise.
pub open spec fn trailing_place(cs: Seq<Tree>) -> Option<int> {
    match last_solid(cs) {
        None => None,
        Some(l) => if comment_behind(cs, l) {
            Some(l)
        } else {
            match last_solid(cs.take(first_line_end(cs, 0))) {
                Some(h) => if comment_behind(cs, h) || leaves_line(cs[l]) {
                    Some(h)
                } else {
                    Some(l)
                },
                None => Some(l),
            }
        },
    }
}

/// The comment on an entry's line among its own children `cs`.
pub open spec fn own_comment(cs: Seq<Tree>) -> Option<Seq<char>> {
    match trailing_place(cs) {
        Some(p) => last_comment(cs.subrange(p + 1, comments_end(cs, p + 1))),
        None => None,
    }
}

/// Whether the line that the trailing comment of an entry goes to ends among the
/// entry's own children `cs`.
pub open spec fn own_line_ends(cs: Seq<Tree>) -> bool {
    match trailing_place(cs) {
        Some(p) => {
            let e = comments_end(cs, p + 1);
            0 <= e < cs.len() && cs[e].is_token_of(SyntaxKind::NEWLINE)
        },
        None => false,
    }
}

/// Whether the trailing comment of the entry at `path` stands among the entry's
/// own children. So it does in a block collection; in a flow collection it stands
/// behind the entry, and the comma, where its line goes on there.
pub open spec fn commented_inside(whole: Tree, path: Seq<usize>) -> bool {
    let cs = path::tree_at(whole, path)->0.children();
    !in_flow_at(whole, path) || own_line_ends(cs) || own_comment(cs) is Some
}

/// The trailing comment of the entry at `path`: the one on its line.
pub open spec fn trailing_text(whole: Tree, path: Seq<usize>) -> Seq<char> {
    let raw = if commented_inside(whole, path) {
        own_comment(path::tree_at(whole, path)->0.children())
    } else {
        flow_comment(siblings(whole, path), path.last() + 1, None)
    };
    match raw {
        Some(s) => comment_payload(s),
        None => seq![],
    }
}

/// The text of a flow entry's trailing comment.
fn find_trailing_comment_flow(entry: &SyntaxNode) -> (r: Option<SyntaxToken>)
    requires
        entry.wf(),
        entry.path@.len() > 0,
    ensures
        match flow_comment(siblings(entry.whole(), entry.path@), entry.path@.last() + 1, None) {
            Some(s) => r is Some && r->0.tree().text() == s,
            None => r is None,
        },
{
    let parent = match entry.parent() {
        Some(p) => p,
        None => {
            return None;
        },
    };
    let len = parent.len();
    let index = entry.index();
    let ghost cs = parent.parts();
    let ghost goal = flow_comment(cs, index + 1, None);
    let mut found: Option<SyntaxToken> = None;
    let mut j: usize = index + 1;
    while j < len
        invariant
            parent.wf(),
            cs == parent.parts(),
            len == cs.len(),
            j <= len,
            goal == flow_comment(
                cs,
                j as int,
                (match found {
                    Some(t) => Some(t.tree().text()),
                    None => None,
                }),
            ),
            cs == siblings(entry.whole(), entry.path@),
            index == entry.path@.last(),
            goal == flow_comment(cs, index + 1, None),
        decreases len - j,
    {
        match parent.child_or_token(j) {
            SyntaxElement::Token(t) => {
                if t.is(SyntaxKind::COMMENT) {
                    found = Some(t);
                } else if !(t.is(SyntaxKind::WHITESPACE) || t.is(SyntaxKind::COMMA)) {
                    return found;
                }
            },
            SyntaxElement::Node(_) => {
                return found;
            },
        }
        j = j + 1;
    }
    found
}

/// Where the last child before `n` that is no trivia stands.
fn find_solid(entry: &SyntaxNode, n: usize) -> (r: Option<usize>)
    requires
        entry.wf(),
        n <= entry.parts().len(),
    ensures
        match last_solid(entry.parts().take(n as int)) {
            Some(l) => r is Some && r->0 == l && l < n,
            None => r is None,
        },
{
    let ghost cs = entry.parts();
    let mut k = n;
    while k > 0
        invariant
            entry.wf(),
            cs == entry.parts(),
            k <= n <= cs.len(),
            last_solid(cs.take(k as int)) == last_solid(cs.take(n as int)),
        decreases k,
    {
        assert(cs.take(k as int).drop_last() =~= cs.take(k - 1));
        let solid = match entry.child_or_token(k - 1) {
            SyntaxElement::Token(t) => !t.is_trivia(),
            SyntaxElement::Node(_) => true,
        };
        if solid {
            return Some(k - 1);
        }
        k = k - 1;
    }
    None
}

/// Where the first line of an entry's children ends.
fn find_first_line_end(entry: &SyntaxNode) -> (r: usize)
    requires
        entry.wf(),
    ensures
        r == first_line_end(entry.parts(), 0),
        r <= entry.parts().len(),
{
    let len = entry.len();
    let mut i: usize = 0;
    while i < len
        invariant
            entry.wf(),
            len == entry.parts().len(),
            i <= len,
            first_line_end(entry.parts(), i as int) == first_line_end(entry.parts(), 0),
        decreases len - i,
    {
        if let SyntaxElement::Token(t) = entry.child_or_token(i) {
            if t.is(SyntaxKind::NEWLINE) {
                return i;
            }
        }
        i = i + 1;
    }
    i
}

/// Where the whitespace and comments from `start` on end, and the last comment
/// among them.
fn find_comments(entry: &SyntaxNode, start: usize) -> (r: (usize, Option<SyntaxToken>))
    requires
        entry.wf(),
        start <= entry.parts().len(),
    ensures
        r.0 == comments_end(entry.parts(), start as int),
        start <= r.0 <= entry.parts().len(),
        r.1 is Some == comment_between(entry.parts(), start as int, r.0 as int),
        match last_comment(entry.parts().subrange(start as int, r.0 as int)) {
            Some(s) => r.1 is Some && r.1->0.tree().text() == s,
            None => r.1 is None,
        },
{
    let len = entry.len();
    let ghost cs = entry.parts();
    let mut end = start;
    let mut found: Option<SyntaxToken> = None;
    assert(cs.subrange(start as int, start as int) =~= seq![]);
    while end < len
        invariant
            entry.wf(),
            cs == entry.parts(),
            len == cs.len(),
            start <= end <= len,
            comments_end(cs, end as int) == comments_end(cs, start as int),
            found is Some == comment_between(cs, start as int, end as int),
            match last_comment(cs.subrange(start as int, end as int)) {
                Some(s) => found is Some && found->0.tree().text() == s,
                None => found is None,
            },
        ensures
            end == comments_end(cs, start as int),
        decreases len - end,
    {
        proof {
            let x = cs.subrange(start as int, end + 1);
            assert(x.drop_last() =~= cs.subrange(start as int, end as int));
            assert(x.last() == cs[end as int]);
        }
        match entry.child_or_token(end) {
            SyntaxElement::Token(t) => {
                if t.is(SyntaxKind::COMMENT) {
                    assert(cs[end as int].is_token_of(SyntaxKind::COMMENT));
                    found = Some(t);
                } else if !t.is(SyntaxKind::WHITESPACE) {
                    break;
                }
            },
            SyntaxElement::Node(_) => {
                break;
            },
        }
        end = end + 1;
    }
    (end, found)
}

/// Whether a value leaves the line of its key to the comment.
fn value_leaves_line(entry: &SyntaxNode, l: usize) -> (r: bool)
    requires
        entry.wf(),
        l < entry.parts().len(),
    ensures
        r == leaves_line(entry.parts()[l as int]),
{
    match entry.child_or_token(l) {
        SyntaxElement::Node(c) => c.is(SyntaxKind::BLOCK_MAPPING) || c.is(
            SyntaxKind::BLOCK_SEQUENCE,
        ) || chars_of(c.text().as_str()).len() == 0,
        SyntaxElement::Token(_) => false,
    }
}

/// Where the trailing comment of an entry begins: behind the child that it stands
/// behind.
fn find_trailing_place(entry: &SyntaxNode) -> (r: Option<usize>)
    requires
        entry.wf(),
    ensures
        match trailing_place(entry.parts()) {
            Some(p) => r is Some && r->0 == p + 1 && p < entry.parts().len(),
            None => r is None,
        },
{
    let len = entry.len();
    assert(entry.parts().take(len as int) =~= entry.parts());
    let l = match find_solid(entry, len) {
        Some(l) => l,
        None => {
            return None;
        },
    };
    let (_, behind) = find_comments(entry, l + 1);
    if behind.is_some() {
        return Some(l + 1);
    }
    if let Some(h) = find_solid(entry, find_first_line_end(entry)) {
        let (_, first) = find_comments(entry, h + 1);
        if first.is_some() || value_leaves_line(entry, l) {
            return Some(h + 1);
        }
    }
    Some(l + 1)
}

/// The comment on an entry's line among its own children.
fn find_trailing_comment_token(entry: &SyntaxNode) -> (r: Option<SyntaxToken>)
    requires
        entry.wf(),
    ensures
        match own_comment(entry.parts()) {
            Some(s) => r is Some && r->0.tree().text() == s,
            None => r is None,
        },
{
    match find_trailing_place(entry) {
        Some(start) => find_comments(entry, start).1,
        None => None,
    }
}

/// Whether the line that the trailing comment of an entry goes to ends among the
/// entry's own children.
fn line_ends_inside(entry: &SyntaxNode) -> (r: bool)
    requires
        entry.wf(),
    ensures
        r == own_line_ends(entry.parts()),
{
    match find_trailing_place(entry) {
        Some(start) => {
            let (e, _) = find_comments(entry, start);
            e < entry.len() && match entry.child_or_token(e) {
                SyntaxElement::Token(t) => t.is(SyntaxKind::NEWLINE),
                SyntaxElement::Node(_) => false,
            }
        },
        None => false,
    }
}

/// Whether the trailing comment of an entry stands among the entry's own
/// children.
fn comments_inside(entry: &SyntaxNode) -> (r: bool)
    requires
        entry.wf(),
    ensures
        r == commented_inside(entry.whole(), entry.path@),
{
    !in_flow(entry) || line_ends_inside(entry) || find_trailing_comment_token(entry).is_some()
}

/// The trailing comment of an entry; empty where there is none.
pub(crate) fn read_trailing(entry: &SyntaxNode) -> (r: String)
    requires
        entry.wf(),
    ensures
        r@ == trailing_text(entry.whole(), entry.path@),
{
    let found = if comments_inside(entry) {
        find_trailing_comment_token(entry)
    } else {
        find_trailing_comment_flow(entry)
    };
    match found {
        Some(t) => string_of(&strip_hash(t.text())),
        None => {
            let r = String::new();
            assert(r@ =~= seq![]);
            r
        },
    }
}

/// Where the whitespace and comments before `j` begin.
pub open spec fn comments_start(cs: Seq<Tree>, j: int) -> int
    decreases j,
{
    if 0 < j <= cs.len() && blank_or_comment(cs[j - 1]) {
        comments_start(cs, j - 1)
    } else {
        j
    }
}

/// A trailing comment, with a space before it.
pub open spec fn trailing_trees(text: Option<Seq<char>>) -> Seq<Tree> {
    match text {
        None => seq![],
        Some(s) => seq![
            Tree::Token { kind: SyntaxKind::WHITESPACE.code(), text: seq![' '] },
            comment_tree(s),
        ],
    }
}

/// The tree after the trailing comment of the entry at `path` was set to `text`,
/// or cleared.
pub open spec fn with_trailing(whole: Tree, path: Seq<usize>, text: Option<Seq<char>>) -> Tree {
    if commented_inside(whole, path) {
        let cs = path::tree_at(whole, path)->0.children();
        match trailing_place(cs) {
            Some(p) => if text is None && !comment_behind(cs, p) {
                whole
            } else {
                edit::spliced_at(whole, path, p + 1, comments_end(cs, p + 1), trailing_trees(text))
            },
            None => whole,
        }
    } else {
        let cs = siblings(whole, path);
        match line_end(cs, path.last() + 1, false) {
            Some(nl) => {
                let start = comments_start(cs, nl);
                if text is None && !comment_between(cs, start, nl) {
                    whole
                } else {
                    edit::spliced_at(whole, path.drop_last(), start, nl, trailing_trees(text))
                }
            },
            None => whole,
        }
    }
}

/// A trailing comment, as green elements.
fn build_trailing_elements(text: Option<&str>) -> (r: Vec<GreenElement>)
    ensures
        green::element_trees(r@) == trailing_trees(opt_view(text)),
{
    let mut v: Vec<GreenElement> = Vec::new();
    if let Some(s) = text {
        proof {
            reveal_strlit(" ");
            assert(" "@ =~= seq![' ']);
        }
        v.push(GreenElement::Token(mk_token(SyntaxKind::WHITESPACE, " ")));
        v.push(comment_element(&chars_of(s)));
    }
    assert(green::element_trees(v@) =~= trailing_trees(opt_view(text)));
    v
}

/// The place of the line break that ends an entry's line.
fn line_ending_after(entry: &SyntaxNode) -> (r: Option<usize>)
    requires
        entry.wf(),
    ensures
        match r {
            Some(j) => entry.path@.len() > 0 && line_end(
                siblings(entry.whole(), entry.path@),
                entry.path@.last() + 1,
                false,
            ) == Some(j as int) && entry.path@.last() < j < siblings(
                entry.whole(),
                entry.path@,
            ).len(),
            None => entry.path@.len() == 0 || line_end(
                siblings(entry.whole(), entry.path@),
                entry.path@.last() + 1,
                false,
            ) is None,
        },
{
    let parent = match entry.parent() {
        Some(p) => p,
        None => {
            return None;
        },
    };
    let len = parent.len();
    let index = entry.index();
    let ghost cs = parent.parts();
    let mut comma = false;
    let mut j: usize = index + 1;
    while j < len
        invariant
            parent.wf(),
            cs == parent.parts(),
            len == cs.len(),
            index < j <= len,
            entry.path@.len() > 0,
            cs == siblings(entry.whole(), entry.path@),
            index == entry.path@.last(),
            line_end(cs, j as int, comma) == line_end(cs, index + 1, false),
        decreases len - j,
    {
        match parent.child_or_token(j) {
            SyntaxElement::Token(t) => {
                if t.is(SyntaxKind::NEWLINE) {
                    return Some(j);
                }
                if t.is(SyntaxKind::COMMA) && !comma {
                    comma = true;
                } else if !(t.is(SyntaxKind::WHITESPACE) || t.is(SyntaxKind::COMMENT)) {
                    return None;
                }
            },
            SyntaxElement::Node(_) => {
                return None;
            },
        }
        j = j + 1;
    }
    None
}

/// Whether nothing but blanks, comments and at most one comma stands behind an
/// entry among its siblings.
fn runs_out_after(entry: &SyntaxNode) -> (r: bool)
    requires
        entry.wf(),
        entry.path@.len() > 0,
    ensures
        r == line_runs_out(siblings(entry.whole(), entry.path@), entry.path@.last() + 1, false),
{
    let parent = match entry.parent() {
        Some(p) => p,
        None => {
            return true;
        },
    };
    let len = parent.len();
    let index = entry.index();
    let ghost cs = parent.parts();
    let mut comma = false;
    let mut j: usize = index + 1;
    while j < len
        invariant
            parent.wf(),
            cs == parent.parts(),
            len == cs.len(),
            index < j <= len,
            cs == siblings(entry.whole(), entry.path@),
            index == entry.path@.last(),
            line_runs_out(cs, j as int, comma) == line_runs_out(cs, index + 1, false),
        decreases len - j,
    {
        match parent.child_or_token(j) {
            SyntaxElement::Token(t) => {
                if t.is(SyntaxKind::COMMA) && !comma {
                    comma = true;
                } else if !(t.is(SyntaxKind::WHITESPACE) || t.is(SyntaxKind::COMMENT)) {
                    return false;
                }
            },
            SyntaxElement::Node(_) => {
                return false;
            },
        }
        j = j + 1;
    }
    true
}

/// Whether a line break ends the line of the node at `path` behind it. Behind the
/// last entry of a block collection it may stand outside the collection.
pub open spec fn line_ends_behind(whole: Tree, path: Seq<usize>) -> bool
    decreases path.len(),
{
    path.len() > 0 && {
        let cs = siblings(whole, path);
        let j = path.last() + 1;
        line_end(cs, j, false) is Some || (!in_flow_at(whole, path) && line_runs_out(cs, j, false)
            && line_ends_behind(whole, path.drop_last()))
    }
}

/// Whether there is room for a comment on the line of the entry at `path`: a line
/// break ends it, in the entry or behind it.
pub open spec fn trailing_room(whole: Tree, path: Seq<usize>) -> bool {
    own_line_ends(path::tree_at(whole, path)->0.children()) || line_ends_behind(whole, path)
}

/// Whether a line break ends the line of a node behind it.
fn ends_behind(n: &SyntaxNode) -> (r: bool)
    requires
        n.wf(),
    ensures
        r == line_ends_behind(n.whole(), n.path@),
    decreases n.path@.len(),
{
    if line_ending_after(n).is_some() {
        return true;
    }
    match n.parent() {
        Some(p) => !in_flow(n) && runs_out_after(n) && ends_behind(&p),
        None => false,
    }
}

/// Whether there is room for a comment on the line of an entry.
pub(crate) fn can_write_trailing(entry: &SyntaxNode) -> (r: bool)
    requires
        entry.wf(),
    ensures
        r == trailing_room(entry.whole(), entry.path@),
{
    line_ends_inside(entry) || ends_behind(entry)
}

/// Sets the trailing comment of an entry, or clears it.
fn set_trailing(tree: &mut SyntaxTree, entry: &SyntaxNode, text: Option<&str>)
    requires
        old(tree).wf(),
        entry.wf(),
        entry.whole() == old(tree)@,
        path::tree_len(with_trailing(old(tree)@, entry.path@, opt_view(text))) <= MAX_LEN,
    ensures
        final(tree).wf(),
        final(tree)@ == with_trailing(old(tree)@, entry.path@, opt_view(text)),
{
    if !comments_inside(entry) {
        set_trailing_flow(tree, entry, text);
        return;
    }
    let start = match find_trailing_place(entry) {
        Some(start) => start,
        None => {
            return;
        },
    };
    let (end, found) = find_comments(entry, start);
    if found.is_none() && text.is_none() {
        return;
    }
    let v = build_trailing_elements(text);
    splice_at(tree, entry, start, end, v);
}

/// Sets the trailing comment of a flow entry, or clears it. It stands before the
/// line break that ends the entry's line.
fn set_trailing_flow(tree: &mut SyntaxTree, entry: &SyntaxNode, text: Option<&str>)
    requires
        old(tree).wf(),
        entry.wf(),
        entry.whole() == old(tree)@,
        !commented_inside(entry.whole(), entry.path@),
        path::tree_len(with_trailing(old(tree)@, entry.path@, opt_view(text))) <= MAX_LEN,
    ensures
        final(tree).wf(),
        final(tree)@ == with_trailing(old(tree)@, entry.path@, opt_view(text)),
{
    let nl = match line_ending_after(entry) {
        Some(j) => j,
        None => {
            return;
        },
    };
    let parent = match entry.parent() {
        Some(p) => p,
        None => {
            return;
        },
    };
    let ghost cs = parent.parts();
    let mut start = nl;
    let mut has_comment = false;
    while start > 0
        invariant
            parent.wf(),
            cs == parent.parts(),
            start <= nl < cs.len(),
            comments_start(cs, start as int) == comments_start(cs, nl as int),
            has_comment == comment_between(cs, start as int, nl as int),
        ensures
            start == comments_start(cs, nl as int),
        decreases start,
    {
        let more = match parent.child_or_token(start - 1) {
            SyntaxElement::Token(t) => {
                if t.is(SyntaxKind::COMMENT) {
                    assert(cs[start - 1].is_token_of(SyntaxKind::COMMENT));
                    has_comment = true;
                }
                t.is(SyntaxKind::COMMENT) || t.is(SyntaxKind::WHITESPACE)
            },
            SyntaxElement::Node(_) => false,
        };
        if !more {
            break;
        }
        start = start - 1;
    }
    if !has_comment && text.is_none() {
        return;
    }
    let v = build_trailing_elements(text);
    splice_at(tree, &parent, start, nl, v);
}

/// Why a trailing comment cannot hold a line break.
pub open spec fn no_line_breaks() -> Seq<char> {
    "trailing comment cannot contain a newline"@
}

/// Why a trailing comment cannot be written.
pub open spec fn no_trailing_room() -> Seq<char> {
    "cannot attach a trailing comment: the entry is not followed by a newline (e.g. a single-line flow item has no room for `# ...`)"@
}

/// Whether setting the trailing comment of the entry at `path` went as it
/// should.
pub open spec fn trailing_written(
    r: Result<(), String>,
    before: SyntaxTree,
    after: SyntaxTree,
    path: Seq<usize>,
    text: Seq<char>,
) -> bool {
    &&& after.wf()
    &&& if text.contains('\n') || text.contains('\r') {
        r is Err && r->Err_0@ == no_line_breaks() && after@ == before@
    } else if !trailing_room(before@, path) {
        r is Err && r->Err_0@ == no_trailing_room() && after@ == before@
    } else {
        r is Ok && after@ == with_trailing(before@, path, Some(text))
    }
}

/// Sets the trailing comment of an entry, where there is room for it.
pub(crate) fn write_trailing(tree: &mut SyntaxTree, entry: &SyntaxNode, text: &str) -> (r: Result<
    (),
    String,
>)
    requires
        old(tree).wf(),
        entry.wf(),
        entry.whole() == old(tree)@,
        path::tree_len(with_trailing(old(tree)@, entry.path@, Some(text@))) <= MAX_LEN,
    ensures
        trailing_written(r, *old(tree), *final(tree), entry.path@, text@),
{
    let v = chars_of(text);
    if has_char(&v, '\n') || has_char(&v, '\r') {
        return Err(string_of(&chars_of("trailing comment cannot contain a newline")));
    }
    if !can_write_trailing(entry) {
        return Err(
            string_of(
                &chars_of(
                    "cannot attach a trailing comment: the entry is not followed by a newline (e.g. a single-line flow item has no room for `# ...`)",
                ),
            ),
        );
    }
    set_trailing(tree, entry, Some(text));
    Ok(())
}

/// Takes the trailing comment of an entry away.
pub(crate) fn clear_trailing(tree: &mut SyntaxTree, entry: &SyntaxNode)
    requires
        old(tree).wf(),
        entry.wf(),
        entry.whole() == old(tree)@,
        path::tree_len(with_trailing(old(tree)@, entry.path@, None)) <= MAX_LEN,
    ensures
        final(tree).wf(),
        final(tree)@ == with_trailing(old(tree)@, entry.path@, None),
{
    set_trailing(tree, entry, None);
}

} // verus!

//! A comment that was written is read.

use vstd::prelude::*;

use crate::ast::comment;
use crate::edit;
use crate::edit::entry;
use crate::syntax::green::Tree;
use crate::syntax::kind::SyntaxKind;
use crate::syntax::path;
use crate::syntax::tree_utils;
use crate::text;

verus! {

// ---- Lines ----

/// The comments that say these lines.
pub open spec fn line_comments(lines: Seq<Seq<char>>) -> Seq<Seq<char>> {
    Seq::new(lines.len(), |i: int| comment::comment_tree(lines[i]).text())
}

/// A comment says the line that it was made of.
proof fn lemma_comment_says(line: Seq<char>)
    ensures
        comment::comment_payload(comment::comment_tree(line).text()) == line,
{
    let raw = comment::comment_tree(line).text();
    if line.len() == 0 {
        assert(raw.skip(1) =~= line);
    } else {
        assert(raw.skip(1).skip(1) =~= line);
    }
}

/// A first line goes before the others.
proof fn lemma_payload_first(texts: Seq<Seq<char>>)
    requires
        texts.len() > 1,
    ensures
        comment::payload(texts) == comment::comment_payload(texts[0]).push('\n')
            + comment::payload(texts.skip(1)),
    decreases texts.len(),
{
    let rest = texts.skip(1);
    let head = texts.drop_last();
    if texts.len() == 2 {
        assert(head =~= seq![texts[0]]);
        assert(rest =~= seq![texts[1]]);
        assert(comment::payload(head) == comment::comment_payload(texts[0]));
        assert(comment::payload(rest) == comment::comment_payload(texts[1]));
    } else {
        lemma_payload_first(head);
        assert(head.skip(1) =~= rest.drop_last());
        assert(comment::payload(texts) =~= comment::comment_payload(texts[0]).push('\n')
            + comment::payload(rest));
    }
}

/// The lines of a text, as comments, say the text.
proof fn lemma_lines_say(s: Seq<char>, i: int)
    requires
        0 <= i <= s.len(),
    ensures
        text::split_from(s, '\n', i).len() > 0,
        comment::payload(line_comments(text::split_from(s, '\n', i))) == s.skip(i),
    decreases s.len() - i,
{
    let e = text::find_from(s, '\n', i);
    let lines = text::split_from(s, '\n', i);
    let texts = line_comments(lines);
    text::lemma_find_from(s, '\n', i);
    if e >= s.len() {
        lemma_comment_says(lines[0]);
        assert(texts =~= seq![comment::comment_tree(lines[0]).text()]);
    } else {
        let more = text::split_from(s, '\n', e + 1);
        lemma_lines_say(s, e + 1);
        assert(lines.skip(1) =~= more);
        assert(texts.skip(1) =~= line_comments(more));
        assert(lines[0] =~= s.subrange(i, e));
        lemma_comment_says(lines[0]);
        lemma_payload_first(texts);
        assert(s.skip(i) =~= s.subrange(i, e).push('\n') + s.skip(e + 1));
    }
}

// ---- Trivia ----

/// The runs of two rows of trivia.
proof fn lemma_run_step(a: Seq<Tree>, t: Tree)
    ensures
        comment::trailing_run(a.push(t)) == comment::run_step(comment::trailing_run(a), t),
{
    assert(a.push(t).drop_last() =~= a);
}

/// Whitespace does not change a run.
proof fn lemma_run_indent(a: Seq<Tree>, indent: Seq<char>)
    ensures
        comment::trailing_run(a + comment::indent_trees(indent)) == comment::trailing_run(a),
{
    if indent.len() > 0 {
        let t = Tree::Token { kind: SyntaxKind::WHITESPACE.code(), text: indent };
        lemma_run_step(a, t);
        assert(a + comment::indent_trees(indent) =~= a.push(t));
    } else {
        assert(a + comment::indent_trees(indent) =~= a);
    }
}

/// Comment lines behind trivia that ends with no comments are the run.
proof fn lemma_run_lines(a: Seq<Tree>, lines: Seq<Seq<char>>, indent: Seq<char>)
    requires
        comment::trailing_run(a).texts.len() == 0,
    ensures
        ({
            let run = comment::trailing_run(a + comment::line_trees(lines, indent));
            &&& run.texts == line_comments(lines)
            &&& lines.len() > 0 ==> run.breaks == 1
        }),
    decreases lines.len(),
{
    if lines.len() == 0 {
        assert(a + comment::line_trees(lines, indent) =~= a);
        assert(line_comments(lines) =~= comment::trailing_run(a).texts);
    } else {
        let head = lines.drop_last();
        lemma_run_lines(a, head, indent);
        let b = a + comment::line_trees(head, indent);
        lemma_run_indent(b, indent);
        let c = b + comment::indent_trees(indent);
        lemma_run_step(c, comment::comment_tree(lines.last()));
        lemma_run_step(c.push(comment::comment_tree(lines.last())), comment::newline_tree());
        assert(a + comment::line_trees(lines, indent) =~= c.push(
            comment::comment_tree(lines.last()),
        ).push(comment::newline_tree()));
        assert(line_comments(lines) =~= line_comments(head).push(
            comment::comment_tree(lines.last()).text(),
        ));
    }
}

/// A leading comment is made of trivia.
proof fn lemma_lines_are_trivia(lines: Seq<Seq<char>>, indent: Seq<char>)
    ensures
        forall|i: int|
            0 <= i < comment::line_trees(lines, indent).len() ==> (
            #[trigger] comment::line_trees(lines, indent)[i]).is_trivia(),
    decreases lines.len(),
{
    if lines.len() > 0 {
        lemma_lines_are_trivia(lines.drop_last(), indent);
        let head = comment::line_trees(lines.drop_last(), indent);
        let all = comment::line_trees(lines, indent);
        assert forall|i: int| 0 <= i < all.len() implies (#[trigger] all[i]).is_trivia() by {
            if i < head.len() {
                assert(all[i] == head[i]);
            }
        }
    }
}

/// Trivia put in at `at` joins the trivia before it.
proof fn lemma_trivia_joins(cs: Seq<Tree>, at: int, new: Seq<Tree>, rest: Seq<Tree>, n: int)
    requires
        0 <= at <= cs.len(),
        0 <= n <= new.len(),
        forall|i: int| 0 <= i < new.len() ==> (#[trigger] new[i]).is_trivia(),
    ensures
        comment::trivia_start(cs.take(at) + new + rest, at + n) == comment::trivia_start(cs, at),
    decreases at + n,
{
    let all = cs.take(at) + new + rest;
    if n > 0 {
        assert(all[at + n - 1] == new[n - 1]);
        lemma_trivia_joins(cs, at, new, rest, n - 1);
    } else if at > 0 {
        assert(all[at - 1] == cs[at - 1]);
        lemma_same_trivia(cs, all, at);
    }
}

/// Where trivia begins rests on what stands before alone.
proof fn lemma_same_trivia(a: Seq<Tree>, b: Seq<Tree>, at: int)
    requires
        0 <= at <= a.len(),
        at <= b.len(),
        forall|i: int| 0 <= i < at ==> #[trigger] a[i] == b[i],
    ensures
        comment::trivia_start(a, at) == comment::trivia_start(b, at),
    decreases at,
{
    if at > 0 {
        assert(a[at - 1] == b[at - 1]);
        lemma_same_trivia(a, b, at - 1);
    }
}

/// Trivia begins at or before where it is looked at.
proof fn lemma_trivia_bounds(cs: Seq<Tree>, at: int)
    requires
        0 <= at <= cs.len(),
    ensures
        0 <= comment::trivia_start(cs, at) <= at,
        comment::trivia_start(cs, comment::trivia_start(cs, at)) == comment::trivia_start(cs, at),
    decreases at,
{
    if at > 0 && cs[at - 1].is_trivia() {
        lemma_trivia_bounds(cs, at - 1);
    }
}

/// Whitespace at the end of trivia does not change its run.
proof fn lemma_blanks(cs: Seq<Tree>, at: int)
    requires
        0 <= at <= cs.len(),
    ensures
        0 <= entry::blanks_start(cs, at) <= at,
        comment::trivia_start(cs, entry::blanks_start(cs, at)) == comment::trivia_start(cs, at),
        comment::comments_at(cs, entry::blanks_start(cs, at)) == comment::comments_at(cs, at),
    decreases at,
{
    if at > 0 && cs[at - 1].is_token_of(SyntaxKind::WHITESPACE) {
        lemma_blanks(cs, at - 1);
        lemma_trivia_bounds(cs, at - 1);
        let s = comment::trivia_start(cs, at);
        lemma_run_step(cs.subrange(s, at - 1), cs[at - 1]);
        assert(cs.subrange(s, at) =~= cs.subrange(s, at - 1).push(cs[at - 1]));
    }
}

/// A comment put in at `at`, where no comments end, is right before what follows.
proof fn lemma_comments_put(
    cs: Seq<Tree>,
    at: int,
    end: int,
    s: Seq<char>,
    indent: Seq<char>,
    whole_line: bool,
)
    requires
        0 <= at <= end <= cs.len(),
        comment::comments_at(cs, at).len() == 0,
    ensures
        ({
            let new = comment::leading_trees(Some(s), indent, whole_line);
            let all = path::spliced(cs, at, end, new);
            &&& comment::comments_at(all, at + new.len()).len() > 0
            &&& comment::payload(comment::comments_at(all, at + new.len())) == s
        }),
{
    let lines = text::split_on(s, '\n');
    let body = comment::line_trees(lines, indent);
    let new = comment::leading_trees(Some(s), indent, whole_line);
    let all = path::spliced(cs, at, end, new);
    let n = at + new.len();
    lemma_lines_are_trivia(lines, indent);
    lemma_lines_say(s, 0);
    assert(s.skip(0) =~= s);
    lemma_trivia_joins(cs, at, new, cs.skip(end), new.len() as int);
    lemma_trivia_bounds(cs, at);
    let from = comment::trivia_start(cs, at);
    let before = cs.subrange(from, at);
    lemma_run_lines(before, lines, indent);
    if whole_line {
        lemma_run_indent(before + body, indent);
        assert(all.subrange(from, n) =~= before + body + comment::indent_trees(indent));
    } else {
        assert(all.subrange(from, n) =~= before + body);
    }
}

/// Whitespace from `a` on does not change which comments come before.
proof fn lemma_past_blanks(cs: Seq<Tree>, a: int, b: int)
    requires
        0 <= a <= b <= cs.len(),
        forall|j: int| a <= j < b ==> (#[trigger] cs[j]).is_token_of(SyntaxKind::WHITESPACE),
    ensures
        comment::comments_at(cs, b) == comment::comments_at(cs, a),
    decreases b - a,
{
    if a < b {
        lemma_past_blanks(cs, a, b - 1);
        lemma_trivia_bounds(cs, b - 1);
        assert(cs[b - 1].is_token_of(SyntaxKind::WHITESPACE));
        let s = comment::trivia_start(cs, b);
        lemma_run_step(cs.subrange(s, b - 1), cs[b - 1]);
        assert(cs.subrange(s, b) =~= cs.subrange(s, b - 1).push(cs[b - 1]));
    }
}

/// What follows where whitespace begins is whitespace.
proof fn lemma_blanks_are(cs: Seq<Tree>, i: int)
    requires
        0 <= i <= cs.len(),
    ensures
        forall|j: int|
            entry::blanks_start(cs, i) <= j < i ==> (#[trigger] cs[j]).is_token_of(
                SyntaxKind::WHITESPACE,
            ),
    decreases i,
{
    if i > 0 && cs[i - 1].is_token_of(SyntaxKind::WHITESPACE) {
        lemma_blanks_are(cs, i - 1);
    }
}

/// The first comment of a run has none of the run before it.
proof fn lemma_run_first(ts: Seq<Tree>)
    requires
        comment::trailing_run(ts).texts.len() > 0,
    ensures
        0 <= comment::run_first(ts) < ts.len(),
        ts[comment::run_first(ts)].is_token_of(SyntaxKind::COMMENT),
        comment::trailing_run(ts.take(comment::run_first(ts))).texts.len() == 0,
    decreases ts.len(),
{
    let head = ts.drop_last();
    if ts.last().is_token_of(SyntaxKind::COMMENT) && comment::trailing_run(head).texts.len()
        == 0 {
        assert(ts.take(ts.len() - 1) =~= head);
    } else {
        lemma_run_first(head);
        let f = comment::run_first(head);
        assert(ts.take(f) =~= head.take(f));
    }
}

/// Where comments stand right before `i`, their lines begin behind no comments
/// and end before `i`.
proof fn lemma_block(cs: Seq<Tree>, i: int)
    requires
        0 <= i <= cs.len(),
        comment::comments_at(cs, i).len() > 0,
    ensures
        0 <= comment::block_start(cs, i) <= entry::blanks_start(cs, i) <= i,
        comment::comments_at(cs, comment::block_start(cs, i)).len() == 0,
{
    let from = comment::trivia_start(cs, i);
    lemma_trivia_bounds(cs, i);
    let ts = cs.subrange(from, i);
    lemma_run_first(ts);
    let f = comment::comments_first(cs, i);
    assert(cs[f] == ts[f - from]);
    lemma_blanks(cs, i);
    comment::lemma_blanks_behind(cs, i, f);
    lemma_trivia_within(cs, i, f);
    assert(cs.subrange(from, f) =~= ts.take(f - from));
    let b = comment::block_start(cs, i);
    if b < f {
        lemma_past_blanks(cs, b, f);
    }
}

/// The trivia before a place inside trivia begins where the trivia begins.
proof fn lemma_trivia_within(cs: Seq<Tree>, i: int, k: int)
    requires
        0 <= i <= cs.len(),
        comment::trivia_start(cs, i) <= k <= i,
    ensures
        comment::trivia_start(cs, k) == comment::trivia_start(cs, i),
    decreases i - k,
{
    lemma_trivia_bounds(cs, i);
    if k < i {
        lemma_trivia_within(cs, i - 1, k);
    }
}

// ---- Places ----

/// What lies under the same tree in two trees is the same.
proof fn lemma_inside(t: Tree, a: Seq<usize>, u: Tree, b: Seq<usize>, r: Seq<usize>)
    requires
        path::tree_at(t, a) == path::tree_at(u, b),
    ensures
        path::tree_at(t, a + r) == path::tree_at(u, b + r),
    decreases r.len(),
{
    if r.len() == 0 {
        assert(a + r =~= a);
        assert(b + r =~= b);
    } else {
        lemma_inside(t, a, u, b, r.drop_last());
        assert((a + r).drop_last() =~= a + r.drop_last());
        assert((b + r).drop_last() =~= b + r.drop_last());
    }
}

/// The node that carries a leading comment holds the node whose comment it is.
proof fn lemma_anchor_above(whole: Tree, path: Seq<usize>)
    ensures
        comment::leading_anchor(whole, path) is Some ==> ({
            let q = comment::leading_anchor(whole, path)->0;
            &&& 0 < q.len() <= path.len()
            &&& q == path.take(q.len() as int)
            &&& comment::leading_anchor(whole, q) == Some(q)
            &&& comment::comments_at(comment::siblings(whole, q), q.last() as int).len() > 0
        }),
    decreases path.len(),
{
    if path.len() > 0 {
        let cs = comment::siblings(whole, path);
        let i = path.last() as int;
        if comment::comments_at(cs, i).len() > 0 {
            assert(path.take(path.len() as int) =~= path);
        } else if tree_utils::first_meaningful(cs, i) {
            lemma_anchor_above(whole, path.drop_last());
            if comment::leading_anchor(whole, path) is Some {
                let q = comment::leading_anchor(whole, path)->0;
                assert(path.drop_last().take(q.len() as int) =~= path.take(q.len() as int));
            }
        }
    }
}

/// A node that has its comments from one above still has once the comment above
/// is another.
proof fn lemma_anchor_follows(t: Tree, a: Seq<usize>, u: Tree, b: Seq<usize>, r: Seq<usize>)
    requires
        a.len() > 0,
        b.len() > 0,
        path::tree_at(t, a) == path::tree_at(u, b),
        comment::leading_anchor(t, a + r) == Some(a),
        comment::leading_anchor(u, b) == Some(b),
    ensures
        comment::leading_anchor(u, b + r) == Some(b),
    decreases r.len(),
{
    if r.len() == 0 {
        assert(b + r =~= b);
    } else {
        let r1 = r.drop_last();
        lemma_inside(t, a, u, b, r1);
        assert((a + r).drop_last() =~= a + r1);
        assert((b + r).drop_last() =~= b + r1);
        assert(a + r != a) by {
            assert((a + r).len() > a.len());
        }
        lemma_anchor_follows(t, a, u, b, r1);
    }
}

// ---- Laws ----

/// The node that a leading comment of the node at `path` is put before.
pub open spec fn comment_holder(whole: Tree, path: Seq<usize>) -> Seq<usize> {
    match comment::leading_anchor(whole, path) {
        Some(q) => q,
        None => path,
    }
}

/// Where a leading comment of the node at `path` is put, among the siblings of
/// the node that it is put before.
pub open spec fn comment_start(whole: Tree, path: Seq<usize>) -> int {
    match comment::leading_anchor(whole, path) {
        Some(q) => comment::block_start(comment::siblings(whole, q), q.last() as int),
        None => if comment::in_flow_at(whole, path) {
            entry::blanks_start(comment::siblings(whole, path), path.last() as int)
        } else {
            path.last() as int
        },
    }
}

/// The leading comment `s` of the node at `path`, as trivia.
pub open spec fn comment_lines(whole: Tree, path: Seq<usize>, s: Seq<char>) -> Seq<Tree> {
    comment::leading_trees(
        Some(s),
        tree_utils::indent_text(whole, comment_holder(whole, path)),
        comment::leading_anchor(whole, path) is None && comment::in_flow_at(whole, path),
    )
}

/// Where what a leading comment of the node at `path` takes the place of ends:
/// at the whitespace before the node, where a comment stood there, else at the
/// node.
pub open spec fn comment_end(whole: Tree, path: Seq<usize>) -> int {
    match comment::leading_anchor(whole, path) {
        Some(q) => entry::blanks_start(comment::siblings(whole, q), q.last() as int),
        None => path.last() as int,
    }
}

/// Which child the node behind the leading comment is then.
pub open spec fn commented_index(whole: Tree, path: Seq<usize>, s: Seq<char>) -> int {
    comment_start(whole, path) + comment_lines(whole, path, s).len() + (comment_holder(
        whole,
        path,
    ).last() - comment_end(whole, path))
}

/// Where the node at `path` stands once its leading comment is `s`.
pub open spec fn commented_path(whole: Tree, path: Seq<usize>, s: Seq<char>) -> Seq<usize> {
    let q = comment_holder(whole, path);
    q.drop_last().push(commented_index(whole, path, s) as usize) + path.skip(q.len() as int)
}

/// A leading comment that was set is read, and the node is as it was. (A node
/// can have no more siblings than can be counted.)
pub proof fn lemma_leading_comment_reads_back(whole: Tree, path: Seq<usize>, s: Seq<char>)
    requires
        path.len() > 0,
        path::tree_at(whole, path) is Some,
        commented_index(whole, path, s) <= usize::MAX,
    ensures
        ({
            let after = comment::with_leading(whole, path, Some(s));
            let there = commented_path(whole, path, s);
            &&& path::tree_at(after, there) == path::tree_at(whole, path)
            &&& comment::leading_text(after, there) == s
        }),
{
    let q = comment_holder(whole, path);
    let r = path.skip(q.len() as int);
    lemma_anchor_above(whole, path);
    assert(path.take(path.len() as int) =~= path);
    assert(path =~= q + r);
    let u = q.drop_last();
    let i = q.last() as int;
    lemma_prefix(whole, path, q.len() as int);
    let p = path::tree_at(whole, u)->0;
    let cs = p.children();
    let at = comment_start(whole, path);
    let end = comment_end(whole, path);
    let new = comment_lines(whole, path, s);
    let n = commented_index(whole, path, s);
    lemma_blanks(cs, i);
    lemma_blanks_are(cs, i);
    if comment::leading_anchor(whole, path) is Some {
        lemma_block(cs, i);
    }
    lemma_comments_put(
        cs,
        at,
        end,
        s,
        tree_utils::indent_text(whole, q),
        comment::leading_anchor(whole, path) is None && comment::in_flow_at(whole, path),
    );
    let all = path::spliced(cs, at, end, new);
    assert forall|j: int| at + new.len() <= j < n implies (#[trigger] all[j]).is_token_of(
        SyntaxKind::WHITESPACE,
    ) by {
        assert(all[j] == cs[end + (j - at - new.len())]);
    }
    lemma_past_blanks(all, at + new.len(), n);
    let after = comment::with_leading(whole, path, Some(s));
    assert(after == edit::spliced_at(whole, u, at, end, new));
    path::lemma_replaced_at(whole, u, path::with_children(p, all));
    let b = u.push(n as usize);
    assert(b.drop_last() =~= u);
    assert(all[n] == cs[i]);
    assert(path::tree_at(after, b) == path::tree_at(whole, q));
    lemma_inside(whole, q, after, b, r);
    assert(comment::leading_anchor(after, b) == Some(b));
    if comment::leading_anchor(whole, path) is Some {
        lemma_anchor_follows(whole, q, after, b, r);
    } else {
        assert(b + r =~= b);
    }
}

/// The first comment of lines put behind trivia without comments is that of the
/// first line.
proof fn lemma_first_line(a: Seq<Tree>, lines: Seq<Seq<char>>, indent: Seq<char>)
    requires
        comment::trailing_run(a).texts.len() == 0,
        lines.len() > 0,
    ensures
        comment::run_first(a + comment::line_trees(lines, indent)) == a.len()
            + comment::indent_trees(indent).len(),
        comment::line_trees(lines, indent).len() >= comment::indent_trees(indent).len() + 2,
        comment::line_trees(lines, indent).take(comment::indent_trees(indent).len() as int)
            == comment::indent_trees(indent),
        comment::line_trees(lines, indent).last() == comment::newline_tree(),
    decreases lines.len(),
{
    let head = lines.drop_last();
    let h = comment::line_trees(head, indent);
    let pad = comment::indent_trees(indent);
    let c = comment::comment_tree(lines.last());
    let all = comment::line_trees(lines, indent);
    let x = a + h + pad;
    lemma_run_lines(a, head, indent);
    lemma_run_indent(a + h, indent);
    assert((a + all).drop_last() =~= x.push(c));
    assert((a + all).last() == comment::newline_tree());
    assert(x.push(c).drop_last() =~= x);
    assert(x.push(c).last() == c);
    assert(!comment::newline_tree().is_token_of(SyntaxKind::COMMENT));
    assert(comment::run_first(a + all) == comment::run_first(x.push(c)));
    if head.len() == 0 {
        assert(h =~= seq![]);
        assert(a + h =~= a);
        assert(comment::trailing_run(x).texts.len() == 0);
        assert(comment::run_first(x.push(c)) == x.len());
        assert(all.take(pad.len() as int) =~= pad);
    } else {
        lemma_first_line(a, head, indent);
        assert(all.take(pad.len() as int) =~= h.take(pad.len() as int));
        assert(comment::trailing_run(x).texts.len() == head.len());
        assert(comment::run_first(x.push(c)) == comment::run_first(x));
        if pad.len() > 0 {
            assert(x.drop_last() =~= a + h);
            assert(x.last() == pad[0]);
            assert(comment::run_first(x) == comment::run_first(a + h));
        } else {
            assert(x =~= a + h);
        }
    }
}

/// To clear a leading comment that was set on a node of a block without one, and
/// that begins its line, gives back the tree. (A node can have no more siblings
/// than can be counted.)
pub proof fn lemma_clearing_undoes_commenting(whole: Tree, path: Seq<usize>, s: Seq<char>)
    requires
        path.len() > 0,
        path::tree_at(whole, path) is Some,
        comment::leading_anchor(whole, path) is None,
        !comment::in_flow_at(whole, path),
        comment::at_line_start(comment::siblings(whole, path), path.last() as int),
        entry::blanks_start(comment::siblings(whole, path), path.last() as int) == path.last(),
        commented_index(whole, path, s) <= usize::MAX,
    ensures
        comment::with_leading(
            comment::with_leading(whole, path, Some(s)),
            commented_path(whole, path, s),
            None,
        ) == whole,
{
    let after = comment::with_leading(whole, path, Some(s));
    let u = path.drop_last();
    let i = path.last() as int;
    assert(path.take(path.len() as int) =~= path);
    lemma_prefix(whole, path, path.len() as int);
    let p = path::tree_at(whole, u)->0;
    let cs = p.children();
    let indent = tree_utils::indent_text(whole, path);
    let lines = text::split_on(s, '\n');
    let new = comment::line_trees(lines, indent);
    let n = i + new.len();
    assert(comment::leading_trees(Some(s), indent, false) =~= new);
    lemma_trivia_bounds(cs, i);
    lemma_lines_say(s, 0);
    lemma_comments_put(cs, i, i, s, indent, false);
    let all = path::spliced(cs, i, i, new);
    assert(after == edit::spliced_at(whole, u, i, i, new));
    path::lemma_replaced_at(whole, u, path::with_children(p, all));
    let b = commented_path(whole, path, s);
    assert(b =~= u.push(n as usize));
    assert(b.drop_last() =~= u);
    assert(comment::siblings(after, b) == all);
    assert(comment::leading_anchor(after, b) == Some(b));
    let from = comment::trivia_start(cs, i);
    let before = cs.subrange(from, i);
    lemma_lines_are_trivia(lines, indent);
    lemma_trivia_joins(cs, i, new, cs.skip(i), new.len() as int);
    assert(all.subrange(from, n) =~= before + new);
    lemma_first_line(before, lines, indent);
    let pad = comment::indent_trees(indent);
    let f = comment::comments_first(all, n);
    assert(f == i + pad.len());
    if pad.len() > 0 {
        assert(all[i] == new.take(pad.len() as int)[0]);
    } else if i > 0 {
        assert(all[i - 1] == cs[i - 1]);
        lemma_blanks(cs, i - 1);
    }
    assert(comment::block_start(all, n) == i);
    assert(all[n - 1] == new.last());
    assert(entry::blanks_start(all, n) == n);
    if i > 0 {
        assert(all[i - 1] == cs[i - 1]);
    }
    assert(comment::cleared_end(all, n) == n);
    assert(path::spliced(all, i, n, seq![]) =~= cs);
    assert(path::with_children(p, cs) == p);
    path::lemma_replaced_twice(whole, u, path::with_children(p, all), p);
    path::lemma_replaced_same(whole, u);
}

/// A path leads through its beginnings.
proof fn lemma_prefix(whole: Tree, path: Seq<usize>, n: int)
    requires
        path::tree_at(whole, path) is Some,
        0 < n <= path.len(),
    ensures
        path::tree_at(whole, path.take(n)) is Some,
        path::tree_at(whole, path.take(n).drop_last()) is Some,
        path.take(n).last() < path::tree_at(whole, path.take(n).drop_last())->0.children().len(),
    decreases path.len(),
{
    if n < path.len() {
        lemma_prefix(whole, path.drop_last(), n);
        assert(path.drop_last().take(n) =~= path.take(n));
    } else {
        assert(path.take(n) =~= path);
    }
}

// ---- Trailing comments ----

/// Up to the end of a line there are whitespace, comments and commas alone.
proof fn lemma_line_end(cs: Seq<Tree>, j: int, comma: bool)
    requires
        0 <= j,
        comment::line_end(cs, j, comma) is Some,
    ensures
        ({
            let nl = comment::line_end(cs, j, comma)->0;
            &&& j <= nl < cs.len()
            &&& cs[nl].is_token_of(SyntaxKind::NEWLINE)
            &&& forall|k: int|
                j <= k < nl ==> (#[trigger] cs[k]).is_token_of(SyntaxKind::COMMA)
                    || comment::blank_or_comment(cs[k])
        }),
    decreases cs.len() - j,
{
    if cs[j].is_token_of(SyntaxKind::NEWLINE) {
    } else if comment::blank_or_comment(cs[j]) {
        lemma_line_end(cs, j + 1, comma);
    } else {
        lemma_line_end(cs, j + 1, true);
    }
}

/// Whitespace and comments begin behind a node.
proof fn lemma_comments_start(cs: Seq<Tree>, i: int, j: int)
    requires
        0 <= i < j <= cs.len(),
        cs[i] is Node,
    ensures
        i < comment::comments_start(cs, j) <= j,
    decreases j,
{
    if comment::blank_or_comment(cs[j - 1]) {
        assert(j - 1 != i);
        lemma_comments_start(cs, i, j - 1);
    }
}

/// The last comment behind whitespace, commas and comments is the one before the
/// line ends.
proof fn lemma_flow_comment(cs: Seq<Tree>, j: int, k: int, found: Option<Seq<char>>)
    requires
        0 <= j <= k,
        k + 1 < cs.len(),
        forall|m: int|
            j <= m < k ==> (#[trigger] cs[m]).is_token_of(SyntaxKind::COMMA)
                || comment::blank_or_comment(cs[m]),
        cs[k].is_token_of(SyntaxKind::COMMENT),
        cs[k + 1].is_token_of(SyntaxKind::NEWLINE),
    ensures
        comment::flow_comment(cs, j, found) == Some(cs[k].text()),
    decreases k - j,
{
    if j < k {
        if cs[j].is_token_of(SyntaxKind::COMMENT) {
            lemma_flow_comment(cs, j + 1, k, Some(cs[j].text()));
        } else {
            lemma_flow_comment(cs, j + 1, k, found);
        }
    } else {
        assert(comment::flow_comment(cs, k + 1, Some(cs[k].text())) == Some(cs[k].text()));
    }
}

/// What ends the trees is where whitespace and comments end.
proof fn lemma_comments_end_is(cs: Seq<Tree>, j: int, e: int)
    requires
        0 <= j <= e <= cs.len(),
        forall|k: int| j <= k < e ==> comment::blank_or_comment(#[trigger] cs[k]),
        e < cs.len() ==> !comment::blank_or_comment(cs[e]),
    ensures
        comment::comments_end(cs, j) == e,
    decreases e - j,
{
    if j < e {
        lemma_comments_end_is(cs, j + 1, e);
    }
}

/// Up to where they end there are whitespace and comments alone.
proof fn lemma_comments_within(cs: Seq<Tree>, j: int)
    requires
        0 <= j <= cs.len(),
    ensures
        ({
            let e = comment::comments_end(cs, j);
            &&& j <= e <= cs.len()
            &&& forall|k: int| j <= k < e ==> comment::blank_or_comment(#[trigger] cs[k])
            &&& e < cs.len() ==> !comment::blank_or_comment(cs[e])
        }),
    decreases cs.len() - j,
{
    if j < cs.len() && comment::blank_or_comment(cs[j]) {
        lemma_comments_within(cs, j + 1);
    }
}

/// The last tree that is no trivia is the one behind which there is only trivia.
proof fn lemma_last_solid_is(cs: Seq<Tree>, l: int)
    requires
        0 <= l < cs.len(),
        !cs[l].is_trivia(),
        forall|k: int| l < k < cs.len() ==> (#[trigger] cs[k]).is_trivia(),
    ensures
        comment::last_solid(cs) == Some(l),
    decreases cs.len(),
{
    if l < cs.len() - 1 {
        lemma_last_solid_is(cs.drop_last(), l);
    }
}

/// Behind the last tree that is no trivia there is only trivia.
proof fn lemma_last_solid_within(cs: Seq<Tree>)
    ensures
        match comment::last_solid(cs) {
            Some(l) => {
                &&& 0 <= l < cs.len()
                &&& !cs[l].is_trivia()
                &&& forall|k: int| l < k < cs.len() ==> (#[trigger] cs[k]).is_trivia()
            },
            None => true,
        },
    decreases cs.len(),
{
    if cs.len() > 0 && cs.last().is_trivia() {
        let head = cs.drop_last();
        lemma_last_solid_within(head);
        if let Some(l) = comment::last_solid(head) {
            assert(cs[l] == head[l]);
            assert forall|k: int| l < k < cs.len() implies (#[trigger] cs[k]).is_trivia() by {
                if k < head.len() {
                    assert(cs[k] == head[k]);
                }
            }
        }
    }
}

/// The first line ends at the first line break.
proof fn lemma_first_line_within(cs: Seq<Tree>, i: int)
    requires
        0 <= i <= cs.len(),
    ensures
        ({
            let e = comment::first_line_end(cs, i);
            &&& i <= e <= cs.len()
            &&& forall|k: int|
                i <= k < e ==> !(#[trigger] cs[k]).is_token_of(SyntaxKind::NEWLINE)
            &&& e < cs.len() ==> cs[e].is_token_of(SyntaxKind::NEWLINE)
        }),
    decreases cs.len() - i,
{
    if i < cs.len() && !cs[i].is_token_of(SyntaxKind::NEWLINE) {
        lemma_first_line_within(cs, i + 1);
    }
}

/// The first line ends at the line break that comes first.
proof fn lemma_first_line_is(cs: Seq<Tree>, i: int, e: int)
    requires
        0 <= i <= e < cs.len(),
        forall|k: int| i <= k < e ==> !(#[trigger] cs[k]).is_token_of(SyntaxKind::NEWLINE),
        cs[e].is_token_of(SyntaxKind::NEWLINE),
    ensures
        comment::first_line_end(cs, i) == e,
    decreases e - i,
{
    if i < e {
        lemma_first_line_is(cs, i + 1, e);
    }
}

/// A comment put behind the child that the trailing comment stands behind is the
/// trailing comment.
#[verifier::rlimit(40)]
proof fn lemma_own_comment_put(cs: Seq<Tree>, s: Seq<char>)
    requires
        comment::trailing_place(cs) is Some,
    ensures
        ({
            let p = comment::trailing_place(cs)->0;
            let new = comment::trailing_trees(Some(s));
            let ds = path::spliced(cs, p + 1, comment::comments_end(cs, p + 1), new);
            comment::own_comment(ds) == Some(comment::comment_tree(s).text())
        }),
{
    let p = comment::trailing_place(cs)->0;
    let new = comment::trailing_trees(Some(s));
    let l = comment::last_solid(cs)->0;
    let nl = comment::first_line_end(cs, 0);
    lemma_last_solid_within(cs);
    lemma_first_line_within(cs, 0);
    let first = cs.take(nl);
    lemma_last_solid_within(first);
    let end = comment::comments_end(cs, p + 1);
    lemma_comments_within(cs, p + 1);
    let ds = path::spliced(cs, p + 1, end, new);
    let q = p + 3;
    assert(ds[p + 1] == new[0]);
    assert(ds[p + 2] == new[1]);
    assert forall|k: int| 0 <= k <= p implies ds[k] == #[trigger] cs[k] by {}
    assert forall|k: int| q <= k < ds.len() implies #[trigger] ds[k] == cs[k - q + end] by {}
    if q < ds.len() {
        assert(ds[q] == cs[end]);
    }
    lemma_comments_end_is(ds, p + 1, q);
    assert(ds[p + 2].is_token_of(SyntaxKind::COMMENT));
    assert(comment::comment_behind(ds, p));
    let shown = ds.subrange(p + 1, q);
    assert(shown.last() == new[1]);
    assert(comment::last_comment(shown) == Some(comment::comment_tree(s).text()));
    if p == l {
        assert forall|k: int| l < k < ds.len() implies (#[trigger] ds[k]).is_trivia() by {
            if k >= q {
                assert(ds[k] == cs[k - q + end]);
            }
        }
        assert(ds[l] == cs[l]);
        lemma_last_solid_is(ds, l);
    } else {
        let h = comment::last_solid(first)->0;
        assert(p == h);
        assert(first[h] == cs[h]);
        assert forall|k: int| h < k < nl implies comment::blank_or_comment(#[trigger] cs[k]) by {
            assert(first[k] == cs[k]);
        }
        if l < nl {
            assert(first[l] == cs[l]);
            assert(h < l);
            assert(first[l].is_trivia());
        }
        assert(nl < cs.len());
        lemma_comments_end_is(cs, h + 1, nl);
        assert(end == nl);
        let m = l - end + q;
        assert(ds[m] == cs[l]);
        assert forall|k: int| m < k < ds.len() implies (#[trigger] ds[k]).is_trivia() by {
            assert(ds[k] == cs[k - q + end]);
        }
        lemma_last_solid_is(ds, m);
        lemma_comments_within(cs, l + 1);
        let f = comment::comments_end(cs, l + 1);
        let g = f - end + q;
        assert forall|k: int| m + 1 <= k < g implies comment::blank_or_comment(#[trigger] ds[k]) by {
            assert(ds[k] == cs[k - q + end]);
        }
        if g < ds.len() {
            assert(ds[g] == cs[f]);
        }
        lemma_comments_end_is(ds, m + 1, g);
        assert(!comment::comment_behind(ds, m)) by {
            if comment::comment_behind(ds, m) {
                let k = choose|k: int|
                    m + 1 <= k < g && (#[trigger] ds[k]).is_token_of(SyntaxKind::COMMENT);
                assert(cs[k - q + end].is_token_of(SyntaxKind::COMMENT));
                assert(comment::comment_behind(cs, l));
            }
        }
        assert forall|k: int| 0 <= k < q implies !(#[trigger] ds[k]).is_token_of(
            SyntaxKind::NEWLINE,
        ) by {
            if k <= p {
                assert(ds[k] == cs[k]);
            }
        }
        lemma_first_line_is(ds, 0, q);
        let line = ds.take(q);
        assert(line[h] == cs[h]);
        assert forall|k: int| h < k < line.len() implies (#[trigger] line[k]).is_trivia() by {
            assert(line[k] == ds[k]);
        }
        lemma_last_solid_is(line, h);
    }
}

/// A trailing comment that was set is read, where the entry holds more than
/// trivia.
pub proof fn lemma_trailing_comment_reads_back(whole: Tree, path: Seq<usize>, s: Seq<char>)
    requires
        path.len() > 0,
        path::tree_at(whole, path) is Some,
        path::tree_at(whole, path)->0 is Node,
        comment::trailing_room(whole, path),
        comment::last_solid(path::tree_at(whole, path)->0.children()) is Some,
    ensures
        comment::trailing_text(comment::with_trailing(whole, path, Some(s)), path) == s,
{
    let after = comment::with_trailing(whole, path, Some(s));
    let new = comment::trailing_trees(Some(s));
    let c = comment::comment_tree(s);
    lemma_comment_says(s);
    lemma_prefix(whole, path, path.len() as int);
    assert(path.take(path.len() as int) =~= path);
    let u = path.drop_last();
    let p = path::tree_at(whole, u)->0;
    let e = path::tree_at(whole, path)->0;
    if !comment::commented_inside(whole, path) {
        let cs = p.children();
        let i = path.last() as int;
        let nl = comment::line_end(cs, i + 1, false)->0;
        lemma_line_end(cs, i + 1, false);
        let at = comment::comments_start(cs, nl);
        lemma_comments_start(cs, i, nl);
        let all = path::spliced(cs, at, nl, new);
        path::lemma_replaced_at(whole, u, path::with_children(p, all));
        assert(all[i] == cs[i]);
        assert(path::tree_at(after, path) == Some(e));
        assert(all[at] == new[0]);
        assert(all[at + 1] == c);
        assert(all[at + 2] == cs[nl]);
        assert forall|m: int| i + 1 <= m < at + 1 implies (#[trigger] all[m]).is_token_of(
            SyntaxKind::COMMA,
        ) || comment::blank_or_comment(all[m]) by {
            if m < at {
                assert(all[m] == cs[m]);
            }
        }
        lemma_flow_comment(all, i + 1, at + 1, None);
    } else {
        let cs = e.children();
        let at = comment::trailing_place(cs)->0;
        let all = path::spliced(cs, at + 1, comment::comments_end(cs, at + 1), new);
        let grown = path::with_children(e, all);
        path::lemma_replaced_at(whole, path, grown);
        lemma_own_comment_put(cs, s);
        assert(comment::own_comment(all) is Some);
    }
}

} // verus!

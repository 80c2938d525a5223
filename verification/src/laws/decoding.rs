//! What scalars on several lines stand for.

use vstd::prelude::*;
use vstd::utf8::*;

use crate::ast::decode;
use crate::ast::decode::{BlockStyle, Chomp, DecodeFault};
use crate::laws::inferring;
use crate::text;

verus! {

// ---- Lines ----

/// Lines with a line feed between each two.
pub open spec fn joined(lines: Seq<Seq<char>>) -> Seq<char>
    decreases lines.len(),
{
    if lines.len() == 0 {
        seq![]
    } else if lines.len() == 1 {
        lines[0]
    } else {
        lines[0] + (seq!['\n'] + joined(lines.skip(1)))
    }
}

/// `n` empty lines.
pub open spec fn empty_lines(n: nat) -> Seq<Seq<char>> {
    Seq::new(n, |i: int| Seq::<char>::empty())
}

/// The lines from `i` on, each with as many empty lines behind it as `gaps` says.
pub open spec fn rows(lines: Seq<Seq<char>>, gaps: Seq<nat>, i: int) -> Seq<Seq<char>>
    decreases lines.len() - i,
{
    if 0 <= i < lines.len() {
        seq![lines[i]] + (empty_lines(gaps[i]) + rows(lines, gaps, i + 1))
    } else {
        seq![]
    }
}

/// Whether lines hold no line feed.
pub open spec fn unbroken_lines(lines: Seq<Seq<char>>) -> bool {
    forall|i: int| 0 <= i < lines.len() ==> !(#[trigger] lines[i]).contains('\n')
}

/// Each line is found up to its line feed.
proof fn lemma_find(s: Seq<char>, i: int, line: Seq<char>)
    requires
        0 <= i,
        i + line.len() <= s.len(),
        forall|j: int| 0 <= j < line.len() ==> s[i + j] == #[trigger] line[j],
        !line.contains('\n'),
        i + line.len() < s.len() ==> s[i + line.len()] == '\n',
    ensures
        text::find_from(s, '\n', i) == i + line.len(),
    decreases line.len(),
{
    if line.len() > 0 {
        assert(line.contains(line[0]));
        let rest = line.skip(1);
        assert(!rest.contains('\n')) by {
            if rest.contains('\n') {
                let k = choose|k: int| 0 <= k < rest.len() && rest[k] == '\n';
                assert(line[k + 1] == '\n');
            }
        }
        assert forall|j: int| 0 <= j < rest.len() implies s[i + 1 + j] == #[trigger] rest[j] by {
            assert(line[j + 1] == rest[j]);
        }
        assert(s[i + 0] == line[0]);
        lemma_find(s, i + 1, rest);
    }
}

/// Lines that were joined behind a text are split again.
proof fn lemma_split_behind(before: Seq<char>, lines: Seq<Seq<char>>)
    requires
        lines.len() > 0,
        unbroken_lines(lines),
    ensures
        text::split_from(before + joined(lines), '\n', before.len() as int) == lines,
    decreases lines.len(),
{
    let s = before + joined(lines);
    let i = before.len() as int;
    let line = lines[0];
    assert(!line.contains('\n'));
    assert forall|j: int| 0 <= j < line.len() implies s[i + j] == #[trigger] line[j] by {}
    lemma_find(s, i, line);
    if lines.len() == 1 {
        assert(s.skip(i) =~= line);
        assert(lines =~= seq![line]);
    } else {
        let more = lines.skip(1);
        assert forall|k: int| 0 <= k < more.len() implies !(#[trigger] more[k]).contains('\n') by {
            assert(more[k] == lines[k + 1]);
        }
        let head = before + line + seq!['\n'];
        lemma_split_behind(head, more);
        assert(s =~= head + joined(more));
        assert(s.subrange(i, i + line.len()) =~= line);
        assert(seq![line] + more =~= lines);
    }
}

/// Lines that were joined are split again.
proof fn lemma_split_joined(lines: Seq<Seq<char>>)
    requires
        lines.len() > 0,
        unbroken_lines(lines),
    ensures
        text::split_on(joined(lines), '\n') == lines,
{
    let none = Seq::<char>::empty();
    lemma_split_behind(none, lines);
    assert(none + joined(lines) =~= joined(lines));
}

/// The rows of lines: their first, and how many there are.
proof fn lemma_rows(lines: Seq<Seq<char>>, gaps: Seq<nat>, i: int)
    requires
        0 <= i < lines.len(),
        gaps.len() == lines.len(),
        unbroken_lines(lines),
    ensures
        rows(lines, gaps, i).len() > 0,
        rows(lines, gaps, i)[0] == lines[i],
        unbroken_lines(rows(lines, gaps, i)),
    decreases lines.len() - i,
{
    let r = rows(lines, gaps, i);
    let rest = rows(lines, gaps, i + 1);
    if i + 1 < lines.len() {
        lemma_rows(lines, gaps, i + 1);
    }
    assert forall|k: int| 0 <= k < r.len() implies !(#[trigger] r[k]).contains('\n') by {
        if k == 0 {
            assert(r[k] == lines[i]);
        } else if k <= gaps[i] {
            assert(r[k] =~= Seq::<char>::empty());
        } else {
            assert(r[k] == rest[k - 1 - gaps[i]]);
        }
    }
}

/// There is a row for each line, the first for the first.
pub(crate) proof fn lemma_rows_len(lines: Seq<Seq<char>>, gaps: Seq<nat>, i: int)
    requires
        0 <= i < lines.len(),
    ensures
        rows(lines, gaps, i).len() > 0,
        rows(lines, gaps, i)[0] == lines[i],
{
}

/// Rows are made line by line.
proof fn lemma_rows_mapped(
    a: Seq<Seq<char>>,
    b: Seq<Seq<char>>,
    gaps: Seq<nat>,
    i: int,
    f: spec_fn(Seq<char>) -> Seq<char>,
)
    requires
        0 <= i <= a.len(),
        a.len() == b.len(),
        gaps.len() == a.len(),
        f(Seq::<char>::empty()) == Seq::<char>::empty(),
        forall|k: int| 0 <= k < a.len() ==> f(#[trigger] a[k]) == b[k],
    ensures
        rows(b, gaps, i) == Seq::new(
            rows(a, gaps, i).len(),
            |k: int| f(rows(a, gaps, i)[k]),
        ),
    decreases a.len() - i,
{
    let r = rows(a, gaps, i);
    let q = rows(b, gaps, i);
    if i < a.len() {
        lemma_rows_mapped(a, b, gaps, i + 1, f);
        let rest = rows(a, gaps, i + 1);
        let more = rows(b, gaps, i + 1);
        assert(q.len() == r.len());
        assert forall|k: int| 0 <= k < r.len() implies q[k] == f(#[trigger] r[k]) by {
            if k == 0 {
                assert(r[k] == a[i]);
            } else if k <= gaps[i] {
                assert(r[k] =~= Seq::<char>::empty());
                assert(q[k] =~= Seq::<char>::empty());
            } else {
                assert(r[k] == rest[k - 1 - gaps[i]]);
                assert(q[k] == more[k - 1 - gaps[i]]);
            }
        }
    }
    assert(q =~= Seq::new(r.len(), |k: int| f(r[k])));
}

/// A run of empty lines ends behind them.
proof fn lemma_blank_run_to(lines: Seq<Seq<char>>, i: int, j: int)
    requires
        0 <= i <= j <= lines.len(),
        forall|k: int| i <= k < j ==> (#[trigger] lines[k]).len() == 0,
        j < lines.len() ==> lines[j].len() > 0,
    ensures
        decode::blank_run(lines, i) == j,
    decreases j - i,
{
    if i < j {
        assert(lines[i].len() == 0);
        lemma_blank_run_to(lines, i + 1, j);
    }
}

// ---- Blanks ----

/// Whether a text is spaces and tabs.
pub open spec fn is_blank_text(s: Seq<char>) -> bool {
    forall|i: int| 0 <= i < s.len() ==> #[trigger] s[i] == ' ' || s[i] == '\t'
}

/// Whether a text has content, and no blank at either end.
pub open spec fn is_content(s: Seq<char>) -> bool {
    &&& s.len() > 0
    &&& s[0] != ' ' && s[0] != '\t'
    &&& s.last() != ' ' && s.last() != '\t'
}

/// The blanks before a text go.
proof fn lemma_trim_start(a: Seq<char>, s: Seq<char>)
    requires
        is_blank_text(a),
        s.len() > 0 ==> !decode::is_blank_char(s[0]),
    ensures
        decode::trim_start(a + s) == s,
    decreases a.len(),
{
    if a.len() > 0 {
        let t = a.skip(1);
        assert((a + s)[0] == a[0]);
        assert((a + s).drop_first() =~= t + s);
        assert forall|i: int| 0 <= i < t.len() implies #[trigger] t[i] == ' ' || t[i] == '\t' by {
            assert(t[i] == a[i + 1]);
        }
        lemma_trim_start(t, s);
    } else {
        assert(a + s =~= s);
    }
}

/// The blanks behind a text go.
proof fn lemma_trim_tail(s: Seq<char>, b: Seq<char>)
    requires
        is_blank_text(b),
        s.len() > 0 ==> !decode::is_blank_char(s.last()),
    ensures
        decode::trim_tail(s + b) == s,
    decreases b.len(),
{
    if b.len() > 0 {
        let t = b.drop_last();
        assert((s + b).last() == b.last());
        assert((s + b).drop_last() =~= s + t);
        assert forall|i: int| 0 <= i < t.len() implies #[trigger] t[i] == ' ' || t[i] == '\t' by {
            assert(t[i] == b[i]);
        }
        lemma_trim_tail(s, t);
    } else {
        assert(s + b =~= s);
    }
}

// ---- Scalars whose lines are folded ----

/// What stands between two lines with `n` empty lines between them: a space for
/// none, else as many line feeds.
pub open spec fn between(n: nat) -> Seq<char> {
    if n == 0 {
        seq![' ']
    } else {
        text::newlines(n as int)
    }
}

/// The lines from `i` on with what stands between them.
pub open spec fn flowing(lines: Seq<Seq<char>>, gaps: Seq<nat>, i: int) -> Seq<char>
    decreases lines.len() - i,
{
    if 0 <= i < lines.len() - 1 {
        lines[i] + (between(gaps[i]) + flowing(lines, gaps, i + 1))
    } else if i == lines.len() - 1 {
        lines[i]
    } else {
        seq![]
    }
}

/// Lines folded behind others.
proof fn lemma_fold_behind(
    before: Seq<Seq<char>>,
    lines: Seq<Seq<char>>,
    gaps: Seq<nat>,
    i: int,
)
    requires
        0 <= i < lines.len(),
        gaps.len() == lines.len(),
        before.len() > 0,
        forall|k: int| 0 <= k < lines.len() ==> (#[trigger] lines[k]).len() > 0,
        unbroken_lines(lines),
    ensures
        lines[i] + decode::fold_rest(before + rows(lines, gaps, i), before.len() as int + 1) == flowing(
            lines,
            gaps,
            i,
        ),
    decreases lines.len() - i,
{
    let all = before + rows(lines, gaps, i);
    let rest = rows(lines, gaps, i + 1);
    let n = before.len() as int;
    let g = gaps[i] as int;
    let head = before + seq![lines[i]] + empty_lines(gaps[i]);
    assert(all =~= head + rest);
    assert forall|k: int| n + 1 <= k < n + 1 + g implies (#[trigger] all[k]).len() == 0 by {
        assert(all[k] == empty_lines(gaps[i])[k - n - 1]);
    }
    if i + 1 < lines.len() {
        lemma_rows(lines, gaps, i + 1);
        assert(all[n + 1 + g] == rest[0]);
        lemma_blank_run_to(all, n + 1, n + 1 + g);
        lemma_fold_behind(head, lines, gaps, i + 1);
        assert(head.len() == n + 1 + g);
        assert(decode::fold_rest(all, n + 1) == decode::fold_separator(g) + lines[i + 1]
            + decode::fold_rest(all, n + 1 + g + 1));
        assert(decode::fold_separator(g) =~= between(gaps[i]));
        assert(lines[i] + (decode::fold_separator(g) + lines[i + 1] + decode::fold_rest(
            all,
            n + 1 + g + 1,
        )) =~= lines[i] + (between(gaps[i]) + flowing(lines, gaps, i + 1)));
    } else {
        assert(rest =~= seq![]);
        lemma_blank_run_to(all, n + 1, n + 1 + g);
        assert(decode::fold_rest(all, n + 1) == Seq::<char>::empty());
        assert(lines[i] + Seq::<char>::empty() =~= lines[i]);
    }
}

/// The text of a scalar on several lines, each with blanks around it, and with empty
/// lines between them, stands for the lines without the blanks: a space between two
/// of them, or as many line feeds as there are empty lines. Empty lines behind the
/// last are dropped.
pub proof fn lemma_lines_are_folded(
    lines: Seq<Seq<char>>,
    gaps: Seq<nat>,
    heads: Seq<Seq<char>>,
    tails: Seq<Seq<char>>,
)
    requires
        lines.len() > 0,
        gaps.len() == lines.len(),
        heads.len() == lines.len(),
        tails.len() == lines.len(),
        unbroken_lines(lines),
        forall|i: int|
            0 <= i < lines.len() ==> is_content(#[trigger] lines[i]) && is_blank_text(heads[i])
                && is_blank_text(tails[i]),
    ensures
        decode::folded_text(
            joined(
                rows(
                    Seq::new(lines.len(), |i: int| heads[i] + lines[i] + tails[i]),
                    gaps,
                    0,
                ),
            ),
        ) == flowing(lines, gaps, 0),
{
    let raw = Seq::new(lines.len(), |i: int| heads[i] + lines[i] + tails[i]);
    let f = |s: Seq<char>| decode::trimmed(s);
    assert forall|i: int| 0 <= i < raw.len() implies !(#[trigger] raw[i]).contains('\n') && f(
        raw[i],
    ) == lines[i] by {
        assert(is_content(lines[i]));
        assert(raw[i] =~= heads[i] + (lines[i] + tails[i]));
        lemma_trim_start(heads[i], lines[i] + tails[i]);
        lemma_trim_tail(lines[i], tails[i]);
        if raw[i].contains('\n') {
            let k = choose|k: int| 0 <= k < raw[i].len() && raw[i][k] == '\n';
            if k < heads[i].len() {
                assert(heads[i][k] == '\n');
            } else if k < heads[i].len() + lines[i].len() {
                assert(lines[i].contains(lines[i][k - heads[i].len()]));
            } else {
                assert(tails[i][k - heads[i].len() - lines[i].len()] == '\n');
            }
        }
    }
    let all = rows(raw, gaps, 0);
    lemma_rows(raw, gaps, 0);
    lemma_split_joined(all);
    assert(f(Seq::<char>::empty()) =~= Seq::<char>::empty());
    lemma_rows_mapped(raw, lines, gaps, 0, f);
    let r = rows(lines, gaps, 0);
    assert(decode::trimmed_lines(all) =~= r);
    lemma_rows(lines, gaps, 0);
    lemma_blank_run_to(r, 0, 0);
    // A line before the first, so that each has one.
    let pad = seq![seq!['.']];
    assert forall|k: int| 0 <= k < lines.len() implies (#[trigger] lines[k]).len() > 0 by {
        assert(is_content(lines[k]));
    }
    lemma_fold_behind(pad, lines, gaps, 0);
    lemma_fold_shift(pad, r, 1);
}

/// Lines are folded alike behind others.
proof fn lemma_fold_shift(before: Seq<Seq<char>>, lines: Seq<Seq<char>>, i: int)
    requires
        0 <= i,
    ensures
        decode::fold_rest(before + lines, before.len() + i) == decode::fold_rest(lines, i),
    decreases lines.len() - i,
{
    let e = decode::blank_run(lines, i);
    decode::lemma_blank_run(lines, i);
    lemma_blank_shift(before, lines, i);
    if e < lines.len() {
        lemma_fold_shift(before, lines, e + 1);
        assert((before + lines)[before.len() + e] == lines[e]);
    }
}

/// A run of empty lines ends alike behind others.
proof fn lemma_blank_shift(before: Seq<Seq<char>>, lines: Seq<Seq<char>>, i: int)
    requires
        0 <= i,
    ensures
        decode::blank_run(before + lines, before.len() + i) == before.len() + decode::blank_run(
            lines,
            i,
        ),
    decreases lines.len() - i,
{
    if i < lines.len() {
        assert((before + lines)[before.len() + i] == lines[i]);
        if lines[i].len() == 0 {
            lemma_blank_shift(before, lines, i + 1);
        }
    }
}

// ---- Block scalars ----

/// The mark for what becomes of the line feeds at the end.
pub open spec fn chomp_mark(chomp: Chomp) -> Seq<char> {
    match chomp {
        Chomp::Strip => seq!['-'],
        Chomp::Clip => seq![],
        Chomp::Keep => seq!['+'],
    }
}

/// The digit for an indentation that is shown.
pub open spec fn indent_mark(n: int, shown: bool) -> Seq<char> {
    if shown {
        seq![('0' as int + n) as char]
    } else {
        seq![]
    }
}

/// A line indented by `n`; an empty one stays empty.
pub open spec fn indented(line: Seq<char>, n: int) -> Seq<char> {
    if line.len() == 0 {
        line
    } else {
        text::spaces(n) + line
    }
}

/// Each line indented by `n`.
pub open spec fn all_indented(lines: Seq<Seq<char>>, n: int) -> Seq<Seq<char>> {
    Seq::new(lines.len(), |i: int| indented(lines[i], n))
}

/// A block scalar: its mark, the marks of its header, and its lines, indented by
/// `n`, with empty lines between and behind them.
pub open spec fn block_text(
    mark: char,
    n: int,
    shown: bool,
    chomp: Chomp,
    lines: Seq<Seq<char>>,
    gaps: Seq<nat>,
) -> Seq<char> {
    seq![mark] + indent_mark(n, shown) + chomp_mark(chomp) + seq!['\n'] + joined(
        rows(all_indented(lines, n), gaps, 0),
    )
}

/// The lines from `i` on with a line feed behind each but the last, and one for each
/// empty line between them.
pub open spec fn verbatim(lines: Seq<Seq<char>>, gaps: Seq<nat>, i: int) -> Seq<char>
    decreases lines.len() - i,
{
    if 0 <= i < lines.len() - 1 {
        lines[i] + (text::newlines(gaps[i] as int + 1) + verbatim(lines, gaps, i + 1))
    } else if i == lines.len() - 1 {
        lines[i]
    } else {
        seq![]
    }
}

/// What stands between two lines of a folded scalar: a line feed for each empty line
/// between them; else a space, or a line feed beside a line that begins with a
/// blank.
pub open spec fn between_folded(a: Seq<char>, n: nat, b: Seq<char>) -> Seq<char> {
    if n > 0 {
        text::newlines(n as int)
    } else if a[0] == ' ' || a[0] == '\t' || b[0] == ' ' || b[0] == '\t' {
        seq!['\n']
    } else {
        seq![' ']
    }
}

/// The lines from `i` on with what stands between them in a folded scalar.
pub open spec fn folding(lines: Seq<Seq<char>>, gaps: Seq<nat>, i: int) -> Seq<char>
    decreases lines.len() - i,
{
    if 0 <= i < lines.len() - 1 {
        lines[i] + (between_folded(lines[i], gaps[i], lines[i + 1]) + folding(lines, gaps, i + 1))
    } else if i == lines.len() - 1 {
        lines[i]
    } else {
        seq![]
    }
}

/// A text with the line feeds that are left of those at its end, `n` of them.
pub open spec fn ended(s: Seq<char>, n: nat, chomp: Chomp) -> Seq<char> {
    match chomp {
        Chomp::Strip => s,
        Chomp::Clip => s.push('\n'),
        Chomp::Keep => s + text::newlines(n as int),
    }
}

/// The line feeds at the end of a text are those behind its last line.
proof fn lemma_strip(s: Seq<char>, n: nat)
    requires
        s.len() > 0,
        s.last() != '\n',
    ensures
        decode::strip_newlines(s + text::newlines(n as int)) == s,
    decreases n,
{
    let t = s + text::newlines(n as int);
    if n > 0 {
        lemma_strip(s, (n - 1) as nat);
        assert(t.last() == '\n');
        assert(t.drop_last() =~= s + text::newlines(n - 1));
    } else {
        assert(t =~= s);
    }
}

/// What is left at the end.
proof fn lemma_ended(s: Seq<char>, n: nat, chomp: Chomp)
    requires
        s.len() > 0,
        s.last() != '\n',
    ensures
        decode::chomped(s + text::newlines(n as int), chomp) == ended(s, n, chomp),
{
    lemma_strip(s, n);
}

/// Empty lines one behind another are line feeds.
proof fn lemma_literal_gap(all: Seq<Seq<char>>, i: int, j: int)
    requires
        0 <= i <= j <= all.len(),
        forall|k: int| i <= k < j ==> (#[trigger] all[k]).len() == 0,
    ensures
        decode::literal_rest(all, i) == text::newlines(j - i) + decode::literal_rest(all, j),
    decreases j - i,
{
    if i < j {
        lemma_literal_gap(all, i + 1, j);
        assert(all[i] =~= Seq::<char>::empty());
        assert(seq!['\n'] + all[i] + (text::newlines(j - i - 1) + decode::literal_rest(all, j))
            =~= text::newlines(j - i) + decode::literal_rest(all, j));
    } else {
        assert(text::newlines(0) + decode::literal_rest(all, j) =~= decode::literal_rest(all, j));
    }
}

/// The lines of a literal scalar, behind others.
proof fn lemma_literal_behind(
    before: Seq<Seq<char>>,
    lines: Seq<Seq<char>>,
    gaps: Seq<nat>,
    i: int,
)
    requires
        0 <= i < lines.len(),
        gaps.len() == lines.len(),
        unbroken_lines(lines),
    ensures
        lines[i] + decode::literal_rest(before + rows(lines, gaps, i), before.len() as int + 1)
            == verbatim(lines, gaps, i) + text::newlines(gaps.last() as int),
    decreases lines.len() - i,
{
    let all = before + rows(lines, gaps, i);
    let rest = rows(lines, gaps, i + 1);
    let n = before.len() as int;
    let g = gaps[i] as int;
    let head = before + seq![lines[i]] + empty_lines(gaps[i]);
    assert(all =~= head + rest);
    assert forall|k: int| n + 1 <= k < n + 1 + g implies (#[trigger] all[k]).len() == 0 by {
        assert(all[k] == empty_lines(gaps[i])[k - n - 1]);
    }
    lemma_literal_gap(all, n + 1, n + 1 + g);
    if i + 1 < lines.len() {
        lemma_rows(lines, gaps, i + 1);
        assert(all[n + 1 + g] == rest[0]);
        lemma_literal_behind(head, lines, gaps, i + 1);
        assert(head.len() == n + 1 + g);
        let tail = decode::literal_rest(all, n + 1 + g + 1);
        let end = text::newlines(gaps.last() as int);
        assert(decode::literal_rest(all, n + 1 + g) == seq!['\n'] + lines[i + 1] + tail);
        assert(lines[i] + (text::newlines(g) + (seq!['\n'] + lines[i + 1] + tail)) =~= lines[i] + (
        text::newlines(g + 1) + (lines[i + 1] + tail)));
        assert(lines[i] + (text::newlines(g + 1) + (verbatim(lines, gaps, i + 1) + end))
            =~= lines[i] + (text::newlines(g + 1) + verbatim(lines, gaps, i + 1)) + end);
    } else {
        assert(rest =~= seq![]);
        assert(decode::literal_rest(all, n + 1 + g) =~= seq![]);
        assert(text::newlines(g) + Seq::<char>::empty() =~= text::newlines(g));
    }
}

/// The lines of a folded scalar, behind others.
proof fn lemma_folded_behind(
    before: Seq<Seq<char>>,
    lines: Seq<Seq<char>>,
    gaps: Seq<nat>,
    i: int,
)
    requires
        0 <= i < lines.len(),
        gaps.len() == lines.len(),
        unbroken_lines(lines),
        forall|k: int| 0 <= k < lines.len() ==> (#[trigger] lines[k]).len() > 0,
    ensures
        lines[i] + decode::block_fold_rest(before + rows(lines, gaps, i), before.len() as int + 1)
            == folding(lines, gaps, i) + text::newlines(gaps.last() as int),
    decreases lines.len() - i,
{
    let all = before + rows(lines, gaps, i);
    let rest = rows(lines, gaps, i + 1);
    let n = before.len() as int;
    let g = gaps[i] as int;
    let head = before + seq![lines[i]] + empty_lines(gaps[i]);
    assert(all =~= head + rest);
    assert(all[n] == lines[i]);
    assert forall|k: int| n + 1 <= k < n + 1 + g implies (#[trigger] all[k]).len() == 0 by {
        assert(all[k] == empty_lines(gaps[i])[k - n - 1]);
    }
    if i + 1 < lines.len() {
        lemma_rows(lines, gaps, i + 1);
        assert(all[n + 1 + g] == rest[0]);
        lemma_blank_run_to(all, n + 1, n + 1 + g);
        lemma_folded_behind(head, lines, gaps, i + 1);
        assert(head.len() == n + 1 + g);
        let tail = decode::block_fold_rest(all, n + 1 + g + 1);
        let end = text::newlines(gaps.last() as int);
        let sep = between_folded(lines[i], gaps[i], lines[i + 1]);
        assert(lines[i + 1].len() > 0);
        assert(decode::block_fold_rest(all, n + 1) == sep + lines[i + 1] + tail);
        assert(lines[i] + (sep + lines[i + 1] + tail) =~= lines[i] + (sep + (lines[i + 1] + tail)));
        assert(lines[i] + (sep + (folding(lines, gaps, i + 1) + end)) =~= lines[i] + (sep
            + folding(lines, gaps, i + 1)) + end);
    } else {
        assert(rest =~= seq![]);
        lemma_blank_run_to(all, n + 1, n + 1 + g);
        if g == 0 {
            assert(decode::block_fold_rest(all, n + 1) =~= text::newlines(0));
        }
    }
}

/// Spaces before a line.
proof fn lemma_leading(n: int, line: Seq<char>)
    requires
        n >= 0,
    ensures
        decode::leading_spaces(text::spaces(n) + line) == n + decode::leading_spaces(line),
        (text::spaces(n) + line).skip(n) == line,
        0 <= decode::leading_spaces(line) <= line.len(),
    decreases n + line.len(),
{
    let t = text::spaces(n) + line;
    if n > 0 {
        lemma_leading(n - 1, line);
        assert(t[0] == ' ');
        assert(t.drop_first() =~= text::spaces(n - 1) + line);
    } else {
        assert(t =~= line);
        if line.len() > 0 {
            lemma_leading(0, line.drop_first());
        }
    }
    assert(t.skip(n) =~= line);
}

/// Indented lines without their indentation are the lines.
proof fn lemma_stripped_lines(lines: Seq<Seq<char>>, gaps: Seq<nat>, n: int)
    requires
        gaps.len() == lines.len(),
        n >= 0,
    ensures
        decode::strip_lines(rows(all_indented(lines, n), gaps, 0), n) == rows(lines, gaps, 0),
{
    let f = |s: Seq<char>| decode::strip_indent(s, n);
    let raw = all_indented(lines, n);
    let none = Seq::<char>::empty();
    assert(f(none) =~= none);
    assert forall|k: int| 0 <= k < raw.len() implies f(#[trigger] raw[k]) == lines[k] by {
        lemma_leading(n, lines[k]);
        if lines[k].len() == 0 {
            assert(f(raw[k]) =~= lines[k]);
        }
    }
    lemma_rows_mapped(raw, lines, gaps, 0, f);
    assert(decode::strip_lines(rows(raw, gaps, 0), n) =~= rows(lines, gaps, 0));
}

/// The header of a block scalar, and where its lines begin.
pub(crate) proof fn lemma_header(
    mark: char,
    n: int,
    shown: bool,
    chomp: Chomp,
    body: Seq<char>,
)
    requires
        shown ==> 1 <= n <= 9,
    ensures
        ({
            let raw = seq![mark] + indent_mark(n, shown) + chomp_mark(chomp) + seq!['\n'] + body;
            let h = decode::block_header(raw);
            &&& h.chomp == chomp
            &&& h.indent == if shown {
                Some(n)
            } else {
                None
            }
            &&& raw.len() > 0
            &&& raw[0] == mark
            &&& raw.skip(decode::block_body_start(raw)) == body
            &&& decode::line_end_from(raw, h.end) < raw.len()
        }),
{
    let head = seq![mark] + indent_mark(n, shown) + chomp_mark(chomp);
    let raw = head + seq!['\n'] + body;
    let e = head.len() as int;
    assert(raw[e] == '\n');
    assert(raw[0] == mark);
    if shown {
        assert(raw[1] == ('0' as int + n) as char);
    }
    if !(chomp is Clip) {
        assert(raw[e - 1] == chomp_mark(chomp)[0]);
    }
    assert(decode::block_header(raw).end == e);
    assert(decode::line_end_from(raw, e) == e);
    assert(raw.skip(e + 1) =~= body);
}

/// A block scalar stands for its lines without their indentation: as they are, where
/// it is literal; where it is folded, with a space between two of them, or as many
/// line feeds as there are empty lines, and with line feeds around lines that begin
/// with a blank. At its end are no line feeds, one or all, as its header says. The
/// indentation is the one that the header shows, or that of the first line.
pub proof fn lemma_block_scalar_value(
    mark: char,
    style: BlockStyle,
    n: int,
    shown: bool,
    chomp: Chomp,
    lines: Seq<Seq<char>>,
    gaps: Seq<nat>,
)
    requires
        mark == '|' || mark == '>',
        n >= 0,
        shown ==> 1 <= n <= 9,
        lines.len() > 0,
        gaps.len() == lines.len(),
        unbroken_lines(lines),
        forall|i: int| 0 <= i < lines.len() ==> (#[trigger] lines[i]).len() > 0,
        !shown ==> lines[0][0] != ' ',
    ensures
        decode::block_value(block_text(mark, n, shown, chomp, lines, gaps), style) == Ok::<
            Seq<char>,
            DecodeFault,
        >(
            ended(
                match style {
                    BlockStyle::Literal => verbatim(lines, gaps, 0),
                    BlockStyle::Folded => folding(lines, gaps, 0),
                },
                gaps.last(),
                chomp,
            ),
        ),
{
    let raw_lines = all_indented(lines, n);
    let all = rows(raw_lines, gaps, 0);
    let body = joined(all);
    lemma_header(mark, n, shown, chomp, body);
    assert forall|i: int| 0 <= i < raw_lines.len() implies !(#[trigger] raw_lines[i]).contains(
        '\n',
    ) by {
        if raw_lines[i].contains('\n') {
            let k = choose|k: int| 0 <= k < raw_lines[i].len() && raw_lines[i][k] == '\n';
            assert(lines[i].contains(lines[i][k - n]));
        }
    }
    lemma_rows(raw_lines, gaps, 0);
    lemma_split_joined(all);
    assert(lines[0].len() > 0);
    lemma_leading(n, lines[0]);
    assert(all[0] == text::spaces(n) + lines[0]);
    if !shown {
        assert(decode::leading_spaces(lines[0]) == 0);
        assert(decode::indent_from(all, 0) == n);
    }
    lemma_stripped_lines(lines, gaps, n);
    let r = rows(lines, gaps, 0);
    lemma_rows(lines, gaps, 0);
    let none = Seq::<Seq<char>>::empty();
    assert(none + r =~= r);
    lemma_literal_behind(none, lines, gaps, 0);
    assert(decode::literal_text(r) == lines[0] + decode::literal_rest(r, 1));
    lemma_blank_run_to(r, 0, 0);
    lemma_folded_behind(none, lines, gaps, 0);
    assert(decode::block_folded_text(r) =~= lines[0] + decode::block_fold_rest(r, 1));
    lemma_last(lines, gaps, 0);
    lemma_ended(verbatim(lines, gaps, 0), gaps.last(), chomp);
    lemma_ended(folding(lines, gaps, 0), gaps.last(), chomp);
    assert(body.len() > 0) by {
        if all.len() > 1 {
            assert(body.len() >= all[0].len());
        }
    }
}

/// What lines end with.
proof fn lemma_last(lines: Seq<Seq<char>>, gaps: Seq<nat>, i: int)
    requires
        0 <= i < lines.len(),
        gaps.len() == lines.len(),
        unbroken_lines(lines),
        forall|k: int| 0 <= k < lines.len() ==> (#[trigger] lines[k]).len() > 0,
    ensures
        verbatim(lines, gaps, i).len() > 0,
        verbatim(lines, gaps, i).last() != '\n',
        folding(lines, gaps, i).len() > 0,
        folding(lines, gaps, i).last() != '\n',
    decreases lines.len() - i,
{
    if i + 1 < lines.len() {
        lemma_last(lines, gaps, i + 1);
    } else {
        assert(lines[i].contains(lines[i].last()));
    }
}

// ---- Escapes ----

/// The character that a letter stands for behind a backslash.
pub open spec fn named_char(c: char) -> Option<char> {
    if c == '0' {
        Some('\0')
    } else if c == 'a' {
        Some('\x07')
    } else if c == 'b' {
        Some('\x08')
    } else if c == 't' || c == '\t' {
        Some('\t')
    } else if c == 'n' {
        Some('\n')
    } else if c == 'v' {
        Some('\x0B')
    } else if c == 'f' {
        Some('\x0C')
    } else if c == 'r' {
        Some('\r')
    } else if c == 'e' {
        Some('\x1B')
    } else if c == ' ' || c == '"' || c == '/' || c == '\\' {
        Some(c)
    } else if c == 'N' {
        Some('\u{85}')
    } else if c == '_' {
        Some('\u{A0}')
    } else if c == 'L' {
        Some('\u{2028}')
    } else if c == 'P' {
        Some('\u{2029}')
    } else {
        None
    }
}

/// An ASCII character is below those that are none.
proof fn lemma_low(c: char)
    requires
        (c as u32) < 0x80,
    ensures
        '\0' <= c <= '\u{7f}',
{
}

/// A text of ASCII characters between double quotes.
proof fn lemma_ascii_in_quotes(t: Seq<char>)
    requires
        forall|i: int| 0 <= i < t.len() ==> (#[trigger] t[i] as u32) < 0x80,
    ensures
        decode::double_quoted_value(encode_utf8(seq!['"'] + t + seq!['"']))
            == decode::double_quoted_from(Seq::new(t.len(), |i: int| t[i] as u8), 0, 0),
        encode_utf8(t) == Seq::new(t.len(), |i: int| t[i] as u8),
{
    let w = seq!['"'] + t + seq!['"'];
    assert forall|i: int| 0 <= i < w.len() implies '\0' <= #[trigger] w[i] <= '\u{7f}' by {
        if 0 < i < w.len() - 1 {
            assert(w[i] == t[i - 1]);
            lemma_low(t[i - 1]);
        }
    }
    assert forall|i: int| 0 <= i < t.len() implies '\0' <= #[trigger] t[i] <= '\u{7f}' by {
        lemma_low(t[i]);
    }
    assert(is_ascii_chars(w));
    assert(is_ascii_chars(t));
    is_ascii_chars_encode_utf8(w);
    is_ascii_chars_encode_utf8(t);
    let raw = encode_utf8(w);
    let b = Seq::new(t.len(), |i: int| t[i] as u8);
    assert(raw.len() == w.len());
    assert forall|i: int| 0 <= i < raw.len() implies #[trigger] raw[i] == w[i] as u8 by {}
    assert(raw.subrange(1, raw.len() - 1) =~= b);
    assert(encode_utf8(t) =~= b);
    assert(w[0] == '"' && w.last() == '"');
    assert(raw.last() == w.last() as u8);
}

/// A backslash and one character in double quotes stand for the character that this
/// names, or are an error, unless the character begins a number or ends the line.
pub proof fn lemma_named_escapes(c: char)
    requires
        (c as u32) < 0x80,
        c != 'x' && c != 'u' && c != 'U' && c != '\n',
    ensures
        decode::double_quoted_value(encode_utf8(seq!['"', '\\', c, '"'])) == match named_char(c) {
            Some(d) => Ok::<Seq<char>, DecodeFault>(seq![d]),
            None => Err(DecodeFault::InvalidEscape { at: 0, text: seq!['\\', c] }),
        },
{
    let t = seq!['\\', c];
    lemma_ascii_in_quotes(t);
    assert(seq!['"'] + t + seq!['"'] =~= seq!['"', '\\', c, '"']);
    let b = Seq::new(t.len(), |i: int| t[i] as u8);
    assert(b[0] == 0x5c && b[1] == c as u8);
    lemma_letter(c);
    assert(decode::double_quoted_from(b, 2, 0) == Ok::<Seq<char>, DecodeFault>(seq![]));
    if let Some(d) = named_char(c) {
        assert(decode::fold_breaks(0) + seq![d] + Seq::<char>::empty() =~= seq![d]);
    } else {
        assert(c as u8 as char == c);
    }
}

/// The byte of a character that may be escaped.
proof fn lemma_letter(c: char)
    requires
        (c as u32) < 0x80,
    ensures
        decode::plain_escape(c as u8) == named_char(c),
        (c as u8 == 0x78) == (c == 'x'),
        (c as u8 == 0x75) == (c == 'u'),
        (c as u8 == 0x55) == (c == 'U'),
        (c as u8 == 0x0a) == (c == '\n'),
{
}

/// The last `n` hexadecimal digits of a number.
pub open spec fn hex_text(v: nat, n: nat, capitals: bool) -> Seq<char>
    decreases n,
{
    if n == 0 {
        seq![]
    } else {
        hex_text(v / 16, (n - 1) as nat, capitals).push(
            inferring::digit_for((v % 16) as int, capitals),
        )
    }
}

/// `n` hexadecimal digits hold numbers below this one.
pub open spec fn hex_bound(n: nat) -> nat
    decreases n,
{
    if n == 0 {
        1
    } else {
        16 * hex_bound((n - 1) as nat)
    }
}

/// The digits of a number are read as the number.
proof fn lemma_hex_text(v: nat, n: nat, capitals: bool)
    requires
        v < hex_bound(n),
    ensures
        ({
            let t = hex_text(v, n, capitals);
            &&& t.len() == n
            &&& forall|i: int| 0 <= i < t.len() ==> (#[trigger] t[i] as u32) < 0x80
            &&& decode::hex_digits_value(Seq::new(t.len(), |i: int| t[i] as u8)) == Some(v as int)
        }),
    decreases n,
{
    let t = hex_text(v, n, capitals);
    let b = Seq::new(t.len(), |i: int| t[i] as u8);
    if n > 0 {
        let u = hex_text(v / 16, (n - 1) as nat, capitals);
        lemma_hex_text(v / 16, (n - 1) as nat, capitals);
        let d = inferring::digit_for((v % 16) as int, capitals);
        lemma_digit((v % 16) as int, capitals);
        assert(b.drop_last() =~= Seq::new(u.len(), |i: int| u[i] as u8));
        assert(b.last() == d as u8);
        assert forall|i: int| 0 <= i < t.len() implies (#[trigger] t[i] as u32) < 0x80 by {
            if i < n - 1 {
                assert(t[i] == u[i]);
            }
        }
    } else {
        assert(b =~= seq![]);
    }
}

/// A hexadecimal digit is read as its number.
proof fn lemma_digit(n: int, capitals: bool)
    requires
        0 <= n < 16,
    ensures
        (inferring::digit_for(n, capitals) as u32) < 0x80,
        decode::hex_digit(inferring::digit_for(n, capitals) as u8) == Some(n),
{
}

/// A backslash and `x`, `u` or `U`, and two, four or eight hexadecimal digits in
/// double quotes stand for the character of that number.
pub proof fn lemma_numeric_escapes(c: char, n: nat, capitals: bool)
    requires
        n == 2 || n == 4 || n == 8,
        (c as u32) < hex_bound(n),
    ensures
        ({
            let letter = if n == 2 {
                'x'
            } else if n == 4 {
                'u'
            } else {
                'U'
            };
            decode::double_quoted_value(
                encode_utf8(
                    seq!['"'] + (seq!['\\', letter] + hex_text(c as nat, n, capitals)) + seq!['"'],
                ),
            ) == Ok::<Seq<char>, DecodeFault>(seq![c])
        }),
{
    let letter = if n == 2 {
        'x'
    } else if n == 4 {
        'u'
    } else {
        'U'
    };
    let h = hex_text(c as nat, n, capitals);
    let t = seq!['\\', letter] + h;
    lemma_hex_text(c as nat, n, capitals);
    assert forall|i: int| 0 <= i < t.len() implies (#[trigger] t[i] as u32) < 0x80 by {
        if i >= 2 {
            assert(t[i] == h[i - 2]);
        }
    }
    lemma_ascii_in_quotes(t);
    let b = Seq::new(t.len(), |i: int| t[i] as u8);
    lemma_letter(letter);
    assert(b[0] == 0x5c && b[1] == letter as u8);
    assert(b.subrange(2, 2 + n as int) =~= Seq::new(h.len(), |i: int| h[i] as u8));
    assert(b.len() == 2 + n);
    assert(is_char_boundary(b, 2 + n as int)) by {
        encode_utf8_valid_utf8(t);
        is_char_boundary_start_end_of_seq(b);
    }
    assert(decode::names_char(c as int));
    assert(decode::escape_at(b, 0) == Ok::<(char, int), DecodeFault>((c, n as int + 2)));
    assert(decode::double_quoted_from(b, n as int + 2, 0) == Ok::<Seq<char>, DecodeFault>(seq![]));
    assert(decode::fold_breaks(0) + seq![c] + Seq::<char>::empty() =~= seq![c]);
}

} // verus!

//! Trimming the ends of lines leaves nothing to trim, and counts what it does.

use vstd::prelude::*;

use crate::fixers;
use crate::fixers::trim;
use crate::fixers::Fixed;
use crate::scripting::change;
use crate::syntax::blanks;
use crate::syntax::clear;
use crate::syntax::green;
use crate::syntax::green::Tree;
use crate::syntax::kind::SyntaxKind;

verus! {

/// The kind of whitespace.
pub open spec fn blank_kind() -> Option<u16> {
    Some(SyntaxKind::WHITESPACE.code())
}

/// Whether no whitespace in a tree has whitespace right behind it; `after` is the
/// kind of the token behind the tree.
pub open spec fn single_blanks(t: Tree, after: Option<u16>) -> bool
    decreases t,
{
    match t {
        Tree::Token { .. } => t.is_token_of(SyntaxKind::WHITESPACE) ==> after != blank_kind(),
        Tree::Node { children, .. } => all_single_blanks(children, children, after),
    }
}

/// Whether no whitespace in the first children, `ts`, of a node with the children
/// `cs` has whitespace right behind it.
pub open spec fn all_single_blanks(cs: Seq<Tree>, ts: Seq<Tree>, after: Option<u16>) -> bool
    decreases ts,
{
    ts.len() > 0 ==> {
        &&& all_single_blanks(cs, ts.drop_last(), after)
        &&& single_blanks(ts.last(), trim::kind_after(cs, ts.len() - 1, after))
    }
}

/// Each of the children is one without such whitespace.
proof fn lemma_each_single(cs: Seq<Tree>, ts: Seq<Tree>, after: Option<u16>, i: int)
    requires
        all_single_blanks(cs, ts, after),
        0 <= i < ts.len(),
    ensures
        single_blanks(ts[i], trim::kind_after(cs, i, after)),
    decreases ts.len(),
{
    if i < ts.len() - 1 {
        lemma_each_single(cs, ts.drop_last(), after, i);
    }
}

/// Whether a tree goes away.
pub open spec fn gone(t: Tree, after: Option<u16>) -> bool {
    t.is_token_of(SyntaxKind::WHITESPACE) && trim::ends_line(after)
}

/// What is made of the first children.
pub open spec fn made(cs: Seq<Tree>, n: int, after: Option<u16>) -> Seq<Tree> {
    trim::all_trimmed(cs, cs.take(n), after).trees
}

/// One tree comes of each that does not go.
proof fn lemma_made_step(cs: Seq<Tree>, n: int, after: Option<u16>)
    requires
        0 <= n < cs.len(),
    ensures
        ({
            let a = trim::kind_after(cs, n, after);
            if gone(cs[n], a) {
                made(cs, n + 1, after) == made(cs, n, after)
            } else {
                &&& trim::tree_trimmed(cs[n], a).trees.len() == 1
                &&& made(cs, n + 1, after) == made(cs, n, after).push(
                    trim::tree_trimmed(cs[n], a).trees[0],
                )
            }
        }),
{
    let a = trim::kind_after(cs, n, after);
    assert(cs.take(n + 1).drop_last() =~= cs.take(n));
    assert(cs.take(n + 1).last() == cs[n]);
    let x = trim::tree_trimmed(cs[n], a).trees;
    if gone(cs[n], a) {
        assert(made(cs, n, after) + x =~= made(cs, n, after));
    } else {
        assert(x.len() == 1);
        assert(made(cs, n, after) + x =~= made(cs, n, after).push(x[0]));
    }
}

/// What is made of the first children is where what is made of all begins.
proof fn lemma_made_prefix(cs: Seq<Tree>, n: int, m: int, after: Option<u16>)
    requires
        0 <= n <= m <= cs.len(),
    ensures
        made(cs, n, after).len() <= made(cs, m, after).len(),
        made(cs, n, after) == made(cs, m, after).take(made(cs, n, after).len() as int),
    decreases m - n,
{
    if n < m {
        lemma_made_prefix(cs, n, m - 1, after);
        lemma_made_step(cs, m - 1, after);
        let k = made(cs, n, after).len() as int;
        assert(made(cs, m, after).take(k) =~= made(cs, m - 1, after).take(k));
    } else {
        assert(made(cs, m, after).take(made(cs, n, after).len() as int) =~= made(cs, n, after));
    }
}

/// A tree that does not begin with whitespace begins as it did.
proof fn lemma_first_kind(t: Tree, after: Option<u16>)
    requires
        trim::first_kind(t) != blank_kind(),
    ensures
        trim::tree_trimmed(t, after).trees.len() == 1,
        trim::first_kind(trim::tree_trimmed(t, after).trees[0]) == trim::first_kind(t),
    decreases t,
{
    match t {
        Tree::Token { .. } => {},
        Tree::Node { children, .. } => {
            let ds = trim::all_trimmed(children, children, after).trees;
            assert(children.take(children.len() as int) =~= children);
            if children.len() == 0 {
                assert(ds =~= seq![]);
            } else {
                let a = trim::kind_after(children, 0, after);
                lemma_first_kind(children[0], a);
                lemma_made_step(children, 0, after);
                lemma_made_prefix(children, 1, children.len() as int, after);
                assert(children.take(0) =~= seq![]);
                assert(made(children, 0, after) =~= seq![]);
                assert(made(children, 1, after)[0] == ds[0]);
            }
        },
    }
}

/// Trees that trimming leaves alone one by one it leaves alone in a row.
proof fn lemma_all_left(ds: Seq<Tree>, n: int, after: Option<u16>)
    requires
        0 <= n <= ds.len(),
        forall|j: int|
            0 <= j < n ==> trim::tree_trimmed(
                #[trigger] ds[j],
                trim::kind_after(ds, j, after),
            ) == fixers::kept(ds[j]),
    ensures
        trim::all_trimmed(ds, ds.take(n), after) == (Fixed { trees: ds.take(n), count: 0 }),
    decreases n,
{
    if n > 0 {
        lemma_all_left(ds, n - 1, after);
        assert(ds.take(n).drop_last() =~= ds.take(n - 1));
        assert(ds.take(n).last() == ds[n - 1]);
        assert(ds.take(n - 1) + seq![ds[n - 1]] =~= ds.take(n));
    } else {
        assert(ds.take(0) =~= seq![]);
    }
}

/// What was trimmed stays. The token behind may be another than before only where
/// whitespace was behind.
proof fn lemma_trimmed_stays(t: Tree, after: Option<u16>, again: Option<u16>)
    requires
        single_blanks(t, after),
        again == after || after == blank_kind(),
        !gone(t, after),
    ensures
        trim::tree_trimmed(t, after).trees.len() == 1,
        trim::tree_trimmed(trim::tree_trimmed(t, after).trees[0], again) == fixers::kept(
            trim::tree_trimmed(t, after).trees[0],
        ),
    decreases t, 1int,
{
    match t {
        Tree::Token { text, .. } => {
            lemma_trimmed_end(text);
        },
        Tree::Node { kind, children } => {
            let n = children.len() as int;
            assert(children.take(n) =~= children);
            let ds = made(children, n, after);
            lemma_children_stay(t, children, n, after, again);
            lemma_made_prefix(children, n, n, after);
            lemma_all_left(ds, ds.len() as int, again);
            assert(ds.take(ds.len() as int) =~= ds);
        },
    }
}

/// What was made of the first children stays.
proof fn lemma_children_stay(
    t: Tree,
    cs: Seq<Tree>,
    n: int,
    after: Option<u16>,
    again: Option<u16>,
)
    requires
        t is Node,
        t->children == cs,
        0 <= n <= cs.len(),
        all_single_blanks(cs, cs, after),
        again == after || after == blank_kind(),
    ensures
        ({
            let ds = made(cs, cs.len() as int, after);
            &&& made(cs, n, after).len() <= ds.len()
            &&& forall|j: int|
                0 <= j < made(cs, n, after).len() ==> trim::tree_trimmed(
                    #[trigger] ds[j],
                    trim::kind_after(ds, j, again),
                ) == fixers::kept(ds[j])
        }),
    decreases t, 0int, n,
{
    let len = cs.len() as int;
    let ds = made(cs, len, after);
    lemma_made_prefix(cs, n, len, after);
    if n == 0 {
        assert(cs.take(0) =~= seq![]);
        assert(made(cs, 0, after) =~= seq![]);
    } else {
        lemma_children_stay(t, cs, n - 1, after, again);
        lemma_made_step(cs, n - 1, after);
        let a = trim::kind_after(cs, n - 1, after);
        if !gone(cs[n - 1], a) {
            let j = made(cs, n - 1, after).len() as int;
            let x = trim::tree_trimmed(cs[n - 1], a).trees[0];
            assert(made(cs, n, after)[j] == x);
            assert(ds[j] == x);
            let b = trim::kind_after(ds, j, again);
            if n < len {
                lemma_made_step(cs, n, after);
                lemma_made_prefix(cs, n + 1, len, after);
                let c = trim::kind_after(cs, n, after);
                if trim::first_kind(cs[n]) != blank_kind() {
                    lemma_first_kind(cs[n], c);
                    assert(made(cs, n + 1, after)[j + 1] == trim::tree_trimmed(
                        cs[n],
                        c,
                    ).trees[0]);
                    assert(ds[j + 1] == made(cs, n + 1, after)[j + 1]);
                    assert(b == a);
                }
            }
            assert(b == a || a == blank_kind());
            lemma_each_single(cs, cs, after, n - 1);
            assert(decreases_to!(t => t->children[n - 1]));
            lemma_trimmed_stays(cs[n - 1], a, b);
        }
    }
}

/// A text without spaces and tabs at its end has none.
proof fn lemma_trimmed_end(s: Seq<char>)
    ensures
        trim::trimmed_end(trim::trimmed_end(s)) == trim::trimmed_end(s),
    decreases s.len(),
{
    if s.len() > 0 && (s.last() == ' ' || s.last() == '\t') {
        lemma_trimmed_end(s.drop_last());
    }
}

/// The first token of a tree.
proof fn lemma_first_token(t: Tree)
    ensures
        trim::first_kind(t) matches Some(k) ==> blanks::kinds(t).len() > 0 && blanks::kinds(t)[0]
            == k,
    decreases t,
{
    match t {
        Tree::Token { .. } => {},
        Tree::Node { children, .. } => {
            if children.len() > 0 {
                assert(decreases_to!(t => t->children[0]));
                lemma_first_token(children[0]);
                let rest = children.skip(1);
                assert(children =~= seq![children[0]] + rest);
                blanks::lemma_kinds_add(seq![children[0]], rest);
                blanks::lemma_kinds_one(children[0]);
            }
        },
    }
}

/// Where no whitespace has whitespace right behind it in the text, so it is in the
/// tree.
proof fn lemma_single(t: Tree, after: Option<u16>)
    requires
        blanks::apart(blanks::kinds(t)),
        blanks::ends_blank(blanks::kinds(t)) ==> after != blank_kind(),
    ensures
        single_blanks(t, after),
    decreases t, 1nat,
{
    match t {
        Tree::Token { .. } => {},
        Tree::Node { children, .. } => {
            assert(children.take(children.len() as int) =~= children);
            lemma_all_single(t, children.len() as int, after);
        },
    }
}

/// So it is in the first children.
proof fn lemma_all_single(t: Tree, n: int, after: Option<u16>)
    requires
        t is Node,
        0 <= n <= t.children().len(),
        blanks::apart(blanks::kinds(t)),
        blanks::ends_blank(blanks::kinds(t)) ==> after != blank_kind(),
    ensures
        all_single_blanks(t.children(), t.children().take(n), after),
    decreases t, 0nat, n,
{
    let cs = t.children();
    if n > 0 {
        lemma_all_single(t, n - 1, after);
        let ts = cs.take(n);
        assert(ts.drop_last() =~= cs.take(n - 1));
        let c = cs[n - 1];
        assert(ts.last() == c);
        let a = cs.take(n - 1);
        let b = cs.skip(n);
        assert(cs =~= a + (seq![c] + b));
        blanks::lemma_kinds_add(a, seq![c] + b);
        blanks::lemma_kinds_add(seq![c], b);
        blanks::lemma_kinds_one(c);
        let ks = blanks::kinds(t);
        let ka = blanks::all_kinds(a);
        let kc = blanks::kinds(c);
        let kb = blanks::all_kinds(b);
        assert(ks =~= ka + kc + kb);
        assert forall|i: int|
            0 <= i < kc.len() - 1 && #[trigger] kc[i]
                == SyntaxKind::WHITESPACE.code() implies kc[i + 1]
            != SyntaxKind::WHITESPACE.code() by {
            assert(ks[ka.len() + i] == kc[i]);
            assert(ks[ka.len() + i + 1] == kc[i + 1]);
        }
        let next = trim::kind_after(cs, n - 1, after);
        if blanks::ends_blank(kc) {
            let last = ka.len() + kc.len() - 1;
            assert(ks[last] == kc.last());
            if n < cs.len() {
                lemma_first_token(cs[n]);
                let rest = b.skip(1);
                assert(b =~= seq![cs[n]] + rest);
                blanks::lemma_kinds_add(seq![cs[n]], rest);
                blanks::lemma_kinds_one(cs[n]);
                if next == blank_kind() {
                    assert(kb[0] == SyntaxKind::WHITESPACE.code());
                    assert(ks[last + 1] == kb[0]);
                }
            } else {
                assert(b =~= seq![]);
                assert(ks.last() == kc.last());
            }
        }
        assert(decreases_to!(t => t->children[n - 1]));
        lemma_single(c, next);
    }
}

/// Trimming the ends of lines is idempotent, and counts nothing the second time,
/// where whitespace stands nowhere right behind whitespace, as in each tree that was
/// parsed: of two in a row one stays.
pub proof fn lemma_trim_is_idempotent(t: Tree)
    requires
        t is Node,
        blanks::apart(blanks::kinds(t)),
    ensures
        change::trimmed(change::trimmed(t)) == change::trimmed(t),
        trim::tree_trimmed(change::trimmed(t), None).count == 0,
{
    lemma_single(t, None);
    lemma_trimmed_stays(t, None, None);
}

// ---- What was changed ----

/// How much a tree holds: its tokens and their characters.
spec fn weight(t: Tree) -> nat
    decreases t,
{
    match t {
        Tree::Token { text, .. } => 1 + text.len(),
        Tree::Node { children, .. } => all_weight(children),
    }
}

/// How much trees in a row hold.
spec fn all_weight(ts: Seq<Tree>) -> nat
    decreases ts,
{
    if ts.len() == 0 {
        0
    } else {
        all_weight(ts.drop_last()) + weight(ts.last())
    }
}

/// What trees one behind another hold.
proof fn lemma_weight_add(a: Seq<Tree>, b: Seq<Tree>)
    ensures
        all_weight(a + b) == all_weight(a) + all_weight(b),
    decreases b.len(),
{
    if b.len() == 0 {
        assert(a + b =~= a);
    } else {
        lemma_weight_add(a, b.drop_last());
        assert((a + b).drop_last() =~= a + b.drop_last());
    }
}

/// What one tree holds.
proof fn lemma_weight_one(t: Tree)
    ensures
        all_weight(seq![t]) == weight(t),
{
    let one = seq![t];
    assert(one.drop_last() =~= seq![]);
    assert(all_weight(one.drop_last()) == 0);
}

/// Where something was trimmed the tree holds less; where nothing was it stays.
proof fn lemma_weight(t: Tree, after: Option<u16>)
    ensures
        trim::tree_trimmed(t, after).count == 0 ==> trim::tree_trimmed(t, after).trees == seq![t],
        all_weight(trim::tree_trimmed(t, after).trees) + trim::tree_trimmed(t, after).count
            <= weight(t),
    decreases t, 1int,
{
    let f = trim::tree_trimmed(t, after);
    match t {
        Tree::Token { text, .. } => {
            if f.trees.len() == 0 {
                assert(f.trees =~= seq![]);
                assert(all_weight(f.trees) == 0);
            } else {
                assert(f.trees =~= seq![f.trees[0]]);
                lemma_weight_one(f.trees[0]);
            }
        },
        Tree::Node { children, .. } => {
            assert(children.take(children.len() as int) =~= children);
            lemma_all_weight(t, children, after);
            lemma_weight_one(f.trees[0]);
            assert(f.trees =~= seq![f.trees[0]]);
        },
    }
}

/// The same of the first children.
proof fn lemma_all_weight(t: Tree, ts: Seq<Tree>, after: Option<u16>)
    requires
        t is Node,
        ts.len() <= t->children.len(),
        ts == t->children.take(ts.len() as int),
    ensures
        trim::all_trimmed(t->children, ts, after).count == 0 ==> trim::all_trimmed(
            t->children,
            ts,
            after,
        ).trees == ts,
        all_weight(trim::all_trimmed(t->children, ts, after).trees) + trim::all_trimmed(
            t->children,
            ts,
            after,
        ).count <= all_weight(ts),
    decreases t, 0int, ts.len(),
{
    let cs = t->children;
    if ts.len() > 0 {
        let n = ts.len() - 1;
        assert(ts.drop_last() =~= cs.take(n));
        assert(ts.last() == cs[n]);
        lemma_all_weight(t, ts.drop_last(), after);
        assert(decreases_to!(t => t->children[n]));
        lemma_weight(cs[n], trim::kind_after(cs, n, after));
        let a = trim::all_trimmed(cs, ts.drop_last(), after);
        let b = trim::tree_trimmed(cs[n], trim::kind_after(cs, n, after));
        lemma_weight_add(a.trees, b.trees);
        if a.count + b.count == 0 {
            assert(a.trees + b.trees =~= ts);
        }
    } else {
        assert(all_weight(trim::all_trimmed(cs, ts, after).trees) == 0);
        assert(trim::all_trimmed(cs, ts, after).trees =~= ts);
    }
}

/// Trimming counts no change exactly where it changes nothing.
pub proof fn lemma_trim_counts_changes(t: Tree)
    requires
        t is Node,
    ensures
        trim::tree_trimmed(t, None).count == 0 <==> change::trimmed(t) == t,
{
    let f = trim::tree_trimmed(t, None);
    lemma_weight(t, None);
    assert(f.trees =~= seq![change::trimmed(t)]);
    lemma_weight_one(change::trimmed(t));
}

/// Where something was trimmed the text is shorter.
proof fn lemma_text_len(t: Tree, after: Option<u16>)
    requires
        clear::clear(t),
    ensures
        green::trees_text(trim::tree_trimmed(t, after).trees).len() + trim::tree_trimmed(
            t,
            after,
        ).count <= t.text().len(),
    decreases t, 1int,
{
    let f = trim::tree_trimmed(t, after);
    match t {
        Tree::Token { text, .. } => {
            if f.trees.len() == 0 {
                assert(f.trees =~= seq![]);
            } else {
                assert(f.trees =~= seq![f.trees[0]]);
                green::lemma_trees_text_one(f.trees[0]);
            }
        },
        Tree::Node { children, .. } => {
            assert(children.take(children.len() as int) =~= children);
            lemma_all_text_len(t, children, after);
            assert(f.trees =~= seq![f.trees[0]]);
            green::lemma_trees_text_one(f.trees[0]);
        },
    }
}

/// The same of the first children.
proof fn lemma_all_text_len(t: Tree, ts: Seq<Tree>, after: Option<u16>)
    requires
        t is Node,
        ts.len() <= t->children.len(),
        ts == t->children.take(ts.len() as int),
        clear::all_clear(ts),
    ensures
        green::trees_text(trim::all_trimmed(t->children, ts, after).trees).len()
            + trim::all_trimmed(t->children, ts, after).count <= green::trees_text(ts).len(),
    decreases t, 0int, ts.len(),
{
    let cs = t->children;
    if ts.len() > 0 {
        let n = ts.len() - 1;
        assert(ts.drop_last() =~= cs.take(n));
        assert(ts.last() == cs[n]);
        lemma_all_text_len(t, ts.drop_last(), after);
        assert(decreases_to!(t => t->children[n]));
        lemma_text_len(cs[n], trim::kind_after(cs, n, after));
        let a = trim::all_trimmed(cs, ts.drop_last(), after);
        let b = trim::tree_trimmed(cs[n], trim::kind_after(cs, n, after));
        green::lemma_trees_text_add(a.trees, b.trees);
        green::lemma_trees_text_add(ts.drop_last(), seq![cs[n]]);
        green::lemma_trees_text_one(cs[n]);
        assert(ts.drop_last() + seq![cs[n]] =~= ts);
    } else {
        assert(trim::all_trimmed(cs, ts, after).trees =~= seq![]);
    }
}

/// Trimming counts no change exactly where it leaves the text as it was, where no
/// token of whitespace is empty, as in each tree that was parsed; it makes no text
/// longer.
pub proof fn lemma_trim_counts_text_changes(t: Tree)
    requires
        t is Node,
        clear::clear(t),
    ensures
        trim::tree_trimmed(t, None).count == 0 <==> change::trimmed(t).text() == t.text(),
        change::trimmed(t).text().len() + trim::tree_trimmed(t, None).count <= t.text().len(),
{
    let f = trim::tree_trimmed(t, None);
    lemma_trim_counts_changes(t);
    lemma_text_len(t, None);
    assert(f.trees =~= seq![change::trimmed(t)]);
    green::lemma_trees_text_one(change::trimmed(t));
}

// ---- What is left ----

/// Whether whitespace stands nowhere at the end of a line.
pub open spec fn lines_end_clean(ks: Seq<u16>) -> bool {
    forall|i: int|
        0 <= i < ks.len() && #[trigger] ks[i] == SyntaxKind::WHITESPACE.code() ==> i + 1
            < ks.len() && ks[i + 1] != SyntaxKind::NEWLINE.code()
}

/// Whether no comment in a tree ends with a space or a tab.
pub open spec fn comments_end_clean(t: Tree) -> bool
    decreases t,
{
    match t {
        Tree::Token { text, .. } => t.is_token_of(SyntaxKind::COMMENT) && text.len() > 0 ==> {
            text.last() != ' ' && text.last() != '\t'
        },
        Tree::Node { children, .. } => forall|i: int|
            0 <= i < children.len() ==> comments_end_clean(#[trigger] children[i]),
    }
}

/// Whether the kind of the token behind is known, and that of no line break.
spec fn goes_on(after: Option<u16>) -> bool {
    after is Some && after != Some(SyntaxKind::NEWLINE.code())
}

/// Whether whitespace is at the end of a line only where the tokens end.
spec fn clean_inside(ks: Seq<u16>) -> bool {
    forall|i: int|
        0 <= i < ks.len() - 1 && #[trigger] ks[i] == SyntaxKind::WHITESPACE.code() ==> ks[i + 1]
            != SyntaxKind::NEWLINE.code()
}

/// Where trimming finds nothing, nothing is left to trim.
proof fn lemma_nothing_left(t: Tree, after: Option<u16>)
    requires
        trim::tree_trimmed(t, after).count == 0,
    ensures
        clean_inside(blanks::kinds(t)),
        blanks::ends_blank(blanks::kinds(t)) ==> goes_on(after),
        comments_end_clean(t),
    decreases t, 1int,
{
    match t {
        Tree::Token { text, .. } => {
            if t.is_token_of(SyntaxKind::COMMENT) && text.len() > 0 {
                lemma_shorter(text.drop_last());
            }
        },
        Tree::Node { children, .. } => {
            let n = children.len() as int;
            assert(children.take(n) =~= children);
            lemma_none_left(t, n, after);
        },
    }
}

/// The text without spaces and tabs at its end is no longer than before.
proof fn lemma_shorter(s: Seq<char>)
    ensures
        trim::trimmed_end(s).len() <= s.len(),
    decreases s.len(),
{
    if s.len() > 0 && (s.last() == ' ' || s.last() == '\t') {
        lemma_shorter(s.drop_last());
    }
}

/// The same of the first children.
proof fn lemma_none_left(t: Tree, n: int, after: Option<u16>)
    requires
        t is Node,
        0 <= n <= t->children.len(),
        trim::all_trimmed(t->children, t->children.take(n), after).count == 0,
    ensures
        clean_inside(blanks::all_kinds(t->children.take(n))),
        blanks::ends_blank(blanks::all_kinds(t->children.take(n))) ==> n > 0 && goes_on(
            trim::kind_after(t->children, n - 1, after),
        ),
        forall|i: int| 0 <= i < n ==> comments_end_clean(#[trigger] t->children[i]),
    decreases t, 0int, n,
{
    let cs = t->children;
    if n > 0 {
        let c = cs[n - 1];
        assert(cs.take(n).drop_last() =~= cs.take(n - 1));
        assert(cs.take(n).last() == c);
        lemma_none_left(t, n - 1, after);
        assert(decreases_to!(t => t->children[n - 1]));
        lemma_nothing_left(c, trim::kind_after(cs, n - 1, after));
        let ka = blanks::all_kinds(cs.take(n - 1));
        let kc = blanks::kinds(c);
        if blanks::ends_blank(ka) {
            lemma_first_token(c);
            assert(kc.len() > 0);
        }
        let ks = ka + kc;
        assert forall|i: int|
            0 <= i < ks.len() - 1 && #[trigger] ks[i]
                == SyntaxKind::WHITESPACE.code() implies ks[i + 1]
            != SyntaxKind::NEWLINE.code() by {
            if i < ka.len() - 1 {
                assert(ka[i] == ks[i] && ka[i + 1] == ks[i + 1]);
            } else if i == ka.len() - 1 {
                assert(ka.last() == ks[i]);
                assert(kc[0] == ks[i + 1]);
            } else {
                let j = i - ka.len();
                assert(kc[j] == ks[i] && kc[j + 1] == ks[i + 1]);
            }
        }
        if blanks::ends_blank(ks) {
            if kc.len() > 0 {
                assert(ks.last() == kc.last());
            } else {
                assert(ks =~= ka);
            }
        }
    } else {
        assert(cs.take(0) =~= seq![]);
        assert(blanks::all_kinds(cs.take(0)) =~= seq![]);
    }
}

/// Trimming leaves no whitespace at the end of a line or of a comment, where
/// whitespace stands nowhere right behind whitespace, as in each tree that was
/// parsed.
pub proof fn lemma_trimmed_lines_end_clean(t: Tree)
    requires
        t is Node,
        blanks::apart(blanks::kinds(t)),
    ensures
        lines_end_clean(blanks::kinds(change::trimmed(t))),
        comments_end_clean(change::trimmed(t)),
{
    lemma_single(t, None);
    lemma_trimmed_stays(t, None, None);
    lemma_nothing_left(change::trimmed(t), None);
}

} // verus!

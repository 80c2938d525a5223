//! The texts of values, part by part.

use vstd::prelude::*;

use crate::builder;
use crate::builder::YamlModel;
use crate::text;

verus! {

/// A key and a value.
pub type Pair = (Seq<char>, YamlModel);

/// How the lines of a text are indented: by how many columns more than the entry
/// that holds it a collection stands, whether the list of a mapping's entry stands at
/// the column of the key, and whether a list in a list begins beside the dash.
pub struct Layout {
    pub step: int,
    pub flush: bool,
    pub inline: bool,
}

/// Two columns more for every collection.
pub open spec fn two() -> Layout {
    Layout { step: 2, flush: false, inline: false }
}

/// Whether the lines of nested collections can be told apart.
pub open spec fn is_sound(l: Layout) -> bool {
    l.step >= 1
}

/// The column of a collection that is the value of a mapping's entry at `n`.
pub open spec fn column_below(l: Layout, m: YamlModel, n: int) -> int {
    if l.flush && m is List {
        n
    } else {
        n + l.step
    }
}

/// By how much `d` nested collections are indented at most.
pub open spec fn reach(l: Layout, d: nat) -> int {
    if l.step >= 2 {
        l.step * d
    } else {
        2 * d as int
    }
}

/// What more nested collections are indented by.
pub proof fn lemma_reach(l: Layout, a: nat, b: nat)
    requires
        is_sound(l),
    ensures
        a <= b ==> reach(l, a) <= reach(l, b),
        reach(l, a + 1) >= reach(l, a) + l.step,
        reach(l, a + 1) >= reach(l, a) + 2,
        reach(l, a) >= 0,
{
    if l.step >= 2 {
        assert(a <= b ==> l.step * a <= l.step * b && l.step * (a + 1) == l.step * a + l.step
            && l.step * a >= 0) by (nonlinear_arith)
            requires
                l.step >= 2,
        ;
        assert(l.step * (a + 1) == l.step * a + l.step && l.step * a >= 0) by (nonlinear_arith)
            requires
                l.step >= 2,
        ;
    }
}

/// Whether a value stands on its own lines: it is a collection that is not empty.
pub open spec fn is_tall(m: YamlModel) -> bool {
    match m {
        YamlModel::List(items) => items.len() > 0,
        YamlModel::Dict(pairs) => pairs.len() > 0,
        _ => false,
    }
}

/// The text of a value that stands on one line.
pub open spec fn leaf_text(m: YamlModel) -> Seq<char> {
    match m {
        YamlModel::Null => "null"@,
        YamlModel::Bool(b) => if b {
            "true"@
        } else {
            "false"@
        },
        YamlModel::Int(n) => text::int_text(n),
        YamlModel::Float(f) => builder::float_text(f),
        YamlModel::Str(s) => builder::string_text(s),
        YamlModel::List(_) => "[]"@,
        YamlModel::Dict(_) => "{}"@,
    }
}

/// The text of a value at `n`.
pub open spec fn body(l: Layout, m: YamlModel, n: int) -> Seq<char>
    decreases m, 3nat, 0nat,
{
    match m {
        YamlModel::List(items) if items.len() > 0 => items_body(l, items, 0, n),
        YamlModel::Dict(pairs) if pairs.len() > 0 => pairs_body(l, pairs, 0, n),
        _ => leaf_text(m),
    }
}

/// The text of the value of an entry at `n`, behind its mark.
pub open spec fn child_body(l: Layout, m: YamlModel, n: int) -> Seq<char>
    decreases m, 4nat, 0nat,
{
    if is_tall(m) {
        block_below(l, m, column_below(l, m, n))
    } else {
        seq![' '] + leaf_text(m)
    }
}

/// The text of a collection at `n`, behind the line before it.
pub open spec fn block_below(l: Layout, m: YamlModel, n: int) -> Seq<char>
    decreases m, 3nat, 1nat,
{
    seq!['\n'] + (text::spaces(n) + body(l, m, n))
}

/// The text of an item at `n`, behind its dash.
pub open spec fn item_body(l: Layout, m: YamlModel, n: int) -> Seq<char>
    decreases m, 5nat, 0nat,
{
    match m {
        YamlModel::Dict(pairs) if pairs.len() > 0 => seq![' '] + pairs_body(l, pairs, 0, n + 2),
        YamlModel::List(items) if items.len() > 0 => if l.inline {
            seq![' '] + items_body(l, items, 0, n + 2)
        } else {
            block_below(l, m, n + l.step)
        },
        _ => seq![' '] + leaf_text(m),
    }
}

/// The text of the items from `i` on, which stand at `n`.
pub open spec fn items_body(l: Layout, items: Seq<YamlModel>, i: int, n: int) -> Seq<char>
    decreases items, 1nat, 2 * (items.len() - i),
{
    if 0 <= i < items.len() {
        seq!['-'] + (item_body(l, items[i], n) + items_rest(l, items, i + 1, n))
    } else {
        seq![]
    }
}

/// What stands before the item at `i`, and the items from there on.
pub open spec fn items_rest(l: Layout, items: Seq<YamlModel>, i: int, n: int) -> Seq<char>
    decreases items, 1nat, 2 * (items.len() - i) + 1,
{
    if 0 <= i < items.len() {
        seq!['\n'] + (text::spaces(n) + items_body(l, items, i, n))
    } else {
        seq![]
    }
}

/// The text of the pairs from `i` on, which stand at `n`.
pub open spec fn pairs_body(l: Layout, pairs: Seq<Pair>, i: int, n: int) -> Seq<char>
    decreases pairs, 1nat, 2 * (pairs.len() - i),
{
    if 0 <= i < pairs.len() {
        builder::string_text(pairs[i].0) + (seq![':'] + (child_body(l, pairs[i].1, n) + pairs_rest(l, 
            pairs,
            i + 1,
            n,
        )))
    } else {
        seq![]
    }
}

/// What stands before the pair at `i`, and the pairs from there on.
pub open spec fn pairs_rest(l: Layout, pairs: Seq<Pair>, i: int, n: int) -> Seq<char>
    decreases pairs, 1nat, 2 * (pairs.len() - i) + 1,
{
    if 0 <= i < pairs.len() {
        seq!['\n'] + (text::spaces(n) + pairs_body(l, pairs, i, n))
    } else {
        seq![]
    }
}

/// What stands before an entry that does not begin a line, or does.
pub open spec fn margin(i: int, n: int) -> Seq<char> {
    if i > 0 {
        text::spaces(n)
    } else {
        seq![]
    }
}

/// The text of a value, behind another text.
proof fn lemma_node_text(m: YamlModel, n: int, out: Seq<char>)
    requires
        !builder::at_line_start(out),
        n >= 0,
    ensures
        builder::node_text(m, n, out) == out + body(two(), m, n),
    decreases m, 3nat, 0nat,
{
    match m {
        YamlModel::List(items) => {
            if items.len() > 0 {
                lemma_list_lines(items, 0, n, out);
                assert(builder::node_text(m, n, out) =~= out + body(two(), m, n));
            }
        },
        YamlModel::Dict(pairs) => {
            if pairs.len() > 0 {
                lemma_dict_lines(pairs, 0, n, out);
                assert(builder::node_text(m, n, out) =~= out + body(two(), m, n));
            }
        },
        _ => {},
    }
}

/// The lines of items, behind another text.
proof fn lemma_list_lines(items: Seq<YamlModel>, i: int, n: int, out: Seq<char>)
    requires
        0 <= i <= items.len(),
        i == 0 ==> !builder::at_line_start(out),
        n >= 0,
    ensures
        builder::list_lines(items, i, n, out) == if i < items.len() {
            (out + (margin(i, n) + items_body(two(), items, i, n))).push('\n')
        } else {
            out
        },
    decreases items, 1nat, items.len() - i,
{
    if i < items.len() {
        let start = builder::entry_start(out, i, n).push('-');
        assert(!builder::at_line_start(start));
        lemma_item_text(items[i], n, start);
        let c = item_body(two(), items[i], n);
        let next = builder::item_text(items[i], n, start).push('\n');
        lemma_list_lines(items, i + 1, n, next);
        assert(builder::entry_start(out, i, n) =~= out + margin(i, n));
        assert(next == ((out + margin(i, n)).push('-') + c).push('\n'));
        lemma_join_item(
            out,
            margin(i, n),
            c,
            text::spaces(n) + items_body(two(), items, i + 1, n),
        );
    }
}

/// Texts one behind another, in two groupings.
proof fn lemma_join_item(a: Seq<char>, b: Seq<char>, c: Seq<char>, d: Seq<char>)
    ensures
        (((a + b).push('-') + c).push('\n') + d).push('\n') == (a + (b + (seq!['-'] + (c + (
        seq!['\n'] + d))))).push('\n'),
        ((a + b).push('-') + c).push('\n') == (a + (b + (seq!['-'] + (c
            + Seq::<char>::empty())))).push('\n'),
{
    let x = ((a + b).push('-') + c).push('\n');
    let y = a + (b + (seq!['-'] + c));
    assert(x =~= y.push('\n'));
    assert((x + d).push('\n') =~= (a + (b + (seq!['-'] + (c + (seq!['\n'] + d))))).push('\n'));
    assert(c + Seq::<char>::empty() =~= c);
}

/// An item, behind another text.
proof fn lemma_item_text(m: YamlModel, n: int, out: Seq<char>)
    requires
        !builder::at_line_start(out),
        n >= 0,
    ensures
        builder::item_text(m, n, out) == out + item_body(two(), m, n),
    decreases m, 5nat, 0nat,
{
    match m {
        YamlModel::Dict(pairs) if pairs.len() > 0 => {
            lemma_dict_lines(pairs, 0, n + 2, out.push(' '));
            assert(builder::item_text(m, n, out) =~= out + item_body(two(), m, n));
        },
        _ => {
            lemma_child_text(m, n, out);
        },
    }
}

/// The value of an entry, behind another text.
proof fn lemma_child_text(m: YamlModel, n: int, out: Seq<char>)
    requires
        !builder::at_line_start(out),
        n >= 0,
    ensures
        builder::child_text(m, n, out) == out + child_body(two(), m, n),
    decreases m, 4nat, 0nat,
{
    if is_tall(m) {
        let start = out.push('\n') + text::spaces(n + 2);
        assert(start.last() == ' ');
        match m {
            YamlModel::List(items) => {
                lemma_list_lines(items, 0, n + 2, start);
            },
            YamlModel::Dict(pairs) => {
                lemma_dict_lines(pairs, 0, n + 2, start);
            },
            _ => {},
        }
    } else {
        lemma_node_text(m, n + 2, out.push(' '));
    }
    assert(builder::child_text(m, n, out) =~= out + child_body(two(), m, n));
}

/// Texts one behind another, in two groupings.
proof fn lemma_join(a: Seq<char>, b: Seq<char>, q: Seq<char>, c: Seq<char>, d: Seq<char>)
    ensures
        (((a + b + q).push(':') + c).push('\n') + d).push('\n') == (a + (b + (q + (seq![':'] + (c + (
        seq!['\n'] + d)))))).push('\n'),
        ((a + b + q).push(':') + c).push('\n') == (a + (b + (q + (seq![':'] + (c
            + Seq::<char>::empty()))))).push('\n'),
{
    let x = ((a + b + q).push(':') + c).push('\n');
    let y = a + (b + (q + (seq![':'] + c)));
    assert(x =~= y.push('\n'));
    assert((x + d).push('\n') =~= (a + (b + (q + (seq![':'] + (c + (seq!['\n'] + d)))))).push('\n'));
    assert(c + Seq::<char>::empty() =~= c);
}

/// The lines of pairs, behind another text.
proof fn lemma_dict_lines(pairs: Seq<Pair>, i: int, n: int, out: Seq<char>)
    requires
        0 <= i <= pairs.len(),
        i == 0 ==> !builder::at_line_start(out),
        n >= 0,
    ensures
        builder::dict_lines(pairs, i, n, out) == if i < pairs.len() {
            (out + (margin(i, n) + pairs_body(two(), pairs, i, n))).push('\n')
        } else {
            out
        },
    decreases pairs, 1nat, pairs.len() - i,
{
    if i < pairs.len() {
        let start = (builder::entry_start(out, i, n) + builder::string_text(pairs[i].0)).push(':');
        assert(!builder::at_line_start(start));
        lemma_child_text(pairs[i].1, n, start);
        let next = builder::child_text(pairs[i].1, n, start).push('\n');
        lemma_dict_lines(pairs, i + 1, n, next);
        let q = builder::string_text(pairs[i].0);
        let c = child_body(two(), pairs[i].1, n);
        assert(builder::entry_start(out, i, n) =~= out + margin(i, n));
        assert(next == ((out + margin(i, n) + q).push(':') + c).push('\n'));
        lemma_join(out, margin(i, n), q, c, text::spaces(n) + pairs_body(two(), pairs, i + 1, n));
    }
}

/// The canonical text of a value that does not end with a line feed is its text
/// and a line feed.
pub proof fn lemma_yaml_text(m: YamlModel)
    requires
        body(two(), m, 0).len() > 0,
        body(two(), m, 0).last() != '\n',
    ensures
        builder::yaml_text(m) == body(two(), m, 0) + seq!['\n'],
{
    let none = Seq::<char>::empty();
    lemma_node_text(m, 0, none);
    assert(none + body(two(), m, 0) =~= body(two(), m, 0));
    assert(body(two(), m, 0).push('\n') =~= body(two(), m, 0) + seq!['\n']);
}

} // verus!

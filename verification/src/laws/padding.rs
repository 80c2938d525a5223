//! The text of a value with all lines moved to the right.

use vstd::prelude::*;

use crate::builder;
use crate::builder::YamlModel;
use crate::debug;
use crate::edit::entry;
use crate::laws::layout;
use crate::laws::leaves;
use crate::laws::surviving;
use crate::lexer;
use crate::text;

verus! {

/// `b` with `pad` before each line that is not empty; `after` says whether a line
/// feed stands before `b`.
pub open spec fn shifted(b: Seq<char>, after: bool, pad: Seq<char>) -> Seq<char>
    decreases b.len(),
{
    if b.len() == 0 {
        seq![]
    } else {
        let rest = seq![b[0]] + shifted(b.drop_first(), b[0] == '\n', pad);
        if after && b[0] != '\n' {
            pad + rest
        } else {
            rest
        }
    }
}

/// Padding is shifting.
proof fn lemma_padded(s: Seq<char>, i: int, pad: Seq<char>)
    requires
        0 <= i <= s.len(),
    ensures
        entry::padded(s, i, pad) == shifted(s.skip(i), i > 0 && s[i - 1] == '\n', pad),
    decreases s.len() - i,
{
    if i < s.len() {
        lemma_padded(s, i + 1, pad);
        assert(s.skip(i).drop_first() =~= s.skip(i + 1));
        assert(s.skip(i)[0] == s[i]);
        let rest = shifted(s.skip(i + 1), s[i] == '\n', pad);
        assert(pad + seq![s[i]] + rest =~= pad + (seq![s[i]] + rest));
    }
}

/// Shifting texts one behind another.
proof fn lemma_shifted_add(a: Seq<char>, b: Seq<char>, after: bool, pad: Seq<char>)
    requires
        a.len() > 0,
    ensures
        shifted(a + b, after, pad) == shifted(a, after, pad) + shifted(b, a.last() == '\n', pad),
    decreases a.len(),
{
    let c = a.drop_first();
    assert((a + b).drop_first() =~= c + b);
    let rest = shifted(b, a.last() == '\n', pad);
    if c.len() == 0 {
        assert(c + b =~= b);
        assert(shifted(c, a[0] == '\n', pad) =~= seq![]);
        assert(a.last() == a[0]);
    } else {
        lemma_shifted_add(c, b, a[0] == '\n', pad);
        assert(c.last() == a.last());
    }
    assert(shifted(a + b, after, pad) =~= shifted(a, after, pad) + rest);
}

/// A text on one line.
proof fn lemma_shifted_line(w: Seq<char>, pad: Seq<char>)
    requires
        !w.contains('\n'),
    ensures
        shifted(w, false, pad) == w,
    decreases w.len(),
{
    if w.len() > 0 {
        assert(w.contains(w[0]));
        let c = w.drop_first();
        assert forall|i: int| 0 <= i < c.len() implies c[i] != '\n' by {
            assert(w.contains(w[i + 1]));
        }
        lemma_shifted_line(c, pad);
        assert(seq![w[0]] + c =~= w);
    }
}

/// A line feed, indentation and a text.
proof fn lemma_shifted_below(n: int, b: Seq<char>, col: int)
    requires
        n >= 0,
        col >= 0,
        b.len() > 0,
        b[0] != '\n',
    ensures
        shifted(seq!['\n'] + (text::spaces(n) + b), false, text::spaces(col)) == seq!['\n'] + (
        text::spaces(n + col) + shifted(b, false, text::spaces(col))),
{
    let pad = text::spaces(col);
    let sp = text::spaces(n);
    let nl = seq!['\n'];
    lemma_shifted_add(nl, sp + b, false, pad);
    assert(nl.drop_first() =~= seq![]);
    assert(shifted(nl.drop_first(), true, pad) =~= seq![]);
    assert(shifted(nl, false, pad) =~= nl);
    let c = sp + b;
    let rest = shifted(b, false, pad);
    assert(shifted(c, true, pad) == pad + shifted(c, false, pad));
    if n > 0 {
        lemma_shifted_add(sp, b, false, pad);
        assert(!sp.contains('\n'));
        lemma_shifted_line(sp, pad);
        assert(sp.last() == ' ');
    } else {
        assert(c =~= b);
        assert(sp + rest =~= rest);
    }
    assert(shifted(c, false, pad) == sp + rest);
    assert(pad + (sp + rest) =~= text::spaces(n + col) + rest);
}

/// Doubling quotes adds no line feed.
proof fn lemma_no_feed(x: Seq<char>, i: int)
    requires
        0 <= i <= x.len(),
        !x.contains('\n'),
    ensures
        !lexer::doubled_quotes(x, i).contains('\n'),
    decreases x.len() - i,
{
    if i < x.len() {
        lemma_no_feed(x, i + 1);
        assert(x.contains(x[i]));
        let d = lexer::doubled_quotes(x, i + 1);
        let all = lexer::doubled_quotes(x, i);
        assert forall|j: int| 0 <= j < all.len() implies all[j] != '\n' by {
            if x[i] == '\'' {
                if j >= 2 {
                    assert(d.contains(d[j - 2]));
                }
            } else if j >= 1 {
                assert(d.contains(d[j - 1]));
            }
        }
    }
}

/// Escapes hold no line feed.
proof fn lemma_no_escaped_feed(x: Seq<char>)
    ensures
        !debug::escaped_chars(x).contains('\n'),
    decreases x.len(),
{
    if x.len() > 0 {
        let head = debug::escaped_chars(x.drop_last());
        let last = debug::escaped_char(x.last());
        let all = debug::escaped_chars(x);
        lemma_no_escaped_feed(x.drop_last());
        assert forall|j: int| 0 <= j < all.len() implies all[j] != '\n' by {
            if j < head.len() {
                assert(head.contains(head[j]));
            } else {
                assert(all[j] == last[j - head.len()]);
            }
        }
    }
}

/// A string as it is written is one line.
proof fn lemma_text_line(x: Seq<char>)
    ensures
        builder::string_text(x).len() > 0,
        !builder::string_text(x).contains('\n'),
{
    let w = builder::string_text(x);
    if !builder::quotes_keep(x) {
        lemma_no_escaped_feed(x);
        let d = debug::escaped_chars(x);
        assert forall|j: int| 0 <= j < w.len() implies w[j] != '\n' by {
            if 0 < j < w.len() - 1 {
                assert(w[j] == d[j - 1]);
                assert(d.contains(d[j - 1]));
            }
        }
    } else if builder::needs_quotes(x) {
        lemma_no_feed(x, 0);
        let d = lexer::doubled_quotes(x, 0);
        assert forall|j: int| 0 <= j < w.len() implies w[j] != '\n' by {
            if 0 < j < w.len() - 1 {
                assert(w[j] == d[j - 1]);
                assert(d.contains(d[j - 1]));
            }
        }
    }
}

/// A value that stands on one line is one line.
proof fn lemma_leaf_line(m: YamlModel)
    requires
        surviving::is_tame(m),
        !layout::is_tall(m),
    ensures
        layout::leaf_text(m).len() > 0,
        !layout::leaf_text(m).contains('\n'),
{
    let w = layout::leaf_text(m);
    match m {
        YamlModel::Str(x) => {
            lemma_text_line(x);
        },
        YamlModel::List(_) => {
            reveal_strlit("[]");
        },
        YamlModel::Dict(_) => {
            reveal_strlit("{}");
        },
        _ => {
            leaves::lemma_leaf_plain(m);
            assert forall|j: int| 0 <= j < w.len() implies w[j] != '\n' by {}
        },
    }
}

/// A value moved to the right.
proof fn lemma_body_shifted(m: YamlModel, n: int, col: int)
    requires
        surviving::is_tame(m),
        n >= 0,
        col >= 0,
    ensures
        layout::body(layout::two(), m, n).len() > 0,
        layout::body(layout::two(), m, n)[0] != '\n',
        shifted(layout::body(layout::two(), m, n), false, text::spaces(col)) == layout::body(layout::two(), m, n + col),
    decreases m, 3nat, 0int,
{
    match m {
        YamlModel::List(items) if items.len() > 0 => {
            lemma_items_shifted(items, 0, n, col);
        },
        YamlModel::Dict(pairs) if pairs.len() > 0 => {
            lemma_pairs_shifted(pairs, 0, n, col);
        },
        _ => {
            let w = layout::leaf_text(m);
            lemma_leaf_line(m);
            lemma_shifted_line(w, text::spaces(col));
            assert(w.contains(w[0]));
        },
    }
}

/// The value of an entry moved to the right.
pub proof fn lemma_child_shifted(m: YamlModel, n: int, col: int)
    requires
        surviving::is_tame(m),
        n >= 0,
        col >= 0,
    ensures
        layout::child_body(layout::two(), m, n).len() > 0,
        layout::child_body(layout::two(), m, n).last() != '\n',
        shifted(layout::child_body(layout::two(), m, n), false, text::spaces(col)) == layout::child_body(layout::two(), 
            m,
            n + col,
        ),
    decreases m, 4nat, 0int,
{
    surviving::lemma_child_end(layout::two(), m, n);
    if layout::is_tall(m) {
        lemma_body_shifted(m, n + 2, col);
        lemma_shifted_below(n + 2, layout::body(layout::two(), m, n + 2), col);
        assert(n + 2 + col == n + col + 2);
    } else {
        let w = layout::leaf_text(m);
        lemma_leaf_line(m);
        let c = seq![' '] + w;
        assert forall|j: int| 0 <= j < c.len() implies c[j] != '\n' by {
            if j > 0 {
                assert(w.contains(w[j - 1]));
            }
        }
        lemma_shifted_line(c, text::spaces(col));
    }
}

/// An item moved to the right.
proof fn lemma_item_shifted(m: YamlModel, n: int, col: int)
    requires
        surviving::is_tame(m),
        n >= 0,
        col >= 0,
    ensures
        layout::item_body(layout::two(), m, n).len() > 0,
        layout::item_body(layout::two(), m, n).last() != '\n',
        shifted(layout::item_body(layout::two(), m, n), false, text::spaces(col)) == layout::item_body(layout::two(), 
            m,
            n + col,
        ),
    decreases m, 5nat, 0int,
{
    surviving::lemma_child_end(layout::two(), m, n);
    match m {
        YamlModel::Dict(pairs) if pairs.len() > 0 => {
            let b = layout::pairs_body(layout::two(), pairs, 0, n + 2);
            let pad = text::spaces(col);
            lemma_pairs_shifted(pairs, 0, n + 2, col);
            lemma_shifted_add(seq![' '], b, false, pad);
            assert(!seq![' '].contains('\n'));
            lemma_shifted_line(seq![' '], pad);
            assert(n + 2 + col == n + col + 2);
        },
        _ => {
            lemma_child_shifted(m, n, col);
        },
    }
}

/// Items moved to the right.
proof fn lemma_items_shifted(items: Seq<YamlModel>, i: int, n: int, col: int)
    requires
        0 <= i < items.len(),
        surviving::tame_items(items),
        n >= 0,
        col >= 0,
    ensures
        layout::items_body(layout::two(), items, i, n).len() > 0,
        layout::items_body(layout::two(), items, i, n)[0] != '\n',
        shifted(layout::items_body(layout::two(), items, i, n), false, text::spaces(col)) == layout::items_body(layout::two(), 
            items,
            i,
            n + col,
        ),
    decreases items, 1nat, items.len() - i,
{
    let pad = text::spaces(col);
    let c = layout::item_body(layout::two(), items[i], n);
    let rest = layout::items_rest(layout::two(), items, i + 1, n);
    lemma_item_shifted(items[i], n, col);
    lemma_shifted_add(seq!['-'], c + rest, false, pad);
    assert(!seq!['-'].contains('\n'));
    lemma_shifted_line(seq!['-'], pad);
    lemma_shifted_add(c, rest, false, pad);
    if i + 1 < items.len() {
        lemma_items_shifted(items, i + 1, n, col);
        lemma_shifted_below(n, layout::items_body(layout::two(), items, i + 1, n), col);
    } else {
        assert(shifted(rest, false, pad) =~= seq![]);
    }
}

/// Pairs moved to the right.
pub proof fn lemma_pairs_shifted(pairs: Seq<layout::Pair>, i: int, n: int, col: int)
    requires
        0 <= i < pairs.len(),
        surviving::tame_pairs(pairs),
        n >= 0,
        col >= 0,
    ensures
        layout::pairs_body(layout::two(), pairs, i, n).len() > 0,
        layout::pairs_body(layout::two(), pairs, i, n)[0] != '\n',
        shifted(layout::pairs_body(layout::two(), pairs, i, n), false, text::spaces(col)) == layout::pairs_body(layout::two(), 
            pairs,
            i,
            n + col,
        ),
    decreases pairs, 1nat, pairs.len() - i,
{
    let pad = text::spaces(col);
    let w = builder::string_text(pairs[i].0);
    let c = layout::child_body(layout::two(), pairs[i].1, n);
    let rest = layout::pairs_rest(layout::two(), pairs, i + 1, n);
    lemma_text_line(pairs[i].0);
    assert(w.contains(w[0]));
    assert(w.contains(w[w.len() - 1]));
    lemma_shifted_line(w, pad);
    lemma_child_shifted(pairs[i].1, n, col);
    lemma_shifted_add(w, seq![':'] + (c + rest), false, pad);
    lemma_shifted_add(seq![':'], c + rest, false, pad);
    assert(!seq![':'].contains('\n'));
    lemma_shifted_line(seq![':'], pad);
    lemma_shifted_add(c, rest, false, pad);
    if i + 1 < pairs.len() {
        lemma_pairs_shifted(pairs, i + 1, n, col);
        lemma_shifted_below(n, layout::pairs_body(layout::two(), pairs, i + 1, n), col);
    } else {
        assert(shifted(rest, false, pad) =~= seq![]);
    }
}

/// The text of an entry for a mapping at `col`.
pub proof fn lemma_entry_text(key: Seq<char>, value: YamlModel, col: int)
    requires
        surviving::is_tame(value),
        col >= 0,
    ensures
        entry::entry_text(key, value, col) == layout::pairs_body(layout::two(), seq![(key, value)], 0, col)
            + seq!['\n'],
{
    let m = entry::entry_model(key, value);
    let pairs = seq![(key, value)];
    let pad = text::spaces(col);
    assert(surviving::tame_pairs(pairs));
    assert(m->Dict_0 == pairs);
    assert(surviving::is_tame(m));
    surviving::lemma_body_end(layout::two(), m, 0);
    layout::lemma_yaml_text(m);
    let b = layout::pairs_body(layout::two(), pairs, 0, 0);
    assert(layout::body(layout::two(), m, 0) == b);
    let all = b + seq!['\n'];
    lemma_padded(all, 0, pad);
    assert(all.skip(0) =~= all);
    lemma_pairs_shifted(pairs, 0, 0, col);
    lemma_shifted_add(b, seq!['\n'], false, pad);
    let nl = seq!['\n'];
    assert(shifted(nl.drop_first(), true, pad) =~= seq![]);
    assert(shifted(nl, false, pad) =~= nl);
}

} // verus!

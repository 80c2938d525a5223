//! Numbers of base sixty.

use vstd::prelude::*;

use crate::ast::decode::DecodeFault;
use crate::ast::value::ValueModel;
use crate::fixers::scalars;
use crate::fixers::scalars::ScalarRule;
use crate::laws::requoting;
use crate::lexer;
use crate::text;

verus! {

/// Texts in a row with `c` between two of them.
pub open spec fn joined_by(c: char, row: Seq<Seq<char>>) -> Seq<char>
    decreases row.len(),
{
    if row.len() == 0 {
        seq![]
    } else if row.len() == 1 {
        row[0]
    } else {
        row[0] + seq![c] + joined_by(c, row.skip(1))
    }
}

/// Parts with colons between them, perhaps behind a minus and before a fraction.
pub open spec fn clock(minus: bool, row: Seq<Seq<char>>, fraction: Option<Seq<char>>) -> Seq<
    char,
> {
    (if minus {
        seq!['-']
    } else {
        seq![]
    }) + joined_by(':', row) + match fraction {
        Some(d) => seq!['.'] + d,
        None => seq![],
    }
}

/// Whether a text is digits, at least one.
pub open spec fn some_digits(w: Seq<char>) -> bool {
    w.len() > 0 && forall|i: int| 0 <= i < w.len() ==> '0' <= #[trigger] w[i] <= '9'
}

/// Whether a text is one or two digits of a number below sixty.
pub open spec fn below_sixty(w: Seq<char>) -> bool {
    ||| w.len() == 1 && '0' <= w[0] <= '9'
    ||| w.len() == 2 && '0' <= w[0] <= '9' && '0' <= w[1] <= '9' && 10 * (w[0] as int
        - '0' as int) + (w[1] as int - '0' as int) < 60
}

/// The first `c` behind a text without it.
proof fn lemma_find(s: Seq<char>, i: int, w: Seq<char>, c: char)
    requires
        0 <= i,
        i + w.len() <= s.len(),
        forall|j: int| 0 <= j < w.len() ==> s[i + j] == #[trigger] w[j],
        !w.contains(c),
        i + w.len() < s.len() ==> s[i + w.len()] == c,
    ensures
        text::find_from(s, c, i) == i + w.len(),
{
    text::lemma_find_from(s, c, i);
    let e = text::find_from(s, c, i);
    if e < i + w.len() {
        assert(s[i + (e - i)] == w[e - i]);
        assert(w.contains(w[e - i]));
    }
}

/// What was joined behind a text is split again.
proof fn lemma_split(before: Seq<char>, row: Seq<Seq<char>>, c: char)
    requires
        row.len() > 0,
        forall|k: int| 0 <= k < row.len() ==> !(#[trigger] row[k]).contains(c),
    ensures
        text::split_from(before + joined_by(c, row), c, before.len() as int) == row,
    decreases row.len(),
{
    let s = before + joined_by(c, row);
    let i = before.len() as int;
    let w = row[0];
    assert(!w.contains(c));
    assert forall|j: int| 0 <= j < w.len() implies s[i + j] == #[trigger] w[j] by {}
    lemma_find(s, i, w, c);
    if row.len() == 1 {
        assert(s.skip(i) =~= w);
        assert(row =~= seq![w]);
    } else {
        let more = row.skip(1);
        assert forall|k: int| 0 <= k < more.len() implies !(#[trigger] more[k]).contains(c) by {
            assert(more[k] == row[k + 1]);
        }
        let head = before + w + seq![c];
        lemma_split(head, more, c);
        assert(s =~= head + joined_by(c, more));
        assert(s.subrange(i, i + w.len()) =~= w);
        assert(seq![w] + more =~= row);
    }
}

/// Each character of what was joined stands in one of the texts or between two.
proof fn lemma_joined(row: Seq<Seq<char>>, c: char, j: int)
    requires
        0 <= j < joined_by(c, row).len(),
    ensures
        joined_by(c, row)[j] == c || exists|k: int|
            0 <= k < row.len() && (#[trigger] row[k]).contains(joined_by(c, row)[j]),
    decreases row.len(),
{
    let s = joined_by(c, row);
    if j < row[0].len() {
        assert(row[0][j] == s[j]);
        assert(row[0].contains(s[j]));
    } else if j > row[0].len() {
        let more = row.skip(1);
        let i = j - row[0].len() - 1;
        assert(s[j] == joined_by(c, more)[i]);
        lemma_joined(more, c, i);
        if s[j] != c {
            let k = choose|k: int| 0 <= k < more.len() && (#[trigger] more[k]).contains(s[j]);
            assert(row[k + 1] == more[k]);
        }
    }
}

/// Whether parts, and a fraction, are those of a number of base sixty.
pub open spec fn is_clock(row: Seq<Seq<char>>, fraction: Option<Seq<char>>) -> bool {
    &&& row.len() >= 2
    &&& some_digits(row[0])
    &&& forall|k: int| 1 <= k < row.len() ==> below_sixty(#[trigger] row[k])
    &&& fraction is Some ==> some_digits(fraction->0)
}

/// The parts of a number are found.
proof fn lemma_parts(row: Seq<Seq<char>>, fraction: Option<Seq<char>>)
    requires
        row.len() > 0,
        forall|k: int|
            0 <= k < row.len() ==> !(#[trigger] row[k]).contains(':') && !row[k].contains('.'),
    ensures
        lexer::unsigned_sexagesimal(clock(false, row, fraction)) == is_clock(row, fraction),
{
    let s = clock(false, row, fraction);
    let w = joined_by(':', row);
    let none = Seq::<char>::empty();
    assert(!w.contains('.')) by {
        if w.contains('.') {
            let j = choose|j: int| 0 <= j < w.len() && w[j] == '.';
            lemma_joined(row, ':', j);
        }
    }
    assert forall|j: int| 0 <= j < w.len() implies s[0 + j] == #[trigger] w[j] by {}
    lemma_find(s, 0, w, '.');
    assert(s.take(w.len() as int) =~= w);
    if fraction is Some {
        assert(s.skip(w.len() as int + 1) =~= fraction->0);
    } else {
        assert(s =~= w);
    }
    lemma_split(none, row, ':');
    assert(none + w =~= w);
    assert forall|k: int| 0 <= k < row.len() implies lexer::sixty_digits(#[trigger] row[k])
        == below_sixty(row[k]) by {
        let p = row[k];
        if below_sixty(p) {
            assert forall|i: int| 0 <= i < p.len() implies '0' <= #[trigger] p[i] <= '9' by {
                assert(i == 0 || i == 1);
            }
        }
    }
}

/// Making numbers of base sixty safe changes the plain scalars of at least two parts
/// with colons between them, perhaps behind a minus, of digits, each below sixty but
/// for the first, and perhaps a point and more digits. These become the strings that
/// they were written as; no other is changed.
pub proof fn lemma_sixties_become_text(
    minus: bool,
    row: Seq<Seq<char>>,
    fraction: Option<Seq<char>>,
    key: bool,
)
    requires
        row.len() > 0,
        forall|k: int|
            0 <= k < row.len() ==> !(#[trigger] row[k]).contains(':') && !row[k].contains('.'),
        !minus ==> row[0].len() == 0 || row[0][0] != '-',
    ensures
        ({
            let s = clock(minus, row, fraction);
            let new_text = scalars::new_token(
                ScalarRule::QuoteSexagesimal,
                scalars::plain_token(s),
                key,
            );
            &&& new_text is Some == is_clock(row, fraction)
            &&& new_text is Some ==> requoting::sole_value(new_text->0) == Ok::<
                ValueModel,
                DecodeFault,
            >(ValueModel::Text(s))
        }),
{
    let s = clock(minus, row, fraction);
    let rest = clock(false, row, fraction);
    let w = joined_by(':', row);
    lemma_parts(row, fraction);
    if minus {
        assert(s.skip(1) =~= rest);
    } else if s.len() > 0 && row[0].len() > 0 {
        assert(s[0] == row[0][0]);
    }
    assert(lexer::yaml_1_1_sexagesimal(s) == is_clock(row, fraction));
    if is_clock(row, fraction) {
        assert forall|j: int| 0 <= j < w.len() implies '-' <= #[trigger] w[j] <= ':' by {
            lemma_joined(row, ':', j);
            if w[j] != ':' {
                let k = choose|k: int| 0 <= k < row.len() && (#[trigger] row[k]).contains(w[j]);
                let i = choose|i: int| 0 <= i < row[k].len() && row[k][i] == w[j];
                assert(k == 0 || below_sixty(row[k]));
                assert('0' <= row[k][i] <= '9');
            }
        }
        assert forall|j: int| 0 <= j < s.len() implies '-' <= #[trigger] s[j] <= ':' by {
            let m: int = if minus {
                1
            } else {
                0
            };
            if m <= j < m + w.len() {
                assert(s[j] == w[j - m]);
            } else if j > m + w.len() {
                assert(s[j] == fraction->0[j - m - w.len() - 1]);
            }
        }
        assert(w.len() > 0);
        assert(s.last() == s[s.len() - 1]);
        requoting::lemma_old_sexagesimal_becomes_text(s, key);
    }
}

} // verus!

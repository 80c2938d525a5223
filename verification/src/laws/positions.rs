//! Where errors are.

use vstd::prelude::*;

use crate::error;

verus! {

/// Lines, each with a line feed behind it.
pub open spec fn ended_lines(lines: Seq<Seq<u8>>) -> Seq<u8>
    decreases lines.len(),
{
    if lines.len() == 0 {
        seq![]
    } else {
        ended_lines(lines.drop_last()) + lines.last() + seq![0x0au8]
    }
}

/// Whether lines hold no line feed.
pub open spec fn no_feeds(lines: Seq<Seq<u8>>) -> bool {
    forall|i: int| 0 <= i < lines.len() ==> !(#[trigger] lines[i]).contains(0x0au8)
}

/// Behind some whole lines and a part of the next, the lines are those that were
/// ended, and the column is the length of the part.
pub proof fn lemma_position(s: Seq<u8>, lines: Seq<Seq<u8>>, part: Seq<u8>)
    requires
        no_feeds(lines),
        !part.contains(0x0au8),
        ended_lines(lines).len() + part.len() <= s.len(),
        s.take((ended_lines(lines).len() + part.len()) as int) == ended_lines(lines) + part,
    ensures
        error::breaks_before(s, (ended_lines(lines).len() + part.len()) as int) == lines.len(),
        error::since_break(s, (ended_lines(lines).len() + part.len()) as int) == part.len(),
    decreases lines.len(), part.len(),
{
    let before = ended_lines(lines);
    let n = (before.len() + part.len()) as int;
    assert forall|i: int| 0 <= i < n implies #[trigger] s[i] == (before + part)[i] by {
        assert(s.take(n)[i] == s[i]);
    }
    if part.len() > 0 {
        let less = part.drop_last();
        assert(part.contains(part.last()));
        assert(s[n - 1] == part.last());
        assert(!less.contains(0x0au8)) by {
            if less.contains(0x0au8) {
                let k = choose|k: int| 0 <= k < less.len() && less[k] == 0x0au8;
                assert(part[k] == 0x0au8);
            }
        }
        assert(s.take(n - 1) =~= before + less);
        lemma_position(s, lines, less);
    } else if lines.len() > 0 {
        let last = lines.last();
        let more = lines.drop_last();
        assert(last == lines[lines.len() - 1]);
        assert(s[n - 1] == 0x0a);
        assert forall|i: int| 0 <= i < more.len() implies !(#[trigger] more[i]).contains(
            0x0au8,
        ) by {
            assert(more[i] == lines[i]);
        }
        assert(s.take(n - 1) =~= ended_lines(more) + last);
        lemma_position(s, more, last);
    }
}

} // verus!

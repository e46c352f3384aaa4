use vstd::prelude::*;
use crate::cell::Cell;

verus! {

/// How many cells of `s` are mines.
pub open spec fn count_mines(s: Seq<Cell>) -> nat
    decreases s.len(),
{
    if s.len() == 0 {
        0
    } else {
        count_mines(s.drop_last()) + if s.last().is_mine { 1nat } else { 0nat }
    }
}

/// How many cells of `s` are revealed.
pub open spec fn count_revealed(s: Seq<Cell>) -> nat
    decreases s.len(),
{
    if s.len() == 0 {
        0
    } else {
        count_revealed(s.drop_last()) + if s.last().is_revealed { 1nat } else { 0nat }
    }
}

/// How many cells of `s` are flagged and still hidden. The remaining-mines
/// counter shown to the player is `mines_count` minus this number.
pub open spec fn count_flagged_hidden(s: Seq<Cell>) -> nat
    decreases s.len(),
{
    if s.len() == 0 {
        0
    } else {
        count_flagged_hidden(s.drop_last()) + if s.last().is_flagged && !s.last().is_revealed {
            1nat
        } else {
            0nat
        }
    }
}

/// Each count is bounded by the number of cells.
pub proof fn lemma_counts_le_len(s: Seq<Cell>)
    ensures
        count_mines(s) <= s.len(),
        count_revealed(s) <= s.len(),
        count_flagged_hidden(s) <= s.len(),
    decreases s.len(),
{
    if s.len() > 0 {
        lemma_counts_le_len(s.drop_last());
    }
}

/// Extending a sequence by one cell raises each count by that cell's
/// contribution.
pub proof fn lemma_counts_push(s: Seq<Cell>, c: Cell)
    ensures
        count_mines(s.push(c)) == count_mines(s) + if c.is_mine { 1nat } else { 0nat },
        count_revealed(s.push(c)) == count_revealed(s) + if c.is_revealed { 1nat } else { 0nat },
        count_flagged_hidden(s.push(c)) == count_flagged_hidden(s) + if c.is_flagged
            && !c.is_revealed { 1nat } else { 0nat },
{
    assert(s.push(c).drop_last() =~= s);
}

/// Overwriting the cell at `i` shifts each count by the difference of the
/// old and new cell's contributions.
pub proof fn lemma_counts_update(s: Seq<Cell>, i: int, c: Cell)
    requires
        0 <= i < s.len(),
    ensures
        count_mines(s.update(i, c)) == count_mines(s) - (if s[i].is_mine { 1int } else { 0int })
            + (if c.is_mine { 1int } else { 0int }),
        count_revealed(s.update(i, c)) == count_revealed(s) - (if s[i].is_revealed { 1int } else { 0int })
            + (if c.is_revealed { 1int } else { 0int }),
        count_flagged_hidden(s.update(i, c)) == count_flagged_hidden(s)
            - (if s[i].is_flagged && !s[i].is_revealed { 1int } else { 0int })
            + (if c.is_flagged && !c.is_revealed { 1int } else { 0int }),
    decreases s.len(),
{
    if i == s.len() - 1 {
        assert(s.update(i, c).drop_last() =~= s.drop_last());
        assert(s.update(i, c).last() == c);
    } else {
        assert(s.update(i, c).drop_last() =~= s.drop_last().update(i, c));
        assert(s.update(i, c).last() == s.last());
        lemma_counts_update(s.drop_last(), i, c);
    }
}

/// The counts of a prefix grow cell by cell.
pub proof fn lemma_counts_take_step(s: Seq<Cell>, i: int)
    requires
        0 <= i < s.len(),
    ensures
        count_mines(s.take(i + 1)) == count_mines(s.take(i)) + if s[i].is_mine { 1nat } else { 0nat },
        count_revealed(s.take(i + 1)) == count_revealed(s.take(i)) + if s[i].is_revealed { 1nat } else { 0nat },
        count_flagged_hidden(s.take(i + 1)) == count_flagged_hidden(s.take(i))
            + if s[i].is_flagged && !s[i].is_revealed { 1nat } else { 0nat },
{
    assert(s.take(i + 1).drop_last() =~= s.take(i));
    assert(s.take(i + 1).last() == s[i]);
}

/// The whole sequence is its own full prefix.
pub proof fn lemma_take_all(s: Seq<Cell>)
    ensures
        s.take(s.len() as int) =~= s,
{
}

/// If every cell is revealed exactly when it is not a mine, the revealed
/// count is the number of non-mine cells.
pub proof fn lemma_all_safe_revealed_count(s: Seq<Cell>)
    requires
        forall|i: int| 0 <= i < s.len() ==> (#[trigger] s[i].is_revealed <==> !s[i].is_mine),
    ensures
        count_revealed(s) == s.len() - count_mines(s),
    decreases s.len(),
{
    if s.len() > 0 {
        assert(s.last() == s[s.len() - 1]);
        lemma_all_safe_revealed_count(s.drop_last());
    }
}

} // verus!

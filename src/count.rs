//! How many cells of a grid are still to be revealed.
use vstd::prelude::*;
use crate::board::State;

verus! {

/// Cells of one column that are not revealed.
pub open spec fn unrevealed_in(col: Seq<State>) -> nat
    decreases col.len(),
{
    if col.len() == 0 {
        0
    } else {
        unrevealed_in(col.drop_last()) + if col.last() != State::Revealed { 1nat } else { 0nat }
    }
}

/// Cells of a whole grid, column by column, that are not revealed.
pub open spec fn unrevealed(cols: Seq<Vec<State>>) -> nat
    decreases cols.len(),
{
    if cols.len() == 0 {
        0
    } else {
        unrevealed(cols.drop_last()) + unrevealed_in(cols.last()@)
    }
}

/// Revealing one cell of a column lowers its count by one if the cell was
/// not revealed before.
pub proof fn lemma_reveal_in_column(col: Seq<State>, i: int)
    requires
        0 <= i < col.len(),
    ensures
        unrevealed_in(col.update(i, State::Revealed)) + (if col[i] != State::Revealed { 1int } else { 0int })
            == unrevealed_in(col),
    decreases col.len(),
{
    let upd = col.update(i, State::Revealed);
    if i == col.len() - 1 {
        assert(upd.drop_last() =~= col.drop_last());
    } else {
        assert(upd.drop_last() =~= col.drop_last().update(i, State::Revealed));
        lemma_reveal_in_column(col.drop_last(), i);
    }
}

/// Replacing one column changes the grid's count by the difference of the
/// two columns' counts.
pub proof fn lemma_replace_column(cols: Seq<Vec<State>>, i: int, col: Vec<State>)
    requires
        0 <= i < cols.len(),
    ensures
        unrevealed(cols.update(i, col)) + unrevealed_in(cols[i]@) == unrevealed(cols) + unrevealed_in(col@),
    decreases cols.len(),
{
    let upd = cols.update(i, col);
    if i == cols.len() - 1 {
        assert(upd.drop_last() =~= cols.drop_last());
    } else {
        assert(upd.drop_last() =~= cols.drop_last().update(i, col));
        lemma_replace_column(cols.drop_last(), i, col);
    }
}

} // verus!

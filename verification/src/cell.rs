use vstd::prelude::*;

verus! {

/// One square of the board. `adjacent_mines` caches the number of
/// mine-bearing cells among the up-to-8 neighbors; it is computed
/// once at board construction and never recomputed.
#[derive(Clone, Copy, Debug, PartialEq, Eq, Structural)]
pub struct Cell {
    pub is_mine: bool,
    pub is_flagged: bool,
    pub is_revealed: bool,
    pub adjacent_mines: u8,
}

impl Default for Cell {
    /// A default cell is empty: not a mine, unflagged, unrevealed,
    /// with no adjacent mines recorded.
    fn default() -> (c: Cell)
        ensures
            c == (Cell { is_mine: false, is_flagged: false, is_revealed: false, adjacent_mines: 0u8 }),
    {
        Cell { is_mine: false, is_flagged: false, is_revealed: false, adjacent_mines: 0 }
    }
}

/// What the rendering layer should draw for one cell.
#[derive(Clone, Copy, Debug, PartialEq, Eq, Structural)]
pub enum CellDisplay {
    HiddenUnflagged,
    HiddenFlagged,
    RevealedNumber(u8),
    RevealedMine,
}

} // verus!

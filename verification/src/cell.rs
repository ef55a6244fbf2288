//! A single square of the board: what lies under it and how the player sees it.

use vstd::prelude::*;

verus! {

/// The count stored in a cell that holds a mine.
pub const MINE: i32 = -1;

/// How a cell is shown to the player. A cell is in exactly one of these states.
#[derive(Clone, Copy, Debug, PartialEq, Eq, Structural)]
pub enum CellState {
    /// Covered and unmarked.
    Hidden,
    /// Covered and marked by the player as a suspected mine.
    Flagged,
    /// Uncovered. A revealed cell never changes again.
    Revealed,
}

impl CellState {
    /// The state a flag toggle leaves behind: `Hidden` and `Flagged` swap,
    /// `Revealed` stays.
    pub open spec fn spec_toggled(self) -> CellState {
        match self {
            CellState::Hidden => CellState::Flagged,
            CellState::Flagged => CellState::Hidden,
            CellState::Revealed => CellState::Revealed,
        }
    }

    /// The state a flag toggle leaves behind.
    #[verifier::when_used_as_spec(spec_toggled)]
    pub fn toggled(self) -> (next: CellState)
        ensures
            next == self.spec_toggled(),
    {
        match self {
            CellState::Hidden => CellState::Flagged,
            CellState::Flagged => CellState::Hidden,
            CellState::Revealed => CellState::Revealed,
        }
    }
}

/// One position of the board.
///
/// `mine_count` is [`MINE`] for a mine; for any other cell of a well-formed
/// grid it is the number of mines among the up to eight surrounding cells.
/// It is fixed when the grid is built; only `state` changes during play.
#[derive(Clone, Copy, Debug, PartialEq, Eq, Structural)]
pub struct Cell {
    pub mine_count: i32,
    pub state: CellState,
}

impl Cell {
    /// Whether the cell holds a mine.
    pub open spec fn spec_is_mine(self) -> bool {
        self.mine_count == MINE
    }

    /// Whether the cell holds a mine.
    #[verifier::when_used_as_spec(spec_is_mine)]
    pub fn is_mine(self) -> (mine: bool)
        ensures
            mine == self.spec_is_mine(),
    {
        self.mine_count == MINE
    }

    /// The same cell in another state.
    pub open spec fn spec_with_state(self, state: CellState) -> Cell {
        Cell { mine_count: self.mine_count, state }
    }

    /// The same cell in another state.
    #[verifier::when_used_as_spec(spec_with_state)]
    pub fn with_state(self, state: CellState) -> (cell: Cell)
        ensures
            cell == self.spec_with_state(state),
    {
        Cell { mine_count: self.mine_count, state }
    }
}

/// Toggling a flag twice gives back the state the cell started in, and
/// toggling a revealed cell changes nothing however often it is done.
pub proof fn lemma_toggle_cycle(state: CellState)
    ensures
        state.toggled().toggled() == state,
        CellState::Revealed.toggled() == CellState::Revealed,
        state == CellState::Hidden ==> state.toggled() == CellState::Flagged,
{
}

} // verus!

//! One click of the player: what it does to the grid and whether the game
//! goes on.

use vstd::prelude::*;
use crate::board::{inside, lemma_same_counts_same_mines, mine_total, same_counts};
use crate::cascade::after_reveal;
use crate::cell::Cell;
use crate::grid::{flag_toggled, Grid};

verus! {

/// The button of a click.
#[derive(Clone, Copy, Debug, PartialEq, Eq, Structural)]
pub enum Button {
    /// Asks to reveal the cell.
    Primary,
    /// Asks to toggle the flag of the cell.
    Secondary,
}

/// How the game stands after a click.
#[derive(Clone, Copy, Debug, PartialEq, Eq, Structural)]
pub enum Outcome {
    /// The game goes on.
    Continue,
    /// The player asked to reveal a mine: the game is lost and over.
    Lost,
}

/// Whether a click on `(r, c)` loses the game: it does if it asks to reveal
/// a mine, flagged or not.
pub open spec fn click_loses(b: Seq<Seq<Cell>>, r: int, c: int, button: Button) -> bool {
    button == Button::Primary && b[r][c].is_mine()
}

/// The board after a click on `(r, c)`. A click that loses the game leaves
/// the board as it is.
pub open spec fn after_click(b: Seq<Seq<Cell>>, r: int, c: int, button: Button) -> Seq<Seq<Cell>> {
    match button {
        Button::Primary => if b[r][c].is_mine() {
            b
        } else {
            after_reveal(b, (r, c))
        },
        Button::Secondary => flag_toggled(b, r, c),
    }
}

impl Grid {
    /// Applies one click to the grid.
    ///
    /// The primary button on a mine loses the game; on any other cell it
    /// reveals the cell. The secondary button toggles the flag of the cell.
    pub fn click(&mut self, row: usize, col: usize, button: Button) -> (outcome: Outcome)
        requires
            old(self).wf(),
            inside(old(self)@, row as int, col as int),
        ensures
            final(self).wf(),
            final(self)@ == after_click(old(self)@, row as int, col as int, button),
            outcome == (if click_loses(old(self)@, row as int, col as int, button) {
                Outcome::Lost
            } else {
                Outcome::Continue
            }),
            same_counts(old(self)@, final(self)@),
            mine_total(final(self)@) == mine_total(old(self)@),
    {
        match button {
            Button::Primary => {
                if self.is_mine(row, col) {
                    proof {
                        lemma_same_counts_same_mines(self@, self@);
                    }
                    Outcome::Lost
                } else {
                    self.reveal_at(row, col);
                    Outcome::Continue
                }
            },
            Button::Secondary => {
                self.toggle_flag(row, col);
                Outcome::Continue
            },
        }
    }
}

} // verus!

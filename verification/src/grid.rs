//! The grid of a game: a square board whose counts agree with its mines.

use vstd::prelude::*;
use crate::board::{
    all_hidden, counts_consistent, inside, lemma_board_sets_finite, lemma_same_counts_same_mines,
    mine_cells, mine_total, put, same_counts, square,
};
use crate::cell::{Cell, CellState};
use crate::layout::{blank_rows, board_of, fill_counts, lay_mines, listed, spots, spots_inside};
use crate::random::random_positions;

verus! {

/// A square grid of cells, addressed by row and column.
///
/// A grid is built once, with its mines and counts, and from then on only
/// the states of its cells change.
#[derive(Debug)]
pub struct Grid {
    cells: Vec<Vec<Cell>>,
}

impl View for Grid {
    type V = Seq<Seq<Cell>>;

    /// The rows of the grid, top to bottom, each from left to right.
    closed spec fn view(&self) -> Seq<Seq<Cell>> {
        board_of(self.cells)
    }
}

/// The board after the flag of the cell at `(r, c)` was toggled.
pub open spec fn flag_toggled(b: Seq<Seq<Cell>>, r: int, c: int) -> Seq<Seq<Cell>> {
    put(b, r, c, b[r][c].with_state(b[r][c].state.toggled()))
}

impl Grid {
    /// The grid is square, and every cell that is no mine stores the number
    /// of mines among the cells around it.
    pub open spec fn wf(&self) -> bool {
        &&& square(self@)
        &&& counts_consistent(self@)
        &&& self@.len() <= usize::MAX
    }

    /// A grid of `size` rows and columns, all hidden, with a mine at every
    /// position listed in `mines`. A position listed twice is one mine.
    pub fn with_mines(size: usize, mines: &[(usize, usize)]) -> (grid: Grid)
        requires
            spots_inside(mines@, size as int),
        ensures
            grid.wf(),
            grid@.len() == size,
            all_hidden(grid@),
            mine_cells(grid@) == spots(mines@),
            mine_total(grid@) <= mines.len(),
    {
        let mut cells = blank_rows(size);
        lay_mines(&mut cells, mines);
        fill_counts(&mut cells);
        Grid { cells }
    }

    /// A grid of `size` rows and columns for a new game, all hidden, with
    /// `mine_count` mines drawn at random.
    ///
    /// Each mine is drawn on its own, so two may fall on the same cell and
    /// count as one: the grid holds at least one mine (if any was asked
    /// for) and at most `mine_count`.
    pub fn new(size: usize, mine_count: usize) -> (grid: Grid)
        requires
            mine_count > 0 ==> size > 0,
        ensures
            grid.wf(),
            grid@.len() == size,
            all_hidden(grid@),
            mine_total(grid@) <= mine_count,
            mine_count > 0 ==> mine_total(grid@) >= 1,
            exists|mines: Seq<(usize, usize)>|
                mines.len() == mine_count && spots_inside(mines, size as int) && mine_cells(grid@)
                    == #[trigger] spots(mines),
    {
        let mines = random_positions(size, mine_count);
        let grid = Grid::with_mines(size, mines.as_slice());
        proof {
            if mine_count > 0 {
                let first = (mines@[0].0 as int, mines@[0].1 as int);
                assert(listed(mines@, mines@.len() as int, first.0, first.1));
                assert(mine_cells(grid@).contains(first));
                lemma_board_sets_finite(grid@);
            }
        }
        grid
    }

    /// The number of rows, which is also the number of columns.
    pub fn size(&self) -> (size: usize)
        ensures
            size == self@.len(),
    {
        self.cells.len()
    }

    /// The cell at `(row, col)`, or `None` off the grid.
    pub fn cell(&self, row: usize, col: usize) -> (found: Option<Cell>)
        requires
            self.wf(),
        ensures
            found == (if inside(self@, row as int, col as int) {
                Some(self@[row as int][col as int])
            } else {
                None
            }),
    {
        if row < self.cells.len() && col < self.cells.len() {
            Some(self.at(row, col))
        } else {
            None
        }
    }

    /// The cell at a position of the grid.
    pub(crate) fn at(&self, row: usize, col: usize) -> (cell: Cell)
        requires
            self.wf(),
            inside(self@, row as int, col as int),
        ensures
            cell == self@[row as int][col as int],
    {
        assert(self@[row as int].len() == self.cells.len());
        self.cells[row][col]
    }

    /// Puts the cell at a position of the grid into `state`.
    pub(crate) fn set_state(&mut self, row: usize, col: usize, state: CellState)
        requires
            old(self).wf(),
            inside(old(self)@, row as int, col as int),
        ensures
            final(self).wf(),
            final(self)@ == put(
                old(self)@,
                row as int,
                col as int,
                old(self)@[row as int][col as int].with_state(state),
            ),
    {
        assert(self@[row as int].len() == self.cells.len());
        self.cells[row][col].state = state;
        proof {
            let after = put(
                old(self)@,
                row as int,
                col as int,
                old(self)@[row as int][col as int].with_state(state),
            );
            assert(self@ =~~= after);
            assert(same_counts(old(self)@, self@));
            lemma_same_counts_same_mines(old(self)@, self@);
        }
    }

    /// Whether the cell at `(row, col)` holds a mine. Revealing such a cell
    /// loses the game.
    pub fn is_mine(&self, row: usize, col: usize) -> (mine: bool)
        requires
            self.wf(),
            inside(self@, row as int, col as int),
        ensures
            mine == self@[row as int][col as int].is_mine(),
            mine == mine_cells(self@).contains((row as int, col as int)),
    {
        self.at(row, col).is_mine()
    }

    /// Marks a hidden cell as a suspected mine, or takes the mark off a
    /// flagged one. A revealed cell stays as it is, and so does every other
    /// cell.
    pub fn toggle_flag(&mut self, row: usize, col: usize)
        requires
            old(self).wf(),
            inside(old(self)@, row as int, col as int),
        ensures
            final(self).wf(),
            final(self)@ == flag_toggled(old(self)@, row as int, col as int),
            same_counts(old(self)@, final(self)@),
            mine_total(final(self)@) == mine_total(old(self)@),
    {
        let cell = self.at(row, col);
        self.set_state(row, col, cell.state.toggled());
        proof {
            assert(same_counts(old(self)@, self@));
            lemma_same_counts_same_mines(old(self)@, self@);
        }
    }
}

/// Toggling the flag of a cell twice gives back the board as it was, and
/// toggling the flag of a revealed cell does not change the board.
pub proof fn lemma_toggle_flag_twice(b: Seq<Seq<Cell>>, r: int, c: int)
    requires
        square(b),
        inside(b, r, c),
    ensures
        flag_toggled(flag_toggled(b, r, c), r, c) == b,
        b[r][c].state == CellState::Hidden ==> flag_toggled(b, r, c)[r][c].state
            == CellState::Flagged,
        b[r][c].state == CellState::Revealed ==> flag_toggled(b, r, c) == b,
{
    assert(flag_toggled(flag_toggled(b, r, c), r, c) =~~= b);
    if b[r][c].state == CellState::Revealed {
        assert(flag_toggled(b, r, c) =~~= b);
    }
}

} // verus!

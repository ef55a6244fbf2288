//! Building the rows of a grid: blank cells, then the mines, then the count
//! of every cell that is no mine.

use vstd::prelude::*;
use crate::board::{
    adjacent_mines, count_ok, counts_consistent, inside, lemma_board_sets_finite, mine_cells,
    mine_here, put, square,
};
use crate::cell::{Cell, CellState, MINE};

verus! {

/// The board that the rows stand for.
pub open spec fn board_of(cells: Vec<Vec<Cell>>) -> Seq<Seq<Cell>> {
    Seq::new(cells.len() as nat, |r: int| cells[r]@)
}

/// `(r, c)` is one of the first `upto` positions of `mines`.
pub open spec fn listed(mines: Seq<(usize, usize)>, upto: int, r: int, c: int) -> bool {
    exists|i: int| 0 <= i < upto && (#[trigger] mines[i]).0 == r && mines[i].1 == c
}

/// The positions listed in `mines`, as a set. A position listed twice is in
/// the set once.
pub open spec fn spots(mines: Seq<(usize, usize)>) -> Set<(int, int)> {
    Set::new(|p: (int, int)| listed(mines, mines.len() as int, p.0, p.1))
}

/// Every listed position lies on a board of `size` rows and columns.
pub open spec fn spots_inside(mines: Seq<(usize, usize)>, size: int) -> bool {
    forall|i: int| 0 <= i < mines.len() ==> (#[trigger] mines[i]).0 < size && mines[i].1 < size
}

/// A hidden cell with count zero.
pub open spec fn blank_cell() -> Cell {
    Cell { mine_count: 0, state: CellState::Hidden }
}

/// A hidden mine.
pub open spec fn mine_cell() -> Cell {
    Cell { mine_count: MINE, state: CellState::Hidden }
}

/// Replaces one cell.
pub(crate) fn set_cell(cells: &mut Vec<Vec<Cell>>, row: usize, col: usize, cell: Cell)
    requires
        square(board_of(*old(cells))),
        inside(board_of(*old(cells)), row as int, col as int),
    ensures
        board_of(*final(cells)) == put(board_of(*old(cells)), row as int, col as int, cell),
        square(board_of(*final(cells))),
        final(cells).len() == old(cells).len(),
{
    assert(board_of(*cells)[row as int].len() == cells.len());
    cells[row][col] = cell;
    assert(board_of(*cells) =~~= put(board_of(*old(cells)), row as int, col as int, cell));
}

/// `size` rows of `size` blank cells.
pub(crate) fn blank_rows(size: usize) -> (cells: Vec<Vec<Cell>>)
    ensures
        cells.len() == size,
        square(board_of(cells)),
        forall|r: int, c: int|
            inside(board_of(cells), r, c) ==> #[trigger] board_of(cells)[r][c] == blank_cell(),
{
    let mut cells: Vec<Vec<Cell>> = Vec::new();
    let mut r: usize = 0;
    while r < size
        invariant
            r <= size,
            cells.len() == r,
            forall|i: int| 0 <= i < r ==> (#[trigger] cells[i]).len() == size,
            forall|i: int, j: int|
                0 <= i < r && 0 <= j < size ==> (#[trigger] cells[i][j]) == blank_cell(),
        decreases size - r,
    {
        let mut row: Vec<Cell> = Vec::new();
        let mut c: usize = 0;
        while c < size
            invariant
                c <= size,
                row.len() == c,
                forall|j: int| 0 <= j < c ==> (#[trigger] row[j]) == blank_cell(),
            decreases size - c,
        {
            row.push(Cell { mine_count: 0, state: CellState::Hidden });
            c += 1;
        }
        cells.push(row);
        r += 1;
    }
    cells
}

/// Turns every listed position of a blank board into a mine. A position
/// listed more than once becomes one mine.
pub(crate) fn lay_mines(cells: &mut Vec<Vec<Cell>>, mines: &[(usize, usize)])
    requires
        square(board_of(*old(cells))),
        spots_inside(mines@, old(cells).len() as int),
        forall|r: int, c: int|
            inside(board_of(*old(cells)), r, c) ==> #[trigger] board_of(*old(cells))[r][c]
                == blank_cell(),
    ensures
        square(board_of(*final(cells))),
        final(cells).len() == old(cells).len(),
        forall|r: int, c: int|
            inside(board_of(*final(cells)), r, c) ==> #[trigger] board_of(*final(cells))[r][c] == (
            if spots(mines@).contains((r, c)) {
                mine_cell()
            } else {
                blank_cell()
            }),
        mine_cells(board_of(*final(cells))) == spots(mines@),
        mine_cells(board_of(*final(cells))).len() <= mines.len(),
{
    let mut i: usize = 0;
    proof {
        lemma_board_sets_finite(board_of(*cells));
        assert(mine_cells(board_of(*cells)) =~= Set::empty());
    }
    while i < mines.len()
        invariant
            i <= mines.len(),
            square(board_of(*cells)),
            cells.len() == old(cells).len(),
            spots_inside(mines@, cells.len() as int),
            forall|r: int, c: int|
                inside(board_of(*cells), r, c) ==> #[trigger] board_of(*cells)[r][c] == (if listed(
                    mines@,
                    i as int,
                    r,
                    c,
                ) {
                    mine_cell()
                } else {
                    blank_cell()
                }),
            mine_cells(board_of(*cells)).finite(),
            mine_cells(board_of(*cells)).len() <= i,
        decreases mines.len() - i,
    {
        let (row, col) = mines[i];
        let ghost before = board_of(*cells);
        set_cell(cells, row, col, Cell { mine_count: MINE, state: CellState::Hidden });
        proof {
            let after = board_of(*cells);
            assert(mine_cells(after) =~= mine_cells(before).insert((row as int, col as int)));
            assert forall|r: int, c: int| inside(after, r, c) implies #[trigger] after[r][c] == (
            if listed(mines@, i + 1, r, c) {
                mine_cell()
            } else {
                blank_cell()
            }) by {
                assert(mines@[i as int] == (row, col));
                if r == row && c == col {
                    assert(listed(mines@, i + 1, r, c));
                } else {
                    assert(after[r][c] == before[r][c]);
                    assert(listed(mines@, i + 1, r, c) == listed(mines@, i as int, r, c));
                }
            }
        }
        i += 1;
    }
    proof {
        assert(mine_cells(board_of(*cells)) =~= spots(mines@)) by {
            assert forall|p: (int, int)| spots(mines@).contains(p) implies mine_cells(
                board_of(*cells),
            ).contains(p) by {
                assert(inside(board_of(*cells), p.0, p.1));
                assert(board_of(*cells)[p.0][p.1] == mine_cell());
            }
        }
    }
}

/// Whether the cell at `(row, col)` holds a mine.
pub(crate) fn mine_at(cells: &Vec<Vec<Cell>>, row: usize, col: usize) -> (mine: bool)
    requires
        square(board_of(*cells)),
        inside(board_of(*cells), row as int, col as int),
    ensures
        mine == mine_cells(board_of(*cells)).contains((row as int, col as int)),
        mine == (mine_here(mine_cells(board_of(*cells)), row as int, col as int) == 1),
{
    assert(board_of(*cells)[row as int].len() == cells.len());
    cells[row][col].is_mine()
}

/// Counts the mines among the up to eight cells around `(row, col)`.
pub(crate) fn count_around(cells: &Vec<Vec<Cell>>, row: usize, col: usize) -> (count: i32)
    requires
        square(board_of(*cells)),
        inside(board_of(*cells), row as int, col as int),
    ensures
        count == adjacent_mines(mine_cells(board_of(*cells)), row as int, col as int),
        0 <= count <= 8,
{
    let size = cells.len();
    let up = row > 0;
    let down = row + 1 < size;
    let left = col > 0;
    let right = col + 1 < size;
    let mut count: i32 = 0;
    if up && left && mine_at(cells, row - 1, col - 1) {
        count += 1;
    }
    if up && mine_at(cells, row - 1, col) {
        count += 1;
    }
    if up && right && mine_at(cells, row - 1, col + 1) {
        count += 1;
    }
    if left && mine_at(cells, row, col - 1) {
        count += 1;
    }
    if right && mine_at(cells, row, col + 1) {
        count += 1;
    }
    if down && left && mine_at(cells, row + 1, col - 1) {
        count += 1;
    }
    if down && mine_at(cells, row + 1, col) {
        count += 1;
    }
    if down && right && mine_at(cells, row + 1, col + 1) {
        count += 1;
    }
    count
}

/// Stores, in every cell that is no mine, the number of mines around it.
pub(crate) fn fill_counts(cells: &mut Vec<Vec<Cell>>)
    requires
        square(board_of(*old(cells))),
    ensures
        square(board_of(*final(cells))),
        final(cells).len() == old(cells).len(),
        mine_cells(board_of(*final(cells))) == mine_cells(board_of(*old(cells))),
        counts_consistent(board_of(*final(cells))),
        forall|r: int, c: int|
            inside(board_of(*final(cells)), r, c) ==> (#[trigger] board_of(*final(cells))[r][c]).state
                == board_of(*old(cells))[r][c].state,
{
    let size = cells.len();
    let mut row: usize = 0;
    while row < size
        invariant
            row <= size,
            cells.len() == size,
            size == old(cells).len(),
            square(board_of(*cells)),
            mine_cells(board_of(*cells)) == mine_cells(board_of(*old(cells))),
            forall|r: int, c: int|
                inside(board_of(*cells), r, c) ==> (#[trigger] board_of(*cells)[r][c]).state
                    == board_of(*old(cells))[r][c].state,
            forall|r: int, c: int|
                inside(board_of(*cells), r, c) && r < row ==> #[trigger] count_ok(
                    board_of(*cells),
                    r,
                    c,
                ),
        decreases size - row,
    {
        let mut col: usize = 0;
        while col < size
            invariant
                row < size,
                col <= size,
                cells.len() == size,
                size == old(cells).len(),
                square(board_of(*cells)),
                mine_cells(board_of(*cells)) == mine_cells(board_of(*old(cells))),
                forall|r: int, c: int|
                    inside(board_of(*cells), r, c) ==> (#[trigger] board_of(*cells)[r][c]).state
                        == board_of(*old(cells))[r][c].state,
                forall|r: int, c: int|
                    inside(board_of(*cells), r, c) && (r < row || (r == row && c < col))
                        ==> #[trigger] count_ok(board_of(*cells), r, c),
            decreases size - col,
        {
            let ghost before = board_of(*cells);
            if !mine_at(cells, row, col) {
                assert(before[row as int].len() == size);
                let state = cells[row][col].state;
                let count = count_around(cells, row, col);
                set_cell(cells, row, col, Cell { mine_count: count, state });
                proof {
                    let after = board_of(*cells);
                    assert(mine_cells(after) =~= mine_cells(before));
                    assert forall|r: int, c: int|
                        inside(after, r, c) && (r < row || (r == row && c < col + 1))
                        implies #[trigger] count_ok(after, r, c) by {
                        if r == row && c == col {
                        } else {
                            assert(count_ok(before, r, c));
                            assert(after[r][c] == before[r][c]);
                        }
                    }
                }
            }
            col += 1;
        }
        row += 1;
    }
}

} // verus!

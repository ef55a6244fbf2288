//! The mathematical model of a grid: a sequence of rows of cells, and what
//! it means for the stored counts to agree with the mines.

use vstd::prelude::*;
use vstd::set_lib::{lemma_int_range, lemma_len_subset, set_int_range};
use crate::cell::{Cell, CellState};

verus! {

/// Every row is as long as the board is high.
pub open spec fn square(b: Seq<Seq<Cell>>) -> bool {
    forall|r: int| 0 <= r < b.len() ==> (#[trigger] b[r]).len() == b.len()
}

/// `(r, c)` is a position of the board.
pub open spec fn inside(b: Seq<Seq<Cell>>, r: int, c: int) -> bool {
    0 <= r < b.len() && 0 <= c < b.len()
}

/// The positions of the board that hold a mine.
pub open spec fn mine_cells(b: Seq<Seq<Cell>>) -> Set<(int, int)> {
    Set::new(|p: (int, int)| inside(b, p.0, p.1) && b[p.0][p.1].is_mine())
}

/// How many cells of the board hold a mine.
pub open spec fn mine_total(b: Seq<Seq<Cell>>) -> nat {
    mine_cells(b).len()
}

/// The positions of the board that are still hidden.
pub open spec fn hidden_cells(b: Seq<Seq<Cell>>) -> Set<(int, int)> {
    Set::new(|p: (int, int)| inside(b, p.0, p.1) && b[p.0][p.1].state == CellState::Hidden)
}

/// 1 if `(r, c)` is one of `mines`, else 0.
pub open spec fn mine_here(mines: Set<(int, int)>, r: int, c: int) -> int {
    if mines.contains((r, c)) {
        1
    } else {
        0
    }
}

/// The number of mines among the eight positions around `(r, c)`. A position
/// off the board is never in `mines`, so it adds nothing.
pub open spec fn adjacent_mines(mines: Set<(int, int)>, r: int, c: int) -> int {
    mine_here(mines, r - 1, c - 1) + mine_here(mines, r - 1, c) + mine_here(mines, r - 1, c + 1)
        + mine_here(mines, r, c - 1) + mine_here(mines, r, c + 1)
        + mine_here(mines, r + 1, c - 1) + mine_here(mines, r + 1, c) + mine_here(mines, r + 1, c + 1)
}

/// The cell at `(r, c)` is a mine, or its count is the number of mines
/// around it.
pub open spec fn count_ok(b: Seq<Seq<Cell>>, r: int, c: int) -> bool {
    b[r][c].is_mine() || b[r][c].mine_count == adjacent_mines(mine_cells(b), r, c)
}

/// Every cell that is no mine stores the exact number of mines around it.
pub open spec fn counts_consistent(b: Seq<Seq<Cell>>) -> bool {
    forall|r: int, c: int| inside(b, r, c) ==> #[trigger] count_ok(b, r, c)
}

/// No cell has been flagged or revealed yet.
pub open spec fn all_hidden(b: Seq<Seq<Cell>>) -> bool {
    forall|r: int, c: int| inside(b, r, c) ==> (#[trigger] b[r][c]).state == CellState::Hidden
}

/// The two boards have the same shape and the same count in every cell.
pub open spec fn same_counts(a: Seq<Seq<Cell>>, b: Seq<Seq<Cell>>) -> bool {
    &&& a.len() == b.len()
    &&& forall|r: int, c: int| inside(a, r, c) ==> (#[trigger] a[r][c]).mine_count == b[r][c].mine_count
}

/// The board with the cell at `(r, c)` replaced.
pub open spec fn put(b: Seq<Seq<Cell>>, r: int, c: int, cell: Cell) -> Seq<Seq<Cell>> {
    b.update(r, b[r].update(c, cell))
}

/// The positions `(r, c)` with `0 <= r < rows` and `0 <= c < cols`.
pub open spec fn cells_below(rows: int, cols: int) -> Set<(int, int)> {
    Set::new(|p: (int, int)| 0 <= p.0 < rows && 0 <= p.1 < cols)
}

/// A rectangle of positions is a finite set.
pub proof fn lemma_cells_below_finite(rows: int, cols: int)
    requires
        0 <= rows,
        0 <= cols,
    ensures
        cells_below(rows, cols).finite(),
    decreases rows,
{
    if rows == 0 {
        assert(cells_below(rows, cols) =~= Set::empty());
    } else {
        lemma_cells_below_finite(rows - 1, cols);
        lemma_int_range(0, cols);
        let in_row = |c: int| (rows - 1, c);
        let row = set_int_range(0, cols).map(in_row);
        set_int_range(0, cols).lemma_map_finite(in_row);
        assert forall|p: (int, int)| cells_below(rows, cols).contains(p) implies cells_below(
            rows - 1,
            cols,
        ).union(row).contains(p) by {
            if p.0 == rows - 1 {
                assert(set_int_range(0, cols).contains(p.1));
                assert(in_row(p.1) == p);
            }
        }
        assert(cells_below(rows, cols) =~= cells_below(rows - 1, cols).union(row));
    }
}

/// The mines and the hidden cells of a board are finite sets.
pub proof fn lemma_board_sets_finite(b: Seq<Seq<Cell>>)
    ensures
        mine_cells(b).finite(),
        hidden_cells(b).finite(),
{
    let all = cells_below(b.len() as int, b.len() as int);
    lemma_cells_below_finite(b.len() as int, b.len() as int);
    assert(mine_cells(b).subset_of(all));
    assert(hidden_cells(b).subset_of(all));
    lemma_len_subset(mine_cells(b), all);
    lemma_len_subset(hidden_cells(b), all);
}

/// Boards with the same counts have the same mines.
pub proof fn lemma_same_counts_same_mines(a: Seq<Seq<Cell>>, b: Seq<Seq<Cell>>)
    requires
        same_counts(a, b),
    ensures
        mine_cells(a) == mine_cells(b),
        mine_total(a) == mine_total(b),
        counts_consistent(a) ==> counts_consistent(b),
{
    assert(mine_cells(a) =~= mine_cells(b));
    if counts_consistent(a) {
        assert forall|r: int, c: int| inside(b, r, c) implies #[trigger] count_ok(b, r, c) by {
            assert(count_ok(a, r, c));
        }
    }
}

} // verus!

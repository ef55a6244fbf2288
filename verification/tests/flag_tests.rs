use minesweeper::cell::CellState;
use minesweeper::grid::Grid;

fn state_at(grid: &Grid, row: usize, col: usize) -> CellState {
    grid.cell(row, col).unwrap().state
}

#[test]
fn toggle_flags_a_hidden_cell() {
    let mut grid = Grid::with_mines(3, &[(1, 1)]);
    grid.toggle_flag(0, 2);
    assert_eq!(state_at(&grid, 0, 2), CellState::Flagged);
}

#[test]
fn toggle_twice_returns_to_hidden() {
    let mut grid = Grid::with_mines(3, &[(1, 1)]);
    grid.toggle_flag(2, 0);
    grid.toggle_flag(2, 0);
    assert_eq!(state_at(&grid, 2, 0), CellState::Hidden);
}

#[test]
fn toggle_on_a_revealed_cell_is_a_no_op() {
    let mut grid = Grid::with_mines(3, &[(1, 1)]);
    grid.reveal_at(0, 0);
    for _ in 0..5 {
        grid.toggle_flag(0, 0);
        assert_eq!(state_at(&grid, 0, 0), CellState::Revealed);
    }
}

#[test]
fn toggle_touches_one_cell_only() {
    let mut grid = Grid::with_mines(3, &[(1, 1)]);
    grid.reveal_at(2, 2);
    grid.toggle_flag(1, 1);
    for r in 0..3 {
        for c in 0..3 {
            let expected = if (r, c) == (1, 1) {
                CellState::Flagged
            } else if (r, c) == (2, 2) {
                CellState::Revealed
            } else {
                CellState::Hidden
            };
            assert_eq!(state_at(&grid, r, c), expected);
        }
    }
}

#[test]
fn toggle_keeps_the_counts() {
    let mut grid = Grid::with_mines(3, &[(1, 1)]);
    grid.toggle_flag(1, 1);
    grid.toggle_flag(0, 1);
    assert_eq!(grid.cell(1, 1).unwrap().mine_count, -1);
    assert_eq!(grid.cell(0, 1).unwrap().mine_count, 1);
    assert!(grid.is_mine(1, 1));
}

#[test]
fn a_mine_can_be_flagged() {
    let mut grid = Grid::with_mines(2, &[(0, 0)]);
    grid.toggle_flag(0, 0);
    assert_eq!(state_at(&grid, 0, 0), CellState::Flagged);
}

#[test]
fn state_toggle_cycle() {
    assert_eq!(CellState::Hidden.toggled(), CellState::Flagged);
    assert_eq!(CellState::Flagged.toggled(), CellState::Hidden);
    assert_eq!(CellState::Revealed.toggled(), CellState::Revealed);
    assert_eq!(CellState::Hidden.toggled().toggled(), CellState::Hidden);
}

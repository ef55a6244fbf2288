use minesweeper::cell::{CellState, MINE};
use minesweeper::grid::Grid;
use minesweeper::random::random_positions;

fn mine_count_of(grid: &Grid) -> usize {
    let mut mines = 0;
    for r in 0..grid.size() {
        for c in 0..grid.size() {
            if grid.cell(r, c).unwrap().mine_count == MINE {
                mines += 1;
            }
        }
    }
    mines
}

fn mines_around(grid: &Grid, row: usize, col: usize) -> i32 {
    let mut found = 0;
    for dr in [-1i64, 0, 1] {
        for dc in [-1i64, 0, 1] {
            if dr == 0 && dc == 0 {
                continue;
            }
            let r = row as i64 + dr;
            let c = col as i64 + dc;
            if r >= 0 && c >= 0 {
                if let Some(cell) = grid.cell(r as usize, c as usize) {
                    if cell.mine_count == MINE {
                        found += 1;
                    }
                }
            }
        }
    }
    found
}

#[test]
fn random_positions_lie_on_the_board() {
    let mines = random_positions(5, 400);
    assert_eq!(mines.len(), 400);
    for &(row, col) in &mines {
        assert!(row < 5);
        assert!(col < 5);
    }
}

#[test]
fn random_positions_on_a_single_cell() {
    assert_eq!(random_positions(1, 3), vec![(0, 0), (0, 0), (0, 0)]);
}

#[test]
fn no_positions_asked_for() {
    assert_eq!(random_positions(0, 0), vec![]);
    assert_eq!(random_positions(9, 0), vec![]);
}

#[test]
fn new_grid_has_at_most_the_mines_asked_for() {
    for _ in 0..20 {
        let grid = Grid::new(20, 20);
        assert_eq!(grid.size(), 20);
        let mines = mine_count_of(&grid);
        assert!(mines >= 1);
        assert!(mines <= 20);
    }
}

#[test]
fn new_grid_is_hidden_and_counted() {
    let grid = Grid::new(12, 30);
    for r in 0..12 {
        for c in 0..12 {
            let cell = grid.cell(r, c).unwrap();
            assert_eq!(cell.state, CellState::Hidden);
            if cell.mine_count != MINE {
                assert_eq!(cell.mine_count, mines_around(&grid, r, c));
            }
        }
    }
}

#[test]
fn crowded_grid_collapses_repeated_positions() {
    let grid = Grid::new(2, 100);
    let mines = mine_count_of(&grid);
    assert!(mines >= 1);
    assert!(mines <= 4);
}

#[test]
fn new_grid_without_mines() {
    let grid = Grid::new(6, 0);
    assert_eq!(mine_count_of(&grid), 0);
    let empty = Grid::new(0, 0);
    assert_eq!(empty.size(), 0);
}

#[test]
fn mines_do_not_move_during_play() {
    let mut grid = Grid::new(10, 12);
    let before = mine_count_of(&grid);
    for r in 0..10 {
        for c in 0..10 {
            if !grid.is_mine(r, c) {
                grid.reveal_at(r, c);
            } else {
                grid.toggle_flag(r, c);
            }
        }
    }
    assert_eq!(mine_count_of(&grid), before);
}

use minesweeper::cell::CellState;
use minesweeper::grid::Grid;
use minesweeper::play::{Button, Outcome};

fn states_of(grid: &Grid) -> Vec<CellState> {
    let mut states = Vec::new();
    for r in 0..grid.size() {
        for c in 0..grid.size() {
            states.push(grid.cell(r, c).unwrap().state);
        }
    }
    states
}

#[test]
fn primary_click_on_a_mine_loses() {
    let mut grid = Grid::with_mines(3, &[(1, 1)]);
    assert_eq!(grid.click(1, 1, Button::Primary), Outcome::Lost);
    assert_eq!(states_of(&grid), vec![CellState::Hidden; 9]);
}

#[test]
fn primary_click_on_a_flagged_mine_still_loses() {
    let mut grid = Grid::with_mines(3, &[(1, 1)]);
    assert_eq!(grid.click(1, 1, Button::Secondary), Outcome::Continue);
    assert_eq!(grid.click(1, 1, Button::Primary), Outcome::Lost);
    assert_eq!(grid.cell(1, 1).unwrap().state, CellState::Flagged);
}

#[test]
fn primary_click_on_a_safe_cell_reveals_it() {
    let mut grid = Grid::with_mines(3, &[(1, 1)]);
    assert_eq!(grid.click(0, 2, Button::Primary), Outcome::Continue);
    let mut expected = vec![CellState::Hidden; 9];
    expected[2] = CellState::Revealed;
    assert_eq!(states_of(&grid), expected);
}

#[test]
fn primary_click_on_empty_ground_cascades() {
    let mut grid = Grid::with_mines(4, &[]);
    assert_eq!(grid.click(3, 3, Button::Primary), Outcome::Continue);
    assert_eq!(states_of(&grid), vec![CellState::Revealed; 16]);
}

#[test]
fn primary_click_on_a_flagged_safe_cell_changes_nothing() {
    let mut grid = Grid::with_mines(3, &[]);
    grid.click(1, 1, Button::Secondary);
    assert_eq!(grid.click(1, 1, Button::Primary), Outcome::Continue);
    let mut expected = vec![CellState::Hidden; 9];
    expected[4] = CellState::Flagged;
    assert_eq!(states_of(&grid), expected);
}

#[test]
fn secondary_click_toggles_the_flag() {
    let mut grid = Grid::with_mines(3, &[(1, 1)]);
    assert_eq!(grid.click(0, 0, Button::Secondary), Outcome::Continue);
    assert_eq!(grid.cell(0, 0).unwrap().state, CellState::Flagged);
    assert_eq!(grid.click(0, 0, Button::Secondary), Outcome::Continue);
    assert_eq!(grid.cell(0, 0).unwrap().state, CellState::Hidden);
}

#[test]
fn secondary_click_on_a_mine_never_loses() {
    let mut grid = Grid::with_mines(2, &[(0, 1)]);
    assert_eq!(grid.click(0, 1, Button::Secondary), Outcome::Continue);
}

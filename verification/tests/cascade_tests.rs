use minesweeper::cell::{CellState, MINE};
use minesweeper::grid::Grid;

fn shown(grid: &Grid) -> Vec<String> {
    let mut rows = Vec::new();
    for r in 0..grid.size() {
        let mut row = String::new();
        for c in 0..grid.size() {
            row.push(match grid.cell(r, c).unwrap().state {
                CellState::Hidden => 'H',
                CellState::Flagged => 'F',
                CellState::Revealed => 'R',
            });
        }
        rows.push(row);
    }
    rows
}

fn counts_in(grid: &Grid) -> Vec<i32> {
    let mut counts = Vec::new();
    for r in 0..grid.size() {
        for c in 0..grid.size() {
            counts.push(grid.cell(r, c).unwrap().mine_count);
        }
    }
    counts
}

#[test]
fn four_by_four_without_mines_is_fully_revealed() {
    let mut grid = Grid::with_mines(4, &[]);
    grid.reveal_at(0, 0);
    for r in 0..4 {
        for c in 0..4 {
            let cell = grid.cell(r, c).unwrap();
            assert_eq!(cell.state, CellState::Revealed);
            assert_eq!(cell.mine_count, 0);
        }
    }
}

#[test]
fn numbered_cell_is_revealed_alone() {
    let mut grid = Grid::with_mines(3, &[(1, 1)]);
    grid.reveal_at(0, 0);
    assert_eq!(shown(&grid), vec!["RHH", "HHH", "HHH"]);
    assert_eq!(grid.cell(0, 0).unwrap().mine_count, 1);
}

#[test]
fn every_corner_of_an_empty_grid_reveals_all() {
    for &(r, c) in &[(0, 0), (0, 5), (5, 0), (5, 5)] {
        let mut grid = Grid::with_mines(6, &[]);
        grid.reveal_at(r, c);
        assert_eq!(shown(&grid), vec!["RRRRRR"; 6]);
    }
}

#[test]
fn single_cell_grid() {
    let mut grid = Grid::with_mines(1, &[]);
    grid.reveal_at(0, 0);
    assert_eq!(shown(&grid), vec!["R"]);
}

#[test]
fn large_empty_grid_is_fully_revealed() {
    let mut grid = Grid::with_mines(300, &[]);
    grid.reveal_at(299, 0);
    for r in 0..300 {
        for c in 0..300 {
            assert_eq!(grid.cell(r, c).unwrap().state, CellState::Revealed);
        }
    }
}

#[test]
fn cascade_stops_at_numbered_cells() {
    let mut grid = Grid::with_mines(5, &[(4, 4)]);
    grid.reveal_at(0, 0);
    assert_eq!(shown(&grid), vec!["RRRRR", "RRRRR", "RRRRR", "RRRRR", "RRRRH"]);
}

#[test]
fn cascade_does_not_cross_diagonals() {
    let mut grid = Grid::with_mines(5, &[(0, 3), (2, 4), (3, 0)]);
    assert_eq!(grid.cell(1, 1).unwrap().mine_count, 0);
    assert_eq!(grid.cell(2, 2).unwrap().mine_count, 0);
    grid.reveal_at(0, 0);
    assert_eq!(shown(&grid), vec!["RRRHH", "RRRHH", "RRHHH", "HHHHH", "HHHHH"]);
}

#[test]
fn cascade_from_the_other_side_of_the_diagonal() {
    let mut grid = Grid::with_mines(5, &[(0, 3), (2, 4), (3, 0)]);
    grid.reveal_at(4, 4);
    assert_eq!(shown(&grid), vec!["HHHHH", "HHRHH", "HRRRH", "HRRRR", "HRRRR"]);
}

#[test]
fn flagged_cells_stop_the_cascade_and_stay_flagged() {
    let mut grid = Grid::with_mines(3, &[]);
    grid.toggle_flag(0, 1);
    grid.toggle_flag(1, 0);
    grid.reveal_at(0, 0);
    assert_eq!(shown(&grid), vec!["RFH", "FHH", "HHH"]);
}

#[test]
fn cascade_flows_around_a_flag() {
    let mut grid = Grid::with_mines(3, &[]);
    grid.toggle_flag(1, 1);
    grid.reveal_at(0, 0);
    assert_eq!(shown(&grid), vec!["RRR", "RFR", "RRR"]);
}

#[test]
fn revealing_a_flagged_cell_does_nothing() {
    let mut grid = Grid::with_mines(3, &[]);
    grid.toggle_flag(1, 1);
    grid.reveal_at(1, 1);
    assert_eq!(shown(&grid), vec!["HHH", "HFH", "HHH"]);
}

#[test]
fn revealing_a_revealed_cell_does_nothing() {
    let mut grid = Grid::with_mines(3, &[(1, 1)]);
    grid.reveal_at(0, 0);
    grid.reveal_at(0, 0);
    assert_eq!(shown(&grid), vec!["RHH", "HHH", "HHH"]);
}

#[test]
fn revealing_a_mine_does_nothing() {
    let mut grid = Grid::with_mines(3, &[(1, 1)]);
    grid.reveal_at(1, 1);
    assert_eq!(shown(&grid), vec!["HHH", "HHH", "HHH"]);
}

#[test]
fn second_reveal_picks_up_where_a_flag_was() {
    let mut grid = Grid::with_mines(4, &[(3, 3)]);
    grid.toggle_flag(0, 1);
    grid.toggle_flag(1, 0);
    grid.reveal_at(0, 0);
    assert_eq!(shown(&grid), vec!["RFHH", "FHHH", "HHHH", "HHHH"]);
    grid.toggle_flag(0, 1);
    grid.reveal_at(0, 1);
    assert_eq!(shown(&grid), vec!["RRRR", "FRRR", "RRRR", "RRRH"]);
}

#[test]
fn counts_and_mines_survive_a_reveal() {
    let mut grid = Grid::with_mines(5, &[(0, 3), (2, 4), (3, 0)]);
    let before = counts_in(&grid);
    grid.reveal_at(0, 0);
    grid.reveal_at(4, 4);
    grid.reveal_at(2, 4);
    assert_eq!(counts_in(&grid), before);
    assert_eq!(before.iter().filter(|&&count| count == MINE).count(), 3);
}

#[test]
fn grid_keeps_its_size_after_a_reveal() {
    let mut grid = Grid::with_mines(7, &[(3, 3)]);
    grid.reveal_at(6, 6);
    assert_eq!(grid.size(), 7);
    assert_eq!(grid.cell(7, 7), None);
}

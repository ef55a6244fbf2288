//! What a window needs to show the grid and to take clicks: how a cell is
//! painted, and which cell lies under a pixel.

use vstd::prelude::*;
use crate::cell::{Cell, CellState, MINE};

verus! {

/// The colours of the game.
#[derive(Clone, Copy, Debug, PartialEq, Eq, Structural)]
pub enum Paint {
    Red,
    White,
    Blue,
    Green,
    Purple,
    Orange,
    Yellow,
    Pink,
    Brown,
    Gray,
    DarkGray,
    Black,
}

/// The colour in which a count is written: red for a mine, white for zero,
/// a colour of its own for each count from one to eight, black for
/// anything else.
pub open spec fn spec_count_paint(count: i32) -> Paint {
    if count == MINE {
        Paint::Red
    } else if count == 0 {
        Paint::White
    } else if count == 1 {
        Paint::Blue
    } else if count == 2 {
        Paint::Green
    } else if count == 3 {
        Paint::Purple
    } else if count == 4 {
        Paint::Orange
    } else if count == 5 {
        Paint::Yellow
    } else if count == 6 {
        Paint::Pink
    } else if count == 7 {
        Paint::Brown
    } else if count == 8 {
        Paint::Gray
    } else {
        Paint::Black
    }
}

/// The colour in which a count is written.
#[verifier::when_used_as_spec(spec_count_paint)]
pub fn count_paint(count: i32) -> (paint: Paint)
    ensures
        paint == spec_count_paint(count),
{
    match count {
        -1 => Paint::Red,
        0 => Paint::White,
        1 => Paint::Blue,
        2 => Paint::Green,
        3 => Paint::Purple,
        4 => Paint::Orange,
        5 => Paint::Yellow,
        6 => Paint::Pink,
        7 => Paint::Brown,
        8 => Paint::Gray,
        _ => Paint::Black,
    }
}

/// A count written on a cell, and the colour of the writing.
#[derive(Clone, Copy, Debug, PartialEq, Eq, Structural)]
pub struct Label {
    pub count: i32,
    pub ink: Paint,
}

/// How one cell is drawn: the colour of its square, and for a revealed
/// cell the count written on it.
#[derive(Clone, Copy, Debug, PartialEq, Eq, Structural)]
pub struct Tile {
    pub fill: Paint,
    pub label: Option<Label>,
}

/// A hidden cell is a gray square and a flagged one a red square, whatever
/// lies under them. A revealed cell is a dark gray square with its count
/// written on it.
pub open spec fn spec_tile_of(cell: Cell) -> Tile {
    match cell.state {
        CellState::Hidden => Tile { fill: Paint::Gray, label: None },
        CellState::Flagged => Tile { fill: Paint::Red, label: None },
        CellState::Revealed => Tile {
            fill: Paint::DarkGray,
            label: Some(
                Label { count: cell.mine_count, ink: spec_count_paint(cell.mine_count) },
            ),
        },
    }
}

/// How one cell is drawn.
#[verifier::when_used_as_spec(spec_tile_of)]
pub fn tile_of(cell: Cell) -> (tile: Tile)
    ensures
        tile == spec_tile_of(cell),
{
    match cell.state {
        CellState::Hidden => Tile { fill: Paint::Gray, label: None },
        CellState::Flagged => Tile { fill: Paint::Red, label: None },
        CellState::Revealed => Tile {
            fill: Paint::DarkGray,
            label: Some(Label { count: cell.mine_count, ink: count_paint(cell.mine_count) }),
        },
    }
}

/// The row or column under a pixel coordinate, in a window `window` pixels
/// wide that shows `size` cells side by side, each `window / size` pixels
/// wide. `None` if the pixel lies on no cell.
pub open spec fn spec_cell_under(pixel: i32, window: usize, size: usize) -> Option<usize> {
    let width = if size > 0 {
        (window as int) / (size as int)
    } else {
        0
    };
    if width > 0 && pixel >= 0 && (pixel as int) / width < (size as int) {
        Some(((pixel as int) / width) as usize)
    } else {
        None
    }
}

/// The row or column under a pixel coordinate.
#[verifier::when_used_as_spec(spec_cell_under)]
pub fn cell_under(pixel: i32, window: usize, size: usize) -> (index: Option<usize>)
    ensures
        index == spec_cell_under(pixel, window, size),
        index matches Some(i) ==> i < size,
{
    if size == 0 || pixel < 0 {
        return None;
    }
    let width = window / size;
    if width == 0 {
        return None;
    }
    let index = pixel as usize / width;
    if index < size {
        Some(index)
    } else {
        None
    }
}

/// Two different counts from mine to eight are never written in the same
/// colour.
pub proof fn lemma_count_paints_differ(a: i32, b: i32)
    requires
        MINE <= a <= 8,
        MINE <= b <= 8,
        a != b,
    ensures
        count_paint(a) != count_paint(b),
{
}

} // verus!

//! An earlier, smaller take on the board and pieces, kept alongside the main
//! model: unsigned first-quadrant points, a board that reports its complete
//! lines, and rectangle and tee pieces.

use vstd::prelude::*;

/// The playing board.
pub mod canvas;

/// Each of line, square, rectangle are all implemented using the rectangle
/// module.
pub mod rectangle;

/// The T shaped piece.
pub mod tee;

verus! {

/// The smallest component of a piece.
#[derive(Copy, Clone, PartialEq, Eq, Structural, Debug)]
pub struct Point {
    pub x: usize,
    pub y: usize,
}

} // verus!

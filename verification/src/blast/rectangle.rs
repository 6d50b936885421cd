//! Axis-aligned rectangles of cells, rows built bottom-up.

use vstd::prelude::*;
use crate::blast::Point;

verus! {

/// All squares/rectangles must be no longer than `LONGEST_RECTANGLE_EDGE`
/// on either edge.
pub const LONGEST_RECTANGLE_EDGE: usize = 5;

/// One row of a rectangle: `width` cells at height `i`.
pub open spec fn grid_row(i: int, width: int) -> Seq<Point> {
    Seq::new(width as nat, |j: int| Point { x: i as usize, y: j as usize })
}

/// The point list of a rectangle of `height` rows and `width` columns, row
/// by row from the bottom.
pub open spec fn grid_pts(height: int, width: int) -> Seq<Point>
    decreases height,
{
    if height <= 0 {
        Seq::empty()
    } else {
        grid_pts(height - 1, width) + grid_row(height - 1, width)
    }
}

/// A filled rectangle of cells.
pub struct Rectangle {
    coords: Vec<Point>,
}

impl Rectangle {
    /// The rectangle's point list.
    pub closed spec fn points(&self) -> Seq<Point> {
        self.coords@
    }

    /// Build the `height` by `width` rectangle. The size is bounded only to
    /// keep the pieces playable.
    pub fn new(height: usize, width: usize) -> (r: Self)
        requires
            height <= LONGEST_RECTANGLE_EDGE,
            width <= LONGEST_RECTANGLE_EDGE,
        ensures
            r.points() == grid_pts(height as int, width as int),
    {
        let mut coords: Vec<Point> = Vec::new();
        proof {
            assert(coords@ =~= grid_pts(0, width as int));
        }
        for i in 0..height
            invariant
                height <= LONGEST_RECTANGLE_EDGE,
                width <= LONGEST_RECTANGLE_EDGE,
                coords@ == grid_pts(i as int, width as int),
        {
            let ghost before_row = coords@;
            for j in 0..width
                invariant
                    i < height <= LONGEST_RECTANGLE_EDGE,
                    width <= LONGEST_RECTANGLE_EDGE,
                    before_row == grid_pts(i as int, width as int),
                    coords@ == before_row + grid_row(i as int, j as int),
            {
                coords.push(Point { x: i, y: j });
                proof {
                    assert(coords@ =~= before_row + grid_row(i as int, j + 1));
                }
            }
            proof {
                assert(coords@ == grid_pts(i + 1, width as int));
            }
        }
        Rectangle { coords }
    }

    /// The point list, for rendering and inspection.
    pub fn coordinates(&self) -> (r: &Vec<Point>)
        ensures
            r@ == self.points(),
    {
        &self.coords
    }
}

} // verus!

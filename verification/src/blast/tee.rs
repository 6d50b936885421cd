//! The T shaped piece.

use vstd::prelude::*;
use crate::blast::Point;

verus! {

/// The four cells of the tee: three in a row and one on top of the middle.
pub open spec fn tee_points() -> Seq<Point> {
    seq![
        Point { x: 0, y: 0 },
        Point { x: 1, y: 0 },
        Point { x: 2, y: 0 },
        Point { x: 1, y: 1 },
    ]
}

/// A 'T' shaped piece.
pub struct Tee {
    coords: Vec<Point>,
}

impl Tee {
    /// The tee's point list.
    pub closed spec fn points(&self) -> Seq<Point> {
        self.coords@
    }

    /// Build the tee; tees are always the same size.
    pub fn new() -> (r: Tee)
        ensures
            r.points() == tee_points(),
    {
        let mut coords: Vec<Point> = Vec::new();
        coords.push(Point { x: 0, y: 0 });
        coords.push(Point { x: 1, y: 0 });
        coords.push(Point { x: 2, y: 0 });
        coords.push(Point { x: 1, y: 1 });
        proof {
            assert(coords@ =~= tee_points());
        }
        Tee { coords }
    }

    /// The point list, for rendering and inspection.
    pub fn coordinates(&self) -> (r: &Vec<Point>)
        ensures
            r@ == self.points(),
    {
        &self.coords
    }
}

} // verus!

//! The contents of a single intersection and the two players.

use vstd::prelude::*;

verus! {

/// What one intersection of the board holds.
#[derive(Copy, Clone, PartialEq, Eq, Debug, Structural)]
pub enum Point {
    Black,
    White,
    Empty,
}

/// A colour that can be placed on the board.
#[derive(Copy, Clone, PartialEq, Eq, Debug, Structural)]
pub enum Stone {
    Black,
    White,
}

/// The player who moves next.
#[derive(Copy, Clone, PartialEq, Eq, Debug, Structural)]
pub enum Turn {
    Black,
    White,
}

/// The colour facing `point`, if `point` is a stone.
pub open spec fn spec_opposite(point: Point) -> Option<Point> {
    match point {
        Point::Black => Some(Point::White),
        Point::White => Some(Point::Black),
        Point::Empty => None,
    }
}

/// The colour facing `point`; `None` for an empty intersection.
pub fn opposite(point: Point) -> (r: Option<Point>)
    ensures
        r == spec_opposite(point),
{
    match point {
        Point::Black => Some(Point::White),
        Point::White => Some(Point::Black),
        Point::Empty => None,
    }
}

} // verus!

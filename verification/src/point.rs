//! Grid points and the Manhattan distance between them.

use vstd::math::abs;
use vstd::prelude::*;

verus! {

/// A grid point as a mathematical value: a pair of unbounded integers.
pub struct PointModel {
    pub x: int,
    pub y: int,
}

impl PointModel {
    /// The sum of the absolute differences of the two coordinates.
    pub open spec fn manhattan_distance_point(self, other: PointModel) -> nat {
        abs(self.x - other.x) + abs(self.y - other.y)
    }
}

/// A point of the grid. A plain value: it is never changed once made.
#[derive(Clone, Copy, Debug, PartialEq, Eq, Structural)]
pub struct Point {
    pub x: i64,
    pub y: i64,
}

impl View for Point {
    type V = PointModel;

    open spec fn view(&self) -> PointModel {
        PointModel { x: self.x as int, y: self.y as int }
    }
}

/// The distance between two coordinates on one axis.
pub(crate) fn span(a: i64, b: i64) -> (r: u64)
    ensures
        r == abs(a - b),
{
    if a >= b {
        (a as i128 - b as i128) as u64
    } else {
        (b as i128 - a as i128) as u64
    }
}

impl Point {
    /// Makes the point `(x, y)`.
    pub fn new(x: i64, y: i64) -> (p: Point)
        ensures
            p@ == (PointModel { x: x as int, y: y as int }),
    {
        Point { x, y }
    }

    /// The horizontal coordinate.
    pub fn x(&self) -> (r: i64)
        ensures
            r == self@.x,
    {
        self.x
    }

    /// The vertical coordinate.
    pub fn y(&self) -> (r: i64)
        ensures
            r == self@.y,
    {
        self.y
    }

    /// The Manhattan distance to `other`. It is wider than a coordinate, so
    /// that every pair of points has one.
    pub fn manhattan_distance_point(&self, other: &Point) -> (d: u128)
        ensures
            d == self@.manhattan_distance_point(other@),
            d == 0 <==> self@ == other@,
    {
        span(self.x, other.x) as u128 + span(self.y, other.y) as u128
    }
}

} // verus!

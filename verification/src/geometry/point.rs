//! Points, offsets and the rotation transform used when drawing a room.
//!
//! A `Point` addresses a cell of a canvas (or a room of a grid); an `Offset`
//! translates points; a `Transform` rotates the coordinates of a unit cell so
//! that one wall-drawing routine serves all four edges of a room.

use super::Direction;
use vstd::prelude::*;

verus! {

/// A pair of non-negative coordinates `(x, y)`.
#[derive(Default, Clone, Copy, PartialEq, Eq, Debug, Structural)]
pub struct Point(pub usize, pub usize);

impl Point {
    /// Whether the point lies strictly inside the rectangle spanned from the
    /// origin to `other` (exclusive on both axes).
    pub open spec fn within_spec(self, other: Point) -> bool {
        self.0 < other.0 && self.1 < other.1
    }

    /// Whether the point lies strictly inside the rectangle with corner `other`.
    pub fn within(self, other: Point) -> (r: bool)
        ensures
            r == self.within_spec(other),
    {
        self.0 < other.0 && self.1 < other.1
    }

    /// Whether the point lies inside the rectangle with corner `other`,
    /// the boundary included.
    pub open spec fn bounded_by_spec(self, other: Point) -> bool {
        self.0 <= other.0 && self.1 <= other.1
    }

    /// Whether the point lies inside the rectangle with corner `other`,
    /// the boundary included.
    pub fn bounded_by(self, other: Point) -> (r: bool)
        ensures
            r == self.bounded_by_spec(other),
    {
        self.0 <= other.0 && self.1 <= other.1
    }

    /// Where a point of a `width`-sized square cell lands after the cell is
    /// rotated so that its bottom edge becomes the edge facing `direction`.
    pub open spec fn transform_spec(self, width: usize, direction: Direction) -> Point {
        match direction {
            Direction::North => Point(
                (width - self.0 - 1) as usize,
                (width - self.1 - 1) as usize,
            ),
            Direction::East => Point((width - self.1 - 1) as usize, self.0),
            Direction::South => self,
            Direction::West => Point(self.1, (width - self.0 - 1) as usize),
        }
    }

    /// Rotates the point inside a `width`-sized square cell towards `direction`.
    pub fn transform(self, width: usize, direction: Direction) -> (r: Point)
        requires
            self.0 < width,
            self.1 < width,
        ensures
            r == self.transform_spec(width, direction),
            r.0 < width,
            r.1 < width,
    {
        match direction {
            Direction::North => Point(width - self.0 - 1, width - self.1 - 1),
            Direction::East => Point(width - self.1 - 1, self.0),
            Direction::South => self,
            Direction::West => Point(self.1, width - self.0 - 1),
        }
    }

    /// Translates the point by an offset.
    pub fn translate(self, rhs: Offset) -> (r: Point)
        requires
            self.0 + rhs.0 <= usize::MAX,
            self.1 + rhs.1 <= usize::MAX,
        ensures
            r.0 == self.0 + rhs.0,
            r.1 == self.1 + rhs.1,
    {
        Point(self.0 + rhs.0, self.1 + rhs.1)
    }
}

/// A pair of non-negative deltas, used to translate points.
#[derive(Default, Clone, Copy, PartialEq, Eq, Debug, Structural)]
pub struct Offset(pub usize, pub usize);

impl Offset {
    /// Composes two offsets by adding their components.
    pub fn compose(self, rhs: Offset) -> (r: Offset)
        requires
            self.0 + rhs.0 <= usize::MAX,
            self.1 + rhs.1 <= usize::MAX,
        ensures
            r.0 == self.0 + rhs.0,
            r.1 == self.1 + rhs.1,
    {
        Offset(self.0 + rhs.0, self.1 + rhs.1)
    }
}

/// An (edge length, direction) pair: the rotation that maps the coordinates
/// of a square cell onto the edge of a room facing that direction.
#[derive(Clone, Copy, PartialEq, Eq, Debug, Structural)]
pub struct Transform {
    pub width: usize,
    pub direction: Direction,
}

impl Transform {
    /// Makes the rotation for a cell of edge length `width` towards `direction`.
    pub fn new(width: usize, direction: Direction) -> (r: Transform)
        ensures
            r.width == width,
            r.direction == direction,
    {
        Transform { width, direction }
    }

    /// Applies the rotation to a point of the cell.
    pub fn apply(self, p: Point) -> (r: Point)
        requires
            p.0 < self.width,
            p.1 < self.width,
        ensures
            r == p.transform_spec(self.width, self.direction),
            r.0 < self.width,
            r.1 < self.width,
    {
        p.transform(self.width, self.direction)
    }
}

} // verus!

//! Geometry primitives: the four cardinal directions and their canonical
//! order, together with the point, offset and rotation types used by the
//! canvas renderer.

pub mod point;

pub use point::Offset;
pub use point::Point;
pub use point::Transform;

use vstd::prelude::*;

verus! {

/// One of the four cardinal directions a room can border on.
#[derive(Clone, Copy, PartialEq, Eq, Debug, Structural)]
pub enum Direction {
    North,
    East,
    South,
    West,
}

impl Direction {
    /// The opposite direction.
    pub open spec fn flip_spec(self) -> Direction {
        match self {
            Direction::North => Direction::South,
            Direction::East => Direction::West,
            Direction::South => Direction::North,
            Direction::West => Direction::East,
        }
    }

    /// Returns the opposite direction.
    pub fn flip(self) -> (r: Direction)
        ensures
            r == self.flip_spec(),
    {
        match self {
            Direction::North => Direction::South,
            Direction::East => Direction::West,
            Direction::South => Direction::North,
            Direction::West => Direction::East,
        }
    }

    /// Flipping a direction twice yields the direction itself.
    pub proof fn lemma_flip_involution(self)
        ensures
            self.flip_spec().flip_spec() == self,
    {
    }

    /// The canonical iteration order of the directions.
    pub open spec fn order_spec() -> Seq<Direction> {
        seq![Direction::North, Direction::East, Direction::South, Direction::West]
    }

    /// Returns the directions in canonical order: North, East, South, West.
    pub fn iter() -> (r: Vec<Direction>)
        ensures
            r@ == Direction::order_spec(),
    {
        let mut v: Vec<Direction> = Vec::new();
        v.push(Direction::North);
        v.push(Direction::East);
        v.push(Direction::South);
        v.push(Direction::West);
        proof {
            assert(v@ =~= Direction::order_spec());
        }
        v
    }
}

} // verus!

//! The labyrinth itself: a rectangular grid of rooms whose shared walls are
//! a single logical entity, always seen identically from both sides.

pub mod flat;

pub use flat::FlatLabyrinth;
pub use flat::Room;

use vstd::prelude::*;

verus! {

/// Why a checked wall mutation was refused.  These conditions are
/// programming-contract violations: the unchecked mutators exclude them by
/// precondition, the checked ones report them without touching the grid.
#[derive(Clone, Copy, PartialEq, Eq, Debug, Structural)]
pub enum WallError {
    /// The room has no neighbour in the requested direction.
    NoNeighbour,
    /// The edge already carries a wall.
    AlreadyWalled,
    /// The edge carries no wall.
    AlreadyOpen,
}

} // verus!

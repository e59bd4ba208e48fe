//! Compass directions of the flow field.

use vstd::prelude::*;

verus! {

/// The direction in which an agent leaves a cell.
///
/// `Stay` marks a cell from which no neighbour is cheaper: the goal itself,
/// or a dead end.
#[derive(Clone, Copy, Debug, PartialEq, Eq, Structural)]
pub enum FlowDirection {
    North,
    South,
    East,
    West,
    Stay,
}

/// A step of length one or zero along the world axes (`y` grows upward).
#[derive(Clone, Copy, Debug, PartialEq, Eq, Structural)]
pub struct FlowVector {
    pub x: i32,
    pub y: i32,
}

impl FlowDirection {
    /// Column offset of the neighbouring cell in this direction.
    pub open spec fn dx(self) -> int {
        match self {
            FlowDirection::East => 1,
            FlowDirection::West => -1,
            _ => 0,
        }
    }

    /// Row offset of the neighbouring cell in this direction. Rows are
    /// numbered downward, so north is the row above.
    pub open spec fn dy(self) -> int {
        match self {
            FlowDirection::South => 1,
            FlowDirection::North => -1,
            _ => 0,
        }
    }

    /// The direction that leads back.
    pub open spec fn opposite(self) -> FlowDirection {
        match self {
            FlowDirection::North => FlowDirection::South,
            FlowDirection::South => FlowDirection::North,
            FlowDirection::East => FlowDirection::West,
            FlowDirection::West => FlowDirection::East,
            FlowDirection::Stay => FlowDirection::Stay,
        }
    }

    /// Place of the direction in the order in which neighbours are weighed:
    /// east, west, south, north.
    pub open spec fn rank(self) -> int {
        match self {
            FlowDirection::East => 0,
            FlowDirection::West => 1,
            FlowDirection::South => 2,
            FlowDirection::North => 3,
            FlowDirection::Stay => 4,
        }
    }

    /// The unit vector of this direction in world axes.
    pub open spec fn vector(self) -> FlowVector {
        FlowVector { x: self.dx() as i32, y: (-self.dy()) as i32 }
    }

    /// Unit vector of the direction in world axes, where `y` grows upward:
    /// north is `(0, 1)`, south `(0, -1)`, east `(1, 0)`, west `(-1, 0)`,
    /// and `Stay` is the zero vector.
    pub fn to_vec2(&self) -> (v: FlowVector)
        ensures
            v == self.vector(),
    {
        match self {
            FlowDirection::North => FlowVector { x: 0, y: 1 },
            FlowDirection::South => FlowVector { x: 0, y: -1 },
            FlowDirection::East => FlowVector { x: 1, y: 0 },
            FlowDirection::West => FlowVector { x: -1, y: 0 },
            FlowDirection::Stay => FlowVector { x: 0, y: 0 },
        }
    }
}

} // verus!

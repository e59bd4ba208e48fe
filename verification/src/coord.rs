//! Grid coordinates.

use vstd::prelude::*;

verus! {

/// One cell of the grid: `x` grows to the right, `y` grows downward.
#[derive(Clone, Copy, Debug, PartialEq, Eq, Hash, Structural)]
pub struct GridCoord {
    pub x: u32,
    pub y: u32,
}

impl GridCoord {
    pub fn new(x: u32, y: u32) -> (c: GridCoord)
        ensures
            c == (GridCoord { x, y }),
    {
        GridCoord { x, y }
    }

    /// True when the cell lies inside a grid of `width` columns and `height` rows.
    pub open spec fn within(self, width: int, height: int) -> bool {
        self.x < width && self.y < height
    }
}

} // verus!

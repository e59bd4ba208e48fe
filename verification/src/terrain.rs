//! The mathematical model of a routing problem: a grid, its walkable tiles
//! and a goal, with the walking distance and the direction of descent that
//! follow from them.

use vstd::prelude::*;
use crate::coord::GridCoord;
use crate::direction::FlowDirection;

verus! {

/// Cost of a cell from which the goal cannot be reached.
pub const UNREACHABLE: u32 = u32::MAX;

/// Cost of one step between neighbouring cells.
pub const STEP_COST: u32 = 10;

/// The largest number of cells a field may have: every cost that a walk
/// through all of them can reach stays below [`UNREACHABLE`].
pub const MAX_CELLS: usize = 429_496_729;

/// A routing problem.
pub struct Terrain {
    /// Number of columns.
    pub width: nat,
    /// Number of rows.
    pub height: nat,
    /// The tiles agents may walk on, in any order.
    pub tiles: Seq<GridCoord>,
    /// The cell every agent heads for.
    pub goal: GridCoord,
}

/// The grid coordinate of column `x`, row `y`.
pub open spec fn cell(x: int, y: int) -> GridCoord {
    GridCoord { x: x as u32, y: y as u32 }
}

impl Terrain {
    /// The cell lies on the grid.
    pub open spec fn inside(self, x: int, y: int) -> bool {
        0 <= x < self.width && 0 <= y < self.height
    }

    /// The cell lies on the grid and is one of the walkable tiles.
    pub open spec fn walkable(self, x: int, y: int) -> bool {
        &&& self.inside(x, y)
        &&& x <= u32::MAX
        &&& y <= u32::MAX
        &&& self.tiles.contains(cell(x, y))
    }

    /// A walk of exactly `steps` steps leads from the goal to the cell. Each
    /// step moves to one of the four neighbours, and every cell entered is
    /// walkable. The goal itself need not be.
    pub open spec fn reaches(self, x: int, y: int, steps: nat) -> bool
        decreases steps,
    {
        if steps == 0 {
            x == self.goal.x && y == self.goal.y
        } else {
            &&& self.walkable(x, y)
            &&& (self.reaches(x + 1, y, (steps - 1) as nat)
                || self.reaches(x - 1, y, (steps - 1) as nat)
                || self.reaches(x, y + 1, (steps - 1) as nat)
                || self.reaches(x, y - 1, (steps - 1) as nat))
        }
    }

    /// Some walk leads from the goal to the cell.
    pub open spec fn reachable(self, x: int, y: int) -> bool {
        exists|k: nat| self.reaches(x, y, k)
    }

    /// `steps` is the length of a shortest walk from the goal to the cell.
    pub open spec fn nearest(self, x: int, y: int, steps: nat) -> bool {
        &&& self.reaches(x, y, steps)
        &&& forall|j: nat| j < steps ==> !self.reaches(x, y, j)
    }

    /// Length of a shortest walk from the goal to a reachable cell.
    pub open spec fn distance(self, x: int, y: int) -> nat {
        choose|k: nat| self.nearest(x, y, k)
    }

    /// Cost of the cell: the step cost times its distance from the goal, or
    /// the sentinel where no walk leads to it.
    pub open spec fn cost(self, x: int, y: int) -> int {
        if self.reachable(x, y) {
            STEP_COST * self.distance(x, y)
        } else {
            UNREACHABLE as int
        }
    }

    /// The better of `best` and the neighbour of `(x, y)` in direction
    /// `toward`: the neighbour wins only when it is walkable, reached from
    /// the goal and strictly cheaper.
    pub open spec fn pick(
        self,
        best: (FlowDirection, int),
        x: int,
        y: int,
        toward: FlowDirection,
    ) -> (FlowDirection, int) {
        let nx = x + toward.dx();
        let ny = y + toward.dy();
        if self.walkable(nx, ny) && self.reachable(nx, ny) && self.cost(nx, ny) < best.1 {
            (toward, self.cost(nx, ny))
        } else {
            best
        }
    }

    /// Direction of the cheapest walkable neighbour that the goal reaches
    /// and that is strictly cheaper than the cell itself, or `Stay` where
    /// there is none. Among equally cheap neighbours the first of east,
    /// west, south, north wins.
    pub open spec fn descent(self, x: int, y: int) -> FlowDirection {
        let own = (FlowDirection::Stay, self.cost(x, y));
        let east = self.pick(own, x, y, FlowDirection::East);
        let west = self.pick(east, x, y, FlowDirection::West);
        let south = self.pick(west, x, y, FlowDirection::South);
        self.pick(south, x, y, FlowDirection::North).0
    }

    /// What the direction field holds for the cell: the direction of descent
    /// on a walkable cell that the goal reaches, nothing elsewhere.
    pub open spec fn direction(self, x: int, y: int) -> Option<FlowDirection> {
        if self.walkable(x, y) && self.reachable(x, y) {
            Some(self.descent(x, y))
        } else {
            None
        }
    }

    /// Among the lengths of the walks to a cell there is a least one.
    pub proof fn lemma_nearest_exists(self, x: int, y: int, k: nat)
        requires
            self.reaches(x, y, k),
        ensures
            exists|d: nat| d <= k && self.nearest(x, y, d),
        decreases k,
    {
        if self.nearest(x, y, k) {
        } else {
            let j = choose|j: nat| j < k && self.reaches(x, y, j);
            self.lemma_nearest_exists(x, y, j);
            let d = choose|d: nat| d <= j && self.nearest(x, y, d);
            assert(d <= k && self.nearest(x, y, d));
        }
    }

    /// A shortest walk's length is the distance.
    pub proof fn lemma_distance_is(self, x: int, y: int, d: nat)
        requires
            self.nearest(x, y, d),
        ensures
            self.reachable(x, y),
            self.distance(x, y) == d,
            self.cost(x, y) == STEP_COST * d,
    {
        let c = self.distance(x, y);
        assert(self.nearest(x, y, c));
        if c < d {
            assert(!self.reaches(x, y, c));
        }
        if d < c {
            assert(!self.reaches(x, y, d));
        }
    }

    /// The distance of a reachable cell is the length of a walk to it, and
    /// no walk is shorter.
    pub proof fn lemma_distance_nearest(self, x: int, y: int)
        requires
            self.reachable(x, y),
        ensures
            self.nearest(x, y, self.distance(x, y)),
    {
        let k = choose|k: nat| self.reaches(x, y, k);
        self.lemma_nearest_exists(x, y, k);
    }

    /// No cost is negative.
    pub proof fn lemma_cost_nonnegative(self, x: int, y: int)
        ensures
            0 <= self.cost(x, y),
    {
        assert(0 <= STEP_COST * self.distance(x, y)) by (nonlinear_arith)
            requires
                0 <= self.distance(x, y),
        ;
    }

    /// The cost of a cell is the sentinel exactly when no walk leads to it.
    pub proof fn lemma_cost_tells_reach(self, x: int, y: int)
        ensures
            self.reachable(x, y) <==> self.cost(x, y) != UNREACHABLE,
    {
        let d = self.distance(x, y);
        assert((STEP_COST * d) % (STEP_COST as int) == 0) by (nonlinear_arith)
            requires
                0 <= d,
        ;
    }

    /// The goal costs nothing, and nothing leads away from it.
    pub proof fn lemma_goal_is_free(self)
        ensures
            self.cost(self.goal.x as int, self.goal.y as int) == 0,
            self.descent(self.goal.x as int, self.goal.y as int) == FlowDirection::Stay,
            self.direction(self.goal.x as int, self.goal.y as int) == Some(FlowDirection::Stay)
                || self.direction(self.goal.x as int, self.goal.y as int).is_none(),
    {
        let x = self.goal.x as int;
        let y = self.goal.y as int;
        assert(self.reaches(x, y, 0));
        assert(self.nearest(x, y, 0));
        self.lemma_distance_is(x, y, 0);
        self.lemma_cost_nonnegative(x + 1, y);
        self.lemma_cost_nonnegative(x - 1, y);
        self.lemma_cost_nonnegative(x, y + 1);
        self.lemma_cost_nonnegative(x, y - 1);
    }

    /// Where a cell points, a walkable neighbour lies that the goal reaches
    /// and that costs strictly less than the cell, no more than any other
    /// such neighbour, and strictly less than those that come before it in
    /// the order east, west, south, north. Where it stays, no such neighbour
    /// costs less than the cell.
    pub proof fn lemma_descent_is_cheapest(self, x: int, y: int, other: FlowDirection)
        ensures
            ({
                let d = self.descent(x, y);
                let nx = x + d.dx();
                let ny = y + d.dy();
                let ox = x + other.dx();
                let oy = y + other.dy();
                &&& d != FlowDirection::Stay ==> self.walkable(nx, ny) && self.reachable(nx, ny)
                    && self.cost(nx, ny) < self.cost(x, y)
                &&& other != FlowDirection::Stay && self.walkable(ox, oy) && self.reachable(ox, oy)
                    ==> self.cost(nx, ny) <= self.cost(ox, oy)
                &&& d != FlowDirection::Stay && other != FlowDirection::Stay && self.walkable(ox, oy)
                    && self.reachable(ox, oy) && other.rank() < d.rank() ==> self.cost(nx, ny)
                    < self.cost(ox, oy)
            }),
    {
    }

    /// A walk of `k` steps to a cell bounds its cost by `k` step costs.
    pub proof fn lemma_walk_bounds_cost(self, x: int, y: int, k: nat)
        requires
            self.reaches(x, y, k),
        ensures
            self.reachable(x, y),
            self.cost(x, y) <= STEP_COST * k,
            self.cost(x, y) % (STEP_COST as int) == 0,
    {
        self.lemma_distance_nearest(x, y);
        let d = self.distance(x, y);
        if k < d {
            assert(!self.reaches(x, y, k));
        }
        assert(STEP_COST * d <= STEP_COST * k) by (nonlinear_arith)
            requires
                d <= k,
        ;
        assert((STEP_COST * d) % (STEP_COST as int) == 0) by (nonlinear_arith)
            requires
                0 <= d,
        ;
    }

    /// Every cell but the goal that a walk reaches is walkable, and one of
    /// its neighbours, the goal or a walkable cell, costs exactly one step
    /// cost less: the neighbour in the direction returned.
    pub proof fn lemma_cost_steps_down(self, x: int, y: int) -> (toward: FlowDirection)
        requires
            self.reachable(x, y),
            !(x == self.goal.x && y == self.goal.y),
        ensures
            self.walkable(x, y),
            toward != FlowDirection::Stay,
            self.reachable(x + toward.dx(), y + toward.dy()),
            self.walkable(x + toward.dx(), y + toward.dy()) || (x + toward.dx() == self.goal.x && y
                + toward.dy() == self.goal.y),
            self.cost(x + toward.dx(), y + toward.dy()) + STEP_COST == self.cost(x, y),
    {
        self.lemma_distance_nearest(x, y);
        let d = self.distance(x, y);
        assert(d > 0);
        let j = (d - 1) as nat;
        let toward = if self.reaches(x + 1, y, j) {
            FlowDirection::East
        } else if self.reaches(x - 1, y, j) {
            FlowDirection::West
        } else if self.reaches(x, y + 1, j) {
            FlowDirection::South
        } else {
            FlowDirection::North
        };
        self.lemma_neighbour_is_nearest(x, y, x + toward.dx(), y + toward.dy(), d);
        toward
    }

    /// A walkable neighbour of a cell that a walk reaches is reached too,
    /// and costs at most one step cost more.
    pub proof fn lemma_neighbour_costs_a_step(self, x: int, y: int, toward: FlowDirection)
        requires
            self.reachable(x, y),
            toward != FlowDirection::Stay,
            self.walkable(x + toward.dx(), y + toward.dy()),
        ensures
            self.reachable(x + toward.dx(), y + toward.dy()),
            self.cost(x + toward.dx(), y + toward.dy()) <= self.cost(x, y) + STEP_COST,
    {
        self.lemma_distance_nearest(x, y);
        let d = self.distance(x, y);
        let nx = x + toward.dx();
        let ny = y + toward.dy();
        assert(self.reaches(nx, ny, d + 1)) by {
            assert(self.reaches(x, y, ((d + 1) - 1) as nat));
        }
        self.lemma_walk_bounds_cost(nx, ny, d + 1);
        assert(STEP_COST * (d + 1) == STEP_COST * d + STEP_COST) by (nonlinear_arith);
    }

    /// The same grid and goal with the same tiles listed otherwise.
    pub open spec fn same_tiles(self, other: Terrain) -> bool {
        &&& self.width == other.width
        &&& self.height == other.height
        &&& self.goal == other.goal
        &&& self.tiles.to_set() == other.tiles.to_set()
    }

    /// Neither the order in which the tiles are listed nor how often a tile
    /// is listed matters: the same walks lead to the same cells.
    pub proof fn lemma_same_tiles_same_walks(self, other: Terrain, x: int, y: int, k: nat)
        requires
            self.same_tiles(other),
        ensures
            self.walkable(x, y) == other.walkable(x, y),
            self.reaches(x, y, k) == other.reaches(x, y, k),
        decreases k,
    {
        assert(self.tiles.contains(cell(x, y)) == self.tiles.to_set().contains(cell(x, y)));
        assert(other.tiles.contains(cell(x, y)) == other.tiles.to_set().contains(cell(x, y)));
        if k > 0 {
            let j = (k - 1) as nat;
            self.lemma_same_tiles_same_walks(other, x + 1, y, j);
            self.lemma_same_tiles_same_walks(other, x - 1, y, j);
            self.lemma_same_tiles_same_walks(other, x, y + 1, j);
            self.lemma_same_tiles_same_walks(other, x, y - 1, j);
        }
    }

    /// Neither the order in which the tiles are listed nor how often a tile
    /// is listed matters: every cell costs the same and points the same
    /// way.
    pub proof fn lemma_same_tiles_same_flow(self, other: Terrain, x: int, y: int)
        requires
            self.same_tiles(other),
        ensures
            self.reachable(x, y) == other.reachable(x, y),
            self.cost(x, y) == other.cost(x, y),
            self.descent(x, y) == other.descent(x, y),
            self.direction(x, y) == other.direction(x, y),
    {
        self.lemma_same_cost(other, x, y);
        self.lemma_same_cost(other, x + 1, y);
        self.lemma_same_cost(other, x - 1, y);
        self.lemma_same_cost(other, x, y + 1);
        self.lemma_same_cost(other, x, y - 1);
    }

    /// With the same tiles a cell is reached by both or by neither, and
    /// costs the same.
    proof fn lemma_same_cost(self, other: Terrain, x: int, y: int)
        requires
            self.same_tiles(other),
        ensures
            self.walkable(x, y) == other.walkable(x, y),
            self.reachable(x, y) == other.reachable(x, y),
            self.cost(x, y) == other.cost(x, y),
    {
        self.lemma_same_tiles_same_walks(other, x, y, 0);
        assert forall|k: nat| self.reaches(x, y, k) == other.reaches(x, y, k) by {
            self.lemma_same_tiles_same_walks(other, x, y, k);
        }
        if self.reachable(x, y) {
            let k = choose|k: nat| self.reaches(x, y, k);
            assert(other.reaches(x, y, k));
            self.lemma_distance_nearest(x, y);
            let d = self.distance(x, y);
            assert(other.nearest(x, y, d));
            other.lemma_distance_is(x, y, d);
        } else if other.reachable(x, y) {
            let k = choose|k: nat| other.reaches(x, y, k);
            assert(self.reaches(x, y, k));
        }
    }

    /// The last cell but one of a shortest walk is itself reached by a
    /// shortest walk.
    proof fn lemma_neighbour_is_nearest(self, x: int, y: int, px: int, py: int, d: nat)
        requires
            d > 0,
            self.nearest(x, y, d),
            self.reaches(px, py, (d - 1) as nat),
            (px == x + 1 && py == y) || (px == x - 1 && py == y) || (px == x && py == y + 1) || (px
                == x && py == y - 1),
        ensures
            self.reachable(px, py),
            self.walkable(px, py) || (px == self.goal.x && py == self.goal.y),
            self.cost(px, py) + STEP_COST == self.cost(x, y),
    {
        let j = (d - 1) as nat;
        assert forall|i: nat| i < j implies !self.reaches(px, py, i) by {
            if self.reaches(px, py, i) {
                assert(self.reaches(x, y, i + 1));
            }
        }
        assert(self.nearest(px, py, j));
        self.lemma_distance_is(px, py, j);
        self.lemma_distance_is(x, y, d);
    }
}

} // verus!

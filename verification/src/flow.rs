//! The flow field: cost to the goal and direction of descent, per cell.

use vstd::prelude::*;
use crate::coord::GridCoord;
use crate::descent::{derive_directions, heading};
use crate::direction::{FlowDirection, FlowVector};
use crate::grid::GridMap;
use crate::integrate::{at, integrate, lemma_index_coordinates, lemma_index_in_range};
use crate::terrain::{Terrain, MAX_CELLS, STEP_COST, UNREACHABLE};

verus! {

/// For one grid and one goal: what it costs to walk from each cell to the
/// goal, and in which direction each walkable cell is left.
///
/// A field starts blank. [`FlowField::compute`] fills it for a map and a
/// goal, and may be called again whenever either changes.
pub struct FlowField {
    width: usize,
    height: usize,
    field: Vec<Option<FlowDirection>>,
    integration_field: Vec<u32>,
    is_initialized: bool,
}

/// What a flow field holds, as mathematical values.
pub struct FlowFieldView {
    /// Number of columns.
    pub width: nat,
    /// Number of rows.
    pub height: nat,
    /// Cost per cell, row by row.
    pub costs: Seq<u32>,
    /// Direction per cell, row by row.
    pub directions: Seq<Option<FlowDirection>>,
    /// Whether the arrays hold the result of a computation.
    pub initialized: bool,
}

impl FlowFieldView {
    /// The cell lies on the grid.
    pub open spec fn inside(self, x: int, y: int) -> bool {
        0 <= x < self.width && 0 <= y < self.height
    }

    /// Place of the cell in the two arrays.
    pub open spec fn index(self, x: int, y: int) -> int {
        y * self.width + x
    }

    /// Cost of the cell.
    pub open spec fn cost_at(self, x: int, y: int) -> u32 {
        self.costs[self.index(x, y)]
    }

    /// Direction of the cell.
    pub open spec fn direction_at(self, x: int, y: int) -> Option<FlowDirection> {
        self.directions[self.index(x, y)]
    }

    /// Both arrays have one entry per cell.
    pub open spec fn sized(self) -> bool {
        &&& self.width * self.height <= MAX_CELLS
        &&& self.costs.len() == self.width * self.height
        &&& self.directions.len() == self.width * self.height
    }

    /// Nothing has been computed: every cost is the sentinel and no cell
    /// has a direction.
    pub open spec fn blank(self) -> bool {
        &&& !self.initialized
        &&& forall|i: int| 0 <= i < self.costs.len() ==> self.costs[i] == UNREACHABLE
        &&& forall|i: int| 0 <= i < self.directions.len() ==> self.directions[i].is_none()
    }

    /// The cell points to a neighbour.
    pub open spec fn points(self, x: int, y: int) -> bool {
        &&& self.inside(x, y)
        &&& self.direction_at(x, y).is_some()
        &&& self.direction_at(x, y) != Some(FlowDirection::Stay)
    }

    /// The neighbour that a pointing cell points to.
    pub open spec fn target(self, x: int, y: int) -> (int, int) {
        let d = self.direction_at(x, y).unwrap();
        (x + d.dx(), y + d.dy())
    }

    /// Wherever a cell points, the goal has reached the cell, and the
    /// neighbour it points to lies on the grid and costs strictly less.
    pub open spec fn descends(self) -> bool {
        forall|x: int, y: int| #[trigger]
            self.points(x, y) ==> {
                &&& self.cost_at(x, y) != UNREACHABLE
                &&& self.inside(self.target(x, y).0, self.target(x, y).1)
                &&& self.cost_at(self.target(x, y).0, self.target(x, y).1) < self.cost_at(x, y)
            }
    }

    /// What holds of every flow field: the arrays fit the grid, cells point
    /// downhill, and a field that is not initialized is blank.
    pub open spec fn wf(self) -> bool {
        &&& self.sized()
        &&& self.descends()
        &&& !self.initialized ==> self.blank()
    }

    /// The routing problem that this grid poses for the given walkable tiles
    /// and goal.
    pub open spec fn terrain(self, tiles: Seq<GridCoord>, goal: GridCoord) -> Terrain {
        Terrain { width: self.width, height: self.height, tiles, goal }
    }

    /// The field is the solution of the routing problem `t`: it holds the
    /// cost and the direction of each of its cells.
    pub open spec fn is_flow_of(self, t: Terrain) -> bool {
        &&& self.sized()
        &&& self.initialized
        &&& self.width == t.width
        &&& self.height == t.height
        &&& forall|x: int, y: int| self.inside(x, y) ==> #[trigger] self.cost_at(x, y) == t.cost(x, y)
        &&& forall|x: int, y: int|
            self.inside(x, y) ==> #[trigger] self.direction_at(x, y) == t.direction(x, y)
    }

    /// The unit vector stored for a cell: that of its direction, or zero
    /// where the cell has none or lies off the grid.
    pub open spec fn vector_at(self, x: int, y: int) -> FlowVector {
        if self.inside(x, y) && self.direction_at(x, y).is_some() {
            self.direction_at(x, y).unwrap().vector()
        } else {
            FlowVector { x: 0, y: 0 }
        }
    }

    /// Where an agent standing on `from` heads next: the neighbour its cell
    /// points to, or nowhere when the cell lies off the grid or does not
    /// point.
    pub open spec fn next_cell(self, from: GridCoord) -> Option<GridCoord> {
        if self.points(from.x as int, from.y as int) {
            let target = self.target(from.x as int, from.y as int);
            Some(GridCoord { x: target.0 as u32, y: target.1 as u32 })
        } else {
            None
        }
    }

    /// Where an agent stands after walking `steps` cells from `from`, or
    /// fewer if it comes to a cell where it stays.
    pub open spec fn after(self, from: GridCoord, steps: nat) -> GridCoord
        decreases steps,
    {
        if steps == 0 {
            from
        } else {
            match self.next_cell(from) {
                Some(next) => self.after(next, (steps - 1) as nat),
                None => from,
            }
        }
    }

    /// On a blank field no cell points anywhere.
    pub proof fn lemma_blank_descends(self)
        requires
            self.sized(),
            self.blank(),
        ensures
            self.descends(),
    {
        assert forall|x: int, y: int| self.inside(x, y) implies (#[trigger] self.direction_at(
            x,
            y,
        )).is_none() by {
            lemma_index_in_range(self.width as int, self.height as int, x, y);
        }
    }

    /// In the solution of a routing problem every pointing cell points to a
    /// walkable neighbour on the grid that costs strictly less.
    pub proof fn lemma_flow_descends(self, t: Terrain)
        requires
            self.is_flow_of(t),
        ensures
            self.descends(),
            forall|x: int, y: int| #[trigger]
                self.points(x, y) ==> t.walkable(self.target(x, y).0, self.target(x, y).1),
    {
        assert forall|x: int, y: int| #[trigger] self.points(x, y) implies {
            &&& self.cost_at(x, y) != UNREACHABLE
            &&& self.inside(self.target(x, y).0, self.target(x, y).1)
            &&& self.cost_at(self.target(x, y).0, self.target(x, y).1) < self.cost_at(x, y)
            &&& t.walkable(self.target(x, y).0, self.target(x, y).1)
        } by {
            assert(self.direction_at(x, y) == t.direction(x, y));
            assert(self.cost_at(x, y) == t.cost(x, y));
            t.lemma_descent_is_cheapest(x, y, FlowDirection::Stay);
            let target = self.target(x, y);
            assert(t.walkable(target.0, target.1));
            assert(self.cost_at(target.0, target.1) == t.cost(target.0, target.1));
        }
    }

    /// The goal of a solved routing problem costs nothing and points
    /// nowhere.
    pub proof fn lemma_goal_is_free(self, t: Terrain)
        requires
            self.is_flow_of(t),
            t.inside(t.goal.x as int, t.goal.y as int),
        ensures
            self.cost_at(t.goal.x as int, t.goal.y as int) == 0,
            !self.points(t.goal.x as int, t.goal.y as int),
    {
        t.lemma_goal_is_free();
        assert(self.cost_at(t.goal.x as int, t.goal.y as int) == t.cost(
            t.goal.x as int,
            t.goal.y as int,
        ));
        assert(self.direction_at(t.goal.x as int, t.goal.y as int) == t.direction(
            t.goal.x as int,
            t.goal.y as int,
        ));
    }

    /// In the solution of a routing problem every cell to which a walk of
    /// `k` steps leads from the goal has a cost below the sentinel: at most
    /// `k` step costs.
    pub proof fn lemma_reached_is_costed(self, t: Terrain, x: int, y: int, k: nat)
        requires
            self.is_flow_of(t),
            self.inside(x, y),
            t.reaches(x, y, k),
        ensures
            self.cost_at(x, y) < UNREACHABLE,
            self.cost_at(x, y) <= STEP_COST * k,
    {
        t.lemma_walk_bounds_cost(x, y, k);
        assert(self.cost_at(x, y) == t.cost(x, y));
    }

    /// In the solution of a routing problem a cell to which no walk leads
    /// from the goal keeps the sentinel as its cost and has no direction.
    pub proof fn lemma_unreached_is_blank(self, t: Terrain, x: int, y: int)
        requires
            self.is_flow_of(t),
            self.inside(x, y),
            !t.reachable(x, y),
        ensures
            self.cost_at(x, y) == UNREACHABLE,
            self.direction_at(x, y).is_none(),
    {
        assert(self.cost_at(x, y) == t.cost(x, y));
        assert(self.direction_at(x, y) == t.direction(x, y));
    }

    /// Where the goal is walkable, every other walkable cell that a walk
    /// reaches points to a neighbour that costs exactly one step cost less:
    /// no agent is stuck short of the goal.
    pub proof fn lemma_reached_points_downhill(self, t: Terrain, x: int, y: int)
        requires
            self.is_flow_of(t),
            t.walkable(t.goal.x as int, t.goal.y as int),
            t.walkable(x, y),
            t.reachable(x, y),
            !(x == t.goal.x && y == t.goal.y),
        ensures
            self.points(x, y),
            self.inside(self.target(x, y).0, self.target(x, y).1),
            t.walkable(self.target(x, y).0, self.target(x, y).1),
            t.reachable(self.target(x, y).0, self.target(x, y).1),
            self.cost_at(self.target(x, y).0, self.target(x, y).1) + STEP_COST == self.cost_at(x, y),
    {
        assert(self.cost_at(x, y) == t.cost(x, y));
        assert(self.direction_at(x, y) == t.direction(x, y));
        let parent = t.lemma_cost_steps_down(x, y);
        let px = x + parent.dx();
        let py = y + parent.dy();
        assert(t.walkable(px, py));
        t.lemma_descent_is_cheapest(x, y, parent);
        let d = t.descent(x, y);
        let nx = x + d.dx();
        let ny = y + d.dy();
        assert(t.cost(nx, ny) <= t.cost(px, py));
        assert(d != FlowDirection::Stay);
        assert(t.walkable(nx, ny));
        assert(self.cost_at(nx, ny) == t.cost(nx, ny));
        assert(t.reachable(nx, ny));
        t.lemma_neighbour_costs_a_step(nx, ny, d.opposite());
    }

    /// Where the goal is walkable, an agent that starts on a walkable cell
    /// that a walk reaches stands on the goal after as many steps as its
    /// cell costs step costs.
    pub proof fn lemma_walk_ends_at_goal(self, t: Terrain, from: GridCoord)
        requires
            self.is_flow_of(t),
            t.walkable(t.goal.x as int, t.goal.y as int),
            t.walkable(from.x as int, from.y as int),
            t.reachable(from.x as int, from.y as int),
        ensures
            self.cost_at(from.x as int, from.y as int) % STEP_COST == 0,
            self.after(from, (self.cost_at(from.x as int, from.y as int) / STEP_COST) as nat)
                == t.goal,
        decreases self.cost_at(from.x as int, from.y as int),
    {
        let x = from.x as int;
        let y = from.y as int;
        assert(self.cost_at(x, y) == t.cost(x, y));
        t.lemma_distance_nearest(x, y);
        t.lemma_walk_bounds_cost(x, y, t.distance(x, y));
        if from == t.goal {
            t.lemma_goal_is_free();
        } else {
            self.lemma_reached_points_downhill(t, x, y);
            let target = self.target(x, y);
            let next = GridCoord { x: target.0 as u32, y: target.1 as u32 };
            assert(self.next_cell(from) == Some(next));
            self.lemma_walk_ends_at_goal(t, next);
            let steps = (self.cost_at(x, y) / STEP_COST) as nat;
            assert(steps >= 1);
            assert((self.cost_at(next.x as int, next.y as int) / STEP_COST) as nat == (steps
                - 1) as nat);
        }
    }

    /// Two blank fields of one size hold the same.
    pub proof fn lemma_blank_is_unique(self, other: FlowFieldView)
        requires
            self.sized(),
            other.sized(),
            self.blank(),
            other.blank(),
            self.width == other.width,
            self.height == other.height,
        ensures
            self == other,
    {
        assert(self.costs =~= other.costs);
        assert(self.directions =~= other.directions);
    }

    /// The solution of a routing problem is the solution of every problem
    /// that lists the same tiles in another order.
    pub proof fn lemma_flow_ignores_tile_order(self, t: Terrain, other: Terrain)
        requires
            self.is_flow_of(t),
            t.same_tiles(other),
        ensures
            self.is_flow_of(other),
    {
        assert forall|x: int, y: int| self.inside(x, y) implies #[trigger] self.cost_at(x, y)
            == other.cost(x, y) by {
            t.lemma_same_tiles_same_flow(other, x, y);
        }
        assert forall|x: int, y: int| self.inside(x, y) implies #[trigger] self.direction_at(x, y)
            == other.direction(x, y) by {
            t.lemma_same_tiles_same_flow(other, x, y);
        }
    }

    /// A routing problem has one solution: two fields that solve the same
    /// problem hold the same costs and the same directions.
    pub proof fn lemma_flow_is_unique(self, other: FlowFieldView, t: Terrain)
        requires
            self.is_flow_of(t),
            other.is_flow_of(t),
        ensures
            self == other,
    {
        let w = self.width as int;
        let h = self.height as int;
        assert forall|i: int| 0 <= i < self.costs.len() implies self.costs[i] == other.costs[i] by {
            if w > 0 {
                lemma_index_coordinates(w, h, i);
                assert(self.cost_at(i % w, i / w) == t.cost(i % w, i / w));
                assert(other.cost_at(i % w, i / w) == t.cost(i % w, i / w));
            }
        }
        assert forall|i: int| 0 <= i < self.directions.len() implies self.directions[i]
            == other.directions[i] by {
            if w > 0 {
                lemma_index_coordinates(w, h, i);
                assert(self.direction_at(i % w, i / w) == t.direction(i % w, i / w));
                assert(other.direction_at(i % w, i / w) == t.direction(i % w, i / w));
            }
        }
        assert(self.costs =~= other.costs);
        assert(self.directions =~= other.directions);
    }
}

impl View for FlowField {
    type V = FlowFieldView;

    closed spec fn view(&self) -> FlowFieldView {
        FlowFieldView {
            width: self.width as nat,
            height: self.height as nat,
            costs: self.integration_field@,
            directions: self.field@,
            initialized: self.is_initialized,
        }
    }
}

/// A vector of `n` copies of `value`.
fn filled<T: Copy>(value: T, n: usize) -> (v: Vec<T>)
    ensures
        v@.len() == n,
        forall|i: int| 0 <= i < n ==> v@[i] == value,
{
    let mut v: Vec<T> = Vec::new();
    let mut i: usize = 0;
    while i < n
        invariant
            i <= n,
            v@.len() == i,
            forall|j: int| 0 <= j < i ==> v@[j] == value,
        decreases n - i,
    {
        v.push(value);
        i += 1;
    }
    v
}

/// A copy of `source`, element by element.
fn copied<T: Copy>(source: &Vec<T>) -> (v: Vec<T>)
    ensures
        v@ == source@,
{
    let mut v: Vec<T> = Vec::new();
    let mut i: usize = 0;
    while i < source.len()
        invariant
            i <= source.len(),
            v@ == source@.take(i as int),
        decreases source.len() - i,
    {
        v.push(source[i]);
        i += 1;
    }
    v
}

/// A field of the given size on which nothing has been computed.
fn blank_field(width: usize, height: usize) -> (f: FlowField)
    requires
        width * height <= MAX_CELLS,
    ensures
        f@.width == width,
        f@.height == height,
        f@.sized(),
        f@.blank(),
        f@.wf(),
{
    let n = width * height;
    let field: Vec<Option<FlowDirection>> = filled(None, n);
    let integration_field = filled(UNREACHABLE, n);
    proof {
        let v = FlowFieldView {
            width: width as nat,
            height: height as nat,
            costs: integration_field@,
            directions: field@,
            initialized: false,
        };
        v.lemma_blank_descends();
    }
    FlowField { width, height, field, integration_field, is_initialized: false }
}

impl FlowField {
    #[verifier::type_invariant]
    spec fn inv(self) -> bool {
        self@.wf()
    }

    /// A blank field of `width` columns and `height` rows.
    pub fn new(width: usize, height: usize) -> (f: FlowField)
        requires
            width * height <= MAX_CELLS,
        ensures
            f@.width == width,
            f@.height == height,
            f@.wf(),
            f@.blank(),
    {
        blank_field(width, height)
    }

    /// The field that routes agents to the end point of `map`, on a grid of
    /// the map's size. Nothing is returned for a map of more than
    /// [`MAX_CELLS`] cells.
    pub fn for_map(map: &GridMap) -> (made: Option<FlowField>)
        ensures
            made.is_some() == (map@.width * map@.height <= MAX_CELLS),
            made matches Some(f) ==> f@.wf() && f@.is_flow_of(
                Terrain {
                    width: map@.width,
                    height: map@.height,
                    tiles: map@.path_tiles,
                    goal: map@.end,
                },
            ),
    {
        let dimensions = map.dimensions();
        assert(dimensions.x as u64 * dimensions.y as u64 <= u64::MAX) by (nonlinear_arith)
            requires
                dimensions.x <= u32::MAX,
                dimensions.y <= u32::MAX,
        ;
        if dimensions.x as u64 * dimensions.y as u64 > MAX_CELLS as u64 {
            return None;
        }
        let mut field = FlowField::new(dimensions.x as usize, dimensions.y as usize);
        field.compute(map, map.end());
        Some(field)
    }

    /// Number of columns.
    pub fn width(&self) -> (w: usize)
        ensures
            w == self@.width,
            self@.wf(),
    {
        proof {
            use_type_invariant(self);
        }
        self.width
    }

    /// Number of rows.
    pub fn height(&self) -> (h: usize)
        ensures
            h == self@.height,
            self@.wf(),
    {
        proof {
            use_type_invariant(self);
        }
        self.height
    }

    /// Whether the field holds the result of a computation. A field that
    /// does not is blank.
    pub fn is_initialized(&self) -> (b: bool)
        ensures
            b == self@.initialized,
            !b ==> self@.blank(),
    {
        proof {
            use_type_invariant(self);
        }
        self.is_initialized
    }

    /// The cost of every cell, row by row.
    pub fn integration_field(&self) -> (costs: &Vec<u32>)
        ensures
            costs@ == self@.costs,
            self@.wf(),
    {
        proof {
            use_type_invariant(self);
        }
        &self.integration_field
    }

    /// The direction of every cell, row by row.
    pub fn field(&self) -> (directions: &Vec<Option<FlowDirection>>)
        ensures
            directions@ == self@.directions,
            self@.wf(),
    {
        proof {
            use_type_invariant(self);
        }
        &self.field
    }

    /// Place of the cell `(x, y)` in the arrays: cells are stored row by
    /// row. A cell off the grid yields place 0.
    pub fn get_index(&self, x: usize, y: usize) -> (index: usize)
        ensures
            index == if self@.inside(x as int, y as int) {
                self@.index(x as int, y as int)
            } else {
                0
            },
            self@.inside(x as int, y as int) ==> index < self@.width * self@.height,
    {
        proof {
            use_type_invariant(self);
        }
        if x >= self.width || y >= self.height {
            return 0;
        }
        proof {
            lemma_index_in_range(self.width as int, self.height as int, x as int, y as int);
        }
        y * self.width + x
    }

    /// The cell `(x, y)` stored at a place in the arrays: the inverse of
    /// [`FlowField::get_index`]. A place beyond the arrays yields `(0, 0)`.
    pub fn get_coordinates(&self, index: usize) -> (cell: (usize, usize))
        ensures
            index < self@.width * self@.height ==> {
                &&& self@.inside(cell.0 as int, cell.1 as int)
                &&& self@.index(cell.0 as int, cell.1 as int) == index
                &&& cell.0 == index as int % self@.width as int
                &&& cell.1 == index as int / self@.width as int
            },
            index >= self@.width * self@.height ==> cell == (0usize, 0usize),
    {
        proof {
            use_type_invariant(self);
        }
        if index >= self.width * self.height {
            return (0, 0);
        }
        proof {
            if self.width == 0 {
                assert(self.width * self.height == 0) by (nonlinear_arith)
                    requires
                        self.width == 0,
                ;
            }
            lemma_index_coordinates(self.width as int, self.height as int, index as int);
        }
        let y = index / self.width;
        let x = index % self.width;
        (x, y)
    }

    /// Computes the field anew for the walkable tiles of `map` and the goal
    /// `goal_pos`. Whatever the field held before is replaced.
    ///
    /// A goal off the grid is rejected: the field is left blank and not
    /// initialized. Otherwise the goal gets cost 0 and every cell that a
    /// walk over walkable tiles reaches from it gets the step cost times the
    /// length of the shortest such walk; all other cells keep the sentinel.
    /// Each walkable cell that was reached then points to the cheapest of
    /// its walkable neighbours that were reached and are strictly cheaper,
    /// the first of east, west, south and north among equals, or stays where
    /// there is none.
    ///
    /// The grid is that of the field. Tiles of `map` that lie off it play no
    /// part.
    pub fn compute(&mut self, map: &GridMap, goal_pos: GridCoord)
        ensures
            final(self)@.width == old(self)@.width,
            final(self)@.height == old(self)@.height,
            final(self)@.wf(),
            old(self)@.inside(goal_pos.x as int, goal_pos.y as int) ==> final(self)@.is_flow_of(
                old(self)@.terrain(map@.path_tiles, goal_pos),
            ),
            !old(self)@.inside(goal_pos.x as int, goal_pos.y as int) ==> final(self)@.blank(),
    {
        proof {
            use_type_invariant(&*self);
        }
        let width = self.width;
        let height = self.height;
        let goal_x = goal_pos.x as usize;
        let goal_y = goal_pos.y as usize;
        if goal_x >= width || goal_y >= height {
            *self = blank_field(width, height);
            return ;
        }
        let ghost t = self@.terrain(map@.path_tiles, goal_pos);
        let tiles = map.path_tiles();
        let integration_field = integrate(width, height, tiles, goal_x, goal_y, Ghost(t));
        let field = derive_directions(width, height, tiles, &integration_field, Ghost(t));
        proof {
            let v = FlowFieldView {
                width: width as nat,
                height: height as nat,
                costs: integration_field@,
                directions: field@,
                initialized: true,
            };
            assert forall|x: int, y: int| v.inside(x, y) implies #[trigger] v.cost_at(x, y) == t.cost(
                x,
                y,
            ) by {
                assert(at(t, integration_field@, x, y) == t.cost(x, y));
            }
            assert forall|x: int, y: int| v.inside(x, y) implies #[trigger] v.direction_at(x, y)
                == t.direction(x, y) by {
                assert(heading(t, field@, x, y) == t.direction(x, y));
            }
            v.lemma_flow_descends(t);
        }
        *self = FlowField { width, height, field, integration_field, is_initialized: true };
    }

    /// The direction stored for the cell `(x, y)`; none for a cell off the
    /// grid.
    pub fn get_direction(&self, x: usize, y: usize) -> (direction: Option<FlowDirection>)
        ensures
            direction == if self@.inside(x as int, y as int) {
                self@.direction_at(x as int, y as int)
            } else {
                None
            },
    {
        proof {
            use_type_invariant(self);
        }
        if x >= self.width || y >= self.height {
            return None;
        }
        let index = self.get_index(x, y);
        if index >= self.field.len() {
            return None;
        }
        self.field[index]
    }

    /// The unit vector of the direction stored for the cell `(x, y)`, in
    /// world axes; zero for a cell that stays, has no direction or lies off
    /// the grid.
    pub fn get_flow_vector(&self, x: usize, y: usize) -> (v: FlowVector)
        ensures
            v == self@.vector_at(x as int, y as int),
    {
        proof {
            use_type_invariant(self);
        }
        if x >= self.width || y >= self.height {
            return FlowVector { x: 0, y: 0 };
        }
        match self.get_direction(x, y) {
            Some(direction) => direction.to_vec2(),
            None => FlowVector { x: 0, y: 0 },
        }
    }

    /// The cell an agent on `from` walks to next: the neighbour that the
    /// cell points to, which lies on the grid and costs strictly less than
    /// `from`. An agent stays where it is when `from` lies off the grid, has
    /// no direction, or is the goal or a dead end.
    pub fn next_cell(&self, from: GridCoord) -> (next: Option<GridCoord>)
        ensures
            next == self@.next_cell(from),
            next matches Some(n) ==> {
                &&& self@.inside(n.x as int, n.y as int)
                &&& self@.cost_at(n.x as int, n.y as int) < self@.cost_at(from.x as int, from.y as int)
            },
    {
        proof {
            use_type_invariant(self);
        }
        let x = from.x as usize;
        let y = from.y as usize;
        if x >= self.width || y >= self.height {
            return None;
        }
        proof {
            lemma_index_in_range(self.width as int, self.height as int, x as int, y as int);
            assert(self@.points(x as int, y as int) ==> self@.inside(
                self@.target(x as int, y as int).0,
                self@.target(x as int, y as int).1,
            ));
        }
        let last_column = (self.width - 1) as u32;
        let last_row = (self.height - 1) as u32;
        match self.get_direction(x, y) {
            Some(FlowDirection::North) => Some(GridCoord { x: from.x, y: from.y.saturating_sub(1) }),
            Some(FlowDirection::South) => Some(
                GridCoord { x: from.x, y: if from.y < last_row {
                    from.y + 1
                } else {
                    last_row
                } },
            ),
            Some(FlowDirection::East) => Some(
                GridCoord { x: if from.x < last_column {
                    from.x + 1
                } else {
                    last_column
                }, y: from.y },
            ),
            Some(FlowDirection::West) => Some(GridCoord { x: from.x.saturating_sub(1), y: from.y }),
            _ => None,
        }
    }
}

impl Clone for FlowField {
    /// A field that holds the same values.
    fn clone(&self) -> (f: FlowField)
        ensures
            f@ == self@,
    {
        proof {
            use_type_invariant(self);
        }
        FlowField {
            width: self.width,
            height: self.height,
            field: copied(&self.field),
            integration_field: copied(&self.integration_field),
            is_initialized: self.is_initialized,
        }
    }
}

impl Default for FlowField {
    /// A field without any cell.
    fn default() -> (f: FlowField)
        ensures
            f@.width == 0,
            f@.height == 0,
            f@.wf(),
            f@.blank(),
    {
        blank_field(0, 0)
    }
}

} // verus!

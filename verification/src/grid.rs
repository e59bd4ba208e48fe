//! The grid map: geometry in cells, walkable and buildable tiles, and the
//! cells where agents enter and leave.

use vstd::prelude::*;
use crate::coord::GridCoord;

verus! {

/// Columns of the grid a new map starts with.
pub const GRID_WIDTH: u32 = 26;

/// Rows of the grid a new map starts with.
pub const GRID_HEIGHT: u32 = 15;

/// A level's grid: its size in cells, the tiles agents walk on, the tiles
/// that can be built on, and the cells where agents enter and leave.
///
/// Every map is well formed: see [`GridMapView::wf`].
pub struct GridMap {
    dimensions: GridCoord,
    path_tiles: Vec<GridCoord>,
    buildable_tiles: Vec<GridCoord>,
    start: GridCoord,
    end: GridCoord,
}

/// What a grid map holds, as mathematical values.
pub struct GridMapView {
    /// Number of columns.
    pub width: nat,
    /// Number of rows.
    pub height: nat,
    /// The tiles agents may walk on.
    pub path_tiles: Seq<GridCoord>,
    /// The tiles on which structures may be placed.
    pub buildable_tiles: Seq<GridCoord>,
    /// Where agents enter.
    pub start: GridCoord,
    /// Where agents leave.
    pub end: GridCoord,
}

/// `v` held between `low` and `high`.
pub open spec fn clamp(v: int, low: int, high: int) -> int {
    if v < low {
        low
    } else if v > high {
        high
    } else {
        v
    }
}

/// The tiles all lie on a grid of the given size.
pub open spec fn tiles_within(tiles: Seq<GridCoord>, width: int, height: int) -> bool {
    forall|i: int| 0 <= i < tiles.len() ==> (#[trigger] tiles[i]).within(width, height)
}

/// Some tile lies within `buffer` columns and `buffer` rows of `pos`.
pub open spec fn near_any(tiles: Seq<GridCoord>, pos: GridCoord, buffer: int) -> bool {
    exists|i: int|
        0 <= i < tiles.len() && -buffer <= (#[trigger] tiles[i]).x - pos.x <= buffer && -buffer
            <= tiles[i].y - pos.y <= buffer
}

/// What a map is made from is fit for one: the grid has at least one cell,
/// every tile and both end points lie on it, and no tile is listed twice.
pub open spec fn fit_for_map(
    dimensions: GridCoord,
    path_tiles: Seq<GridCoord>,
    buildable_tiles: Seq<GridCoord>,
    start: GridCoord,
    end: GridCoord,
) -> bool {
    &&& dimensions.x >= 1
    &&& dimensions.y >= 1
    &&& tiles_within(path_tiles, dimensions.x as int, dimensions.y as int)
    &&& tiles_within(buildable_tiles, dimensions.x as int, dimensions.y as int)
    &&& path_tiles.no_duplicates()
    &&& buildable_tiles.no_duplicates()
    &&& start.within(dimensions.x as int, dimensions.y as int)
    &&& end.within(dimensions.x as int, dimensions.y as int)
}

impl GridMapView {
    /// The cell lies on the grid.
    pub open spec fn contains(self, c: GridCoord) -> bool {
        c.within(self.width as int, self.height as int)
    }

    /// Width and height as one coordinate.
    pub open spec fn dimensions(self) -> GridCoord {
        GridCoord { x: self.width as u32, y: self.height as u32 }
    }

    /// The grid has at least one cell, every tile and both end points lie on
    /// it, and no tile is listed twice.
    pub open spec fn wf(self) -> bool {
        &&& self.width <= u32::MAX
        &&& self.height <= u32::MAX
        &&& fit_for_map(self.dimensions(), self.path_tiles, self.buildable_tiles, self.start, self.end)
    }

    /// The cell in column `column` and row `row`, each held to the grid.
    pub open spec fn clamped(self, column: int, row: int) -> GridCoord {
        GridCoord {
            x: clamp(column, 0, self.width - 1) as u32,
            y: clamp(row, 0, self.height - 1) as u32,
        }
    }

    /// The neighbour of `pos` that lies `dx` columns and `dy` rows away, if
    /// it lies on the grid.
    pub open spec fn neighbour(self, pos: GridCoord, dx: int, dy: int) -> Seq<GridCoord> {
        if 0 <= pos.x + dx < self.width && 0 <= pos.y + dy < self.height {
            seq![GridCoord { x: (pos.x + dx) as u32, y: (pos.y + dy) as u32 }]
        } else {
            Seq::empty()
        }
    }

    /// The neighbours of `pos` on the grid: north, south, west, east.
    pub open spec fn adjacent(self, pos: GridCoord) -> Seq<GridCoord> {
        self.neighbour(pos, 0, -1) + self.neighbour(pos, 0, 1) + self.neighbour(pos, -1, 0)
            + self.neighbour(pos, 1, 0)
    }

    /// Whatever column and row are clamped, the result is a cell of the
    /// grid.
    pub proof fn lemma_clamped_lies_on_grid(self, column: int, row: int)
        requires
            self.wf(),
        ensures
            self.contains(self.clamped(column, row)),
    {
    }

    /// Clamping the column and the row of a cell of the grid gives the cell
    /// back.
    pub proof fn lemma_clamped_keeps_cells(self, c: GridCoord)
        requires
            self.wf(),
            self.contains(c),
        ensures
            self.clamped(c.x as int, c.y as int) == c,
    {
    }

    /// At most four cells are adjacent to a cell, and each of them lies on
    /// the grid, one column or one row away.
    pub proof fn lemma_adjacent_are_neighbours(self, pos: GridCoord, i: int)
        requires
            self.wf(),
            0 <= i < self.adjacent(pos).len(),
        ensures
            self.adjacent(pos).len() <= 4,
            self.contains(self.adjacent(pos)[i]),
            ({
                let n = self.adjacent(pos)[i];
                (n.x == pos.x && (n.y == pos.y + 1 || n.y == pos.y - 1)) || (n.y == pos.y && (n.x
                    == pos.x + 1 || n.x == pos.x - 1))
            }),
    {
    }
}

impl View for GridMap {
    type V = GridMapView;

    closed spec fn view(&self) -> GridMapView {
        GridMapView {
            width: self.dimensions.x as nat,
            height: self.dimensions.y as nat,
            path_tiles: self.path_tiles@,
            buildable_tiles: self.buildable_tiles@,
            start: self.start,
            end: self.end,
        }
    }
}

/// Whether `c` is one of `tiles`.
pub fn has_tile(tiles: &Vec<GridCoord>, c: GridCoord) -> (found: bool)
    ensures
        found == tiles@.contains(c),
{
    let mut i: usize = 0;
    while i < tiles.len()
        invariant
            i <= tiles.len(),
            forall|j: int| 0 <= j < i ==> tiles@[j] != c,
        decreases tiles.len() - i,
    {
        if tiles[i] == c {
            return true;
        }
        i += 1;
    }
    false
}

/// Whether all of `tiles` lie on a grid of the given size.
fn all_within(tiles: &Vec<GridCoord>, dimensions: GridCoord) -> (ok: bool)
    ensures
        ok == tiles_within(tiles@, dimensions.x as int, dimensions.y as int),
{
    let mut i: usize = 0;
    while i < tiles.len()
        invariant
            i <= tiles.len(),
            forall|j: int|
                0 <= j < i ==> (#[trigger] tiles@[j]).within(dimensions.x as int, dimensions.y as int),
        decreases tiles.len() - i,
    {
        if tiles[i].x >= dimensions.x || tiles[i].y >= dimensions.y {
            return false;
        }
        i += 1;
    }
    true
}

/// Whether no tile occurs twice in `tiles`.
fn all_distinct(tiles: &Vec<GridCoord>) -> (ok: bool)
    ensures
        ok == tiles@.no_duplicates(),
{
    let mut i: usize = 0;
    while i < tiles.len()
        invariant
            i <= tiles.len(),
            forall|a: int, b: int| 0 <= a < i && a < b < tiles.len() ==> tiles@[a] != tiles@[b],
        decreases tiles.len() - i,
    {
        let mut j: usize = i + 1;
        while j < tiles.len()
            invariant
                i < j <= tiles.len(),
                forall|b: int| i < b < j ==> tiles@[i as int] != tiles@[b],
            decreases tiles.len() - j,
        {
            if tiles[i] == tiles[j] {
                return false;
            }
            j += 1;
        }
        i += 1;
    }
    true
}

/// Whether some tile of `path` lies within `buffer` columns and `buffer`
/// rows of `pos`.
pub fn is_near_path(path: &[GridCoord], pos: GridCoord, buffer: u32) -> (near: bool)
    ensures
        near == near_any(path@, pos, buffer as int),
{
    let mut i: usize = 0;
    while i < path.len()
        invariant
            i <= path.len(),
            forall|j: int|
                0 <= j < i ==> !(-buffer <= (#[trigger] path@[j]).x - pos.x <= buffer && -buffer
                    <= path@[j].y - pos.y <= buffer),
        decreases path.len() - i,
    {
        let path_pos = path[i];
        let dx = if path_pos.x > pos.x {
            path_pos.x - pos.x
        } else {
            pos.x - path_pos.x
        };
        let dy = if path_pos.y > pos.y {
            path_pos.y - pos.y
        } else {
            pos.y - path_pos.y
        };
        if dx <= buffer && dy <= buffer {
            return true;
        }
        i += 1;
    }
    false
}

impl GridMap {
    #[verifier::type_invariant]
    spec fn inv(self) -> bool {
        self@.wf()
    }

    /// The map a level starts from: the standard grid without any tile, its
    /// end points in the middle row at the left and the right edge.
    pub fn new() -> (m: GridMap)
        ensures
            m@ == (GridMapView {
                width: GRID_WIDTH as nat,
                height: GRID_HEIGHT as nat,
                path_tiles: Seq::empty(),
                buildable_tiles: Seq::empty(),
                start: GridCoord { x: 0, y: (GRID_HEIGHT / 2) as u32 },
                end: GridCoord { x: (GRID_WIDTH - 1) as u32, y: (GRID_HEIGHT / 2) as u32 },
            }),
            m@.wf(),
    {
        GridMap {
            dimensions: GridCoord { x: GRID_WIDTH, y: GRID_HEIGHT },
            path_tiles: Vec::new(),
            buildable_tiles: Vec::new(),
            start: GridCoord { x: 0, y: GRID_HEIGHT / 2 },
            end: GridCoord { x: GRID_WIDTH - 1, y: GRID_HEIGHT / 2 },
        }
    }

    /// The map of a level, from its description. The description is
    /// refused, and nothing is returned, unless it is fit for a map: the
    /// grid has at least one cell, every tile and both end points lie on it,
    /// and no tile is listed twice.
    pub fn from_tiles(
        dimensions: GridCoord,
        path_tiles: Vec<GridCoord>,
        buildable_tiles: Vec<GridCoord>,
        start: GridCoord,
        end: GridCoord,
    ) -> (made: Option<GridMap>)
        ensures
            made.is_some() == fit_for_map(dimensions, path_tiles@, buildable_tiles@, start, end),
            made matches Some(m) ==> m@ == (GridMapView {
                width: dimensions.x as nat,
                height: dimensions.y as nat,
                path_tiles: path_tiles@,
                buildable_tiles: buildable_tiles@,
                start,
                end,
            }) && m@.wf(),
    {
        if dimensions.x < 1 || dimensions.y < 1 {
            return None;
        }
        if start.x >= dimensions.x || start.y >= dimensions.y {
            return None;
        }
        if end.x >= dimensions.x || end.y >= dimensions.y {
            return None;
        }
        if !all_within(&path_tiles, dimensions) || !all_within(&buildable_tiles, dimensions) {
            return None;
        }
        if !all_distinct(&path_tiles) || !all_distinct(&buildable_tiles) {
            return None;
        }
        Some(GridMap { dimensions, path_tiles, buildable_tiles, start, end })
    }

    /// Width and height of the grid, in cells.
    pub fn dimensions(&self) -> (d: GridCoord)
        ensures
            d == self@.dimensions(),
            d.x == self@.width,
            d.y == self@.height,
            self@.wf(),
    {
        proof {
            use_type_invariant(self);
        }
        self.dimensions
    }

    /// The walkable tiles, in the order in which they were given.
    pub fn path_tiles(&self) -> (tiles: &Vec<GridCoord>)
        ensures
            tiles@ == self@.path_tiles,
            self@.wf(),
    {
        proof {
            use_type_invariant(self);
        }
        &self.path_tiles
    }

    /// The buildable tiles, in the order in which they were given.
    pub fn buildable_tiles(&self) -> (tiles: &Vec<GridCoord>)
        ensures
            tiles@ == self@.buildable_tiles,
            self@.wf(),
    {
        proof {
            use_type_invariant(self);
        }
        &self.buildable_tiles
    }

    /// The cell where agents enter; it lies on the grid.
    pub fn start(&self) -> (c: GridCoord)
        ensures
            c == self@.start,
            self@.contains(c),
    {
        proof {
            use_type_invariant(self);
        }
        self.start
    }

    /// The cell where agents leave; it lies on the grid.
    pub fn end(&self) -> (c: GridCoord)
        ensures
            c == self@.end,
            self@.contains(c),
    {
        proof {
            use_type_invariant(self);
        }
        self.end
    }

    /// The cell of the grid nearest to column `column` and row `row`, which
    /// may lie anywhere: each of the two is held to the grid on its own.
    /// A cell of the grid is returned as it is.
    pub fn clamp_to_grid(&self, column: i64, row: i64) -> (c: GridCoord)
        ensures
            c == self@.clamped(column as int, row as int),
            self@.contains(c),
            0 <= column < self@.width && 0 <= row < self@.height ==> c.x == column && c.y == row,
    {
        proof {
            use_type_invariant(self);
        }
        let last_column = self.dimensions.x - 1;
        let last_row = self.dimensions.y - 1;
        let x = if column < 0 {
            0
        } else if column > last_column as i64 {
            last_column
        } else {
            column as u32
        };
        let y = if row < 0 {
            0
        } else if row > last_row as i64 {
            last_row
        } else {
            row as u32
        };
        GridCoord { x, y }
    }

    /// The cell in column `column` and row `row` if it lies on the grid,
    /// nothing otherwise.
    pub fn locate(&self, column: i64, row: i64) -> (found: Option<GridCoord>)
        ensures
            found.is_some() == (0 <= column < self@.width && 0 <= row < self@.height),
            found matches Some(c) ==> c.x == column && c.y == row,
    {
        proof {
            use_type_invariant(self);
        }
        if column < 0 || row < 0 || column >= self.dimensions.x as i64 || row
            >= self.dimensions.y as i64 {
            return None;
        }
        Some(GridCoord { x: column as u32, y: row as u32 })
    }

    /// Whether a structure may be placed on the cell.
    pub fn is_buildable(&self, grid_pos: GridCoord) -> (b: bool)
        ensures
            b == self@.buildable_tiles.contains(grid_pos),
    {
        has_tile(&self.buildable_tiles, grid_pos)
    }

    /// The neighbours of `pos` that lie on the grid, at most four: north,
    /// south, west, east, in this order.
    pub fn get_adjacent_tiles(&self, pos: GridCoord) -> (adjacent: Vec<GridCoord>)
        ensures
            adjacent@ == self@.adjacent(pos),
    {
        proof {
            use_type_invariant(self);
        }
        let mut adjacent: Vec<GridCoord> = Vec::new();
        let x = pos.x;
        let y = pos.y;
        let width = self.dimensions.x;
        let height = self.dimensions.y;
        if y > 0 && x < width && y - 1 < height {
            adjacent.push(GridCoord { x, y: y - 1 });
        }
        assert(adjacent@ == self@.neighbour(pos, 0, -1));
        if y < height - 1 && x < width {
            adjacent.push(GridCoord { x, y: y + 1 });
        }
        assert(adjacent@ == self@.neighbour(pos, 0, -1) + self@.neighbour(pos, 0, 1));
        if x > 0 && x - 1 < width && y < height {
            adjacent.push(GridCoord { x: x - 1, y });
        }
        assert(adjacent@ == self@.neighbour(pos, 0, -1) + self@.neighbour(pos, 0, 1)
            + self@.neighbour(pos, -1, 0));
        if x < width - 1 && y < height {
            adjacent.push(GridCoord { x: x + 1, y });
        }
        assert(adjacent@ == self@.adjacent(pos));
        adjacent
    }
}

} // verus!

//! Level descriptions as they are stored, and the maps they describe.

use vstd::prelude::*;
use crate::coord::GridCoord;
use crate::grid::{fit_for_map, GridMap, GridMapView};

verus! {

/// The picture shown on one walkable tile.
pub struct PathTexture {
    /// Column and row of the tile, in this order.
    pub position: Vec<u32>,
    /// Name of the picture.
    pub texture: String,
}

/// A level as it is stored: every coordinate is a list that starts with the
/// column and the row.
pub struct LevelData {
    /// The walkable tiles.
    pub path: Vec<Vec<u32>>,
    /// The pictures of the walkable tiles.
    pub path_textures: Vec<PathTexture>,
    /// Where agents enter.
    pub start: Vec<u32>,
    /// Where agents leave.
    pub end: Vec<u32>,
    /// The tiles on which structures may be placed.
    pub buildable_areas: Vec<Vec<u32>>,
    /// Number of columns and number of rows.
    pub dimensions: Vec<u32>,
}

/// One layer of a tiled level: a tile number per cell, row by row.
pub struct TiledLayer {
    pub data: Vec<u32>,
    pub height: u32,
    pub width: u32,
}

/// A level drawn as layers of tiles.
pub struct TiledLevel {
    pub height: u32,
    pub width: u32,
    pub layers: Vec<TiledLayer>,
    pub tilewidth: u32,
    pub tileheight: u32,
}

/// The list starts with a column and a row.
pub open spec fn is_pair(coords: Seq<u32>) -> bool {
    coords.len() >= 2
}

/// The coordinate that a list starts with.
pub open spec fn pair_of(coords: Seq<u32>) -> GridCoord {
    GridCoord { x: coords[0], y: coords[1] }
}

/// Every list starts with a column and a row.
pub open spec fn all_pairs(list: Seq<Vec<u32>>) -> bool {
    forall|i: int| 0 <= i < list.len() ==> is_pair(#[trigger] list[i]@)
}

/// The coordinates that the lists start with, one for one.
pub open spec fn pairs_of(list: Seq<Vec<u32>>) -> Seq<GridCoord> {
    Seq::new(list.len(), |i: int| pair_of(list[i]@))
}

/// The cells among the first `n` of `data` that hold a tile, in order, on
/// rows of `width` cells.
pub open spec fn tiled_cells(data: Seq<u32>, width: int, n: int) -> Seq<GridCoord>
    decreases n,
{
    if n <= 0 {
        Seq::empty()
    } else {
        let before = tiled_cells(data, width, n - 1);
        if data[n - 1] != 0 {
            before.push(GridCoord { x: ((n - 1) % width) as u32, y: ((n - 1) / width) as u32 })
        } else {
            before
        }
    }
}

/// The coordinate that `coords` starts with, if it holds a column and a row.
pub fn to_coord(coords: &Vec<u32>) -> (c: Option<GridCoord>)
    ensures
        c.is_some() == is_pair(coords@),
        c matches Some(p) ==> p == pair_of(coords@),
{
    if coords.len() < 2 {
        return None;
    }
    Some(GridCoord { x: coords[0], y: coords[1] })
}

/// The coordinates that the lists of `list` start with, one for one, if
/// each holds a column and a row.
pub fn to_coords(list: &Vec<Vec<u32>>) -> (made: Option<Vec<GridCoord>>)
    ensures
        made.is_some() == all_pairs(list@),
        made matches Some(tiles) ==> tiles@ == pairs_of(list@),
{
    let mut tiles: Vec<GridCoord> = Vec::new();
    let mut i: usize = 0;
    while i < list.len()
        invariant
            i <= list.len(),
            tiles@.len() == i,
            forall|j: int| 0 <= j < i ==> is_pair(#[trigger] list@[j]@),
            forall|j: int| 0 <= j < i ==> tiles@[j] == pair_of(list@[j]@),
        decreases list.len() - i,
    {
        match to_coord(&list[i]) {
            Some(c) => tiles.push(c),
            None => {
                return None;
            },
        }
        i += 1;
    }
    assert(tiles@ =~= pairs_of(list@));
    Some(tiles)
}

impl LevelData {
    /// The description is that of a map: every coordinate holds a column
    /// and a row, the grid has at least one cell, every tile and both end
    /// points lie on it, and no tile is listed twice.
    pub open spec fn describes_map(&self) -> bool {
        &&& is_pair(self.dimensions@)
        &&& is_pair(self.start@)
        &&& is_pair(self.end@)
        &&& all_pairs(self.path@)
        &&& all_pairs(self.buildable_areas@)
        &&& fit_for_map(
            pair_of(self.dimensions@),
            pairs_of(self.path@),
            pairs_of(self.buildable_areas@),
            pair_of(self.start@),
            pair_of(self.end@),
        )
    }

    /// The map that the description stands for.
    pub open spec fn map_view(&self) -> GridMapView {
        GridMapView {
            width: pair_of(self.dimensions@).x as nat,
            height: pair_of(self.dimensions@).y as nat,
            path_tiles: pairs_of(self.path@),
            buildable_tiles: pairs_of(self.buildable_areas@),
            start: pair_of(self.start@),
            end: pair_of(self.end@),
        }
    }

    /// The map of the level, if the description is that of a map.
    pub fn to_map(&self) -> (made: Option<GridMap>)
        ensures
            made.is_some() == self.describes_map(),
            made matches Some(m) ==> m@ == self.map_view() && m@.wf(),
    {
        let dimensions = match to_coord(&self.dimensions) {
            Some(c) => c,
            None => {
                return None;
            },
        };
        let start = match to_coord(&self.start) {
            Some(c) => c,
            None => {
                return None;
            },
        };
        let end = match to_coord(&self.end) {
            Some(c) => c,
            None => {
                return None;
            },
        };
        let path_tiles = match to_coords(&self.path) {
            Some(tiles) => tiles,
            None => {
                return None;
            },
        };
        let buildable_tiles = match to_coords(&self.buildable_areas) {
            Some(tiles) => tiles,
            None => {
                return None;
            },
        };
        GridMap::from_tiles(dimensions, path_tiles, buildable_tiles, start, end)
    }
}

impl TiledLevel {
    /// The level has a first layer, and rows of at least one cell unless
    /// that layer holds no tile at all.
    pub open spec fn has_path_layer(&self) -> bool {
        &&& self.layers@.len() > 0
        &&& self.width > 0 || forall|i: int|
            0 <= i < self.layers@[0].data@.len() ==> self.layers@[0].data@[i] == 0
    }

    /// The cells of the first layer that hold a tile, row by row.
    pub fn parse_path(&self) -> (path_tiles: Vec<GridCoord>)
        requires
            self.has_path_layer(),
        ensures
            path_tiles@ == tiled_cells(
                self.layers@[0].data@,
                self.width as int,
                self.layers@[0].data@.len() as int,
            ),
    {
        let mut path_tiles: Vec<GridCoord> = Vec::new();
        let data = &self.layers[0].data;
        let width = self.width as usize;
        let mut index: usize = 0;
        while index < data.len()
            invariant
                index <= data.len(),
                width == self.width,
                width > 0 || forall|i: int| 0 <= i < data@.len() ==> data@[i] == 0,
                path_tiles@ == tiled_cells(data@, width as int, index as int),
            decreases data.len() - index,
        {
            if data[index] != 0 {
                let x = (index % width) as u32;
                let y = (index / width) as u32;
                path_tiles.push(GridCoord { x, y });
            }
            index += 1;
        }
        path_tiles
    }
}

} // verus!

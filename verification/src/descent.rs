//! Deriving the direction of every walkable cell from the costs.

use vstd::prelude::*;
use crate::coord::GridCoord;
use crate::direction::FlowDirection;
use crate::grid::has_tile;
use crate::integrate::{at, lemma_index_in_range, lemma_index_injective};
use crate::terrain::{cell, Terrain, MAX_CELLS, UNREACHABLE};

verus! {

/// The direction stored for a cell.
pub(crate) open spec fn heading(t: Terrain, dirs: Seq<Option<FlowDirection>>, x: int, y: int) -> Option<
    FlowDirection,
> {
    dirs[y * t.width + x]
}

/// The cell is among the first `k` tiles.
pub(crate) open spec fn listed(t: Terrain, k: int, x: int, y: int) -> bool {
    exists|j: int| 0 <= j < k && #[trigger] t.tiles[j] == cell(x, y)
}

/// `costs` holds the cost of every cell of the routing problem.
pub(crate) open spec fn costed(t: Terrain, costs: Seq<u32>) -> bool {
    &&& t.width * t.height <= MAX_CELLS
    &&& costs.len() == t.width * t.height
    &&& forall|x: int, y: int| t.inside(x, y) ==> #[trigger] at(t, costs, x, y) == t.cost(x, y)
}

/// Weighs the neighbour `(nx, ny)` of `(x, y)`, which lies on the grid in
/// direction `toward`, against the best neighbour found so far.
fn consider(
    costs: &Vec<u32>,
    tiles: &Vec<GridCoord>,
    width: usize,
    nx: usize,
    ny: usize,
    toward: FlowDirection,
    best: (FlowDirection, u32),
    Ghost(t): Ghost<Terrain>,
    Ghost(x): Ghost<int>,
    Ghost(y): Ghost<int>,
) -> (r: (FlowDirection, u32))
    requires
        costed(t, costs@),
        t.width == width,
        t.tiles == tiles@,
        t.inside(nx as int, ny as int),
        nx == x + toward.dx(),
        ny == y + toward.dy(),
    ensures
        (r.0, r.1 as int) == t.pick((best.0, best.1 as int), x, y, toward),
{
    proof {
        lemma_index_in_range(t.width as int, t.height as int, nx as int, ny as int);
        assert(at(t, costs@, nx as int, ny as int) == t.cost(nx as int, ny as int));
    }
    let neighbor_index = ny * width + nx;
    if !has_tile(tiles, GridCoord { x: nx as u32, y: ny as u32 }) || costs[neighbor_index]
        == UNREACHABLE {
        return best;
    }
    if costs[neighbor_index] < best.1 {
        (toward, costs[neighbor_index])
    } else {
        best
    }
}

/// The direction of every cell of the routing problem, given its costs:
/// each walkable cell that the goal reaches points to its cheapest cheaper
/// neighbour, every other cell has none.
pub(crate) fn derive_directions(
    width: usize,
    height: usize,
    tiles: &Vec<GridCoord>,
    costs: &Vec<u32>,
    Ghost(t): Ghost<Terrain>,
) -> (dirs: Vec<Option<FlowDirection>>)
    requires
        t.width == width,
        t.height == height,
        t.tiles == tiles@,
        costed(t, costs@),
    ensures
        dirs@.len() == width * height,
        forall|x: int, y: int| t.inside(x, y) ==> #[trigger] heading(t, dirs@, x, y) == t.direction(x, y),
{
    let n = width * height;
    let mut dirs: Vec<Option<FlowDirection>> = Vec::new();
    let mut filling: usize = 0;
    while filling < n
        invariant
            filling <= n,
            dirs@.len() == filling,
            forall|j: int| 0 <= j < filling ==> dirs@[j].is_none(),
        decreases n - filling,
    {
        dirs.push(None);
        filling += 1;
    }
    assert forall|x: int, y: int| t.inside(x, y) implies (#[trigger] heading(t, dirs@, x, y)).is_none() by {
        lemma_index_in_range(width as int, height as int, x, y);
    }
    let mut k: usize = 0;
    while k < tiles.len()
        invariant
            k <= tiles.len(),
            t.width == width,
            t.height == height,
            t.tiles == tiles@,
            costed(t, costs@),
            dirs@.len() == width * height,
            forall|x: int, y: int|
                t.inside(x, y) ==> #[trigger] heading(t, dirs@, x, y) == if listed(t, k as int, x, y) {
                    t.direction(x, y)
                } else {
                    None
                },
        decreases tiles.len() - k,
    {
        let path_pos = tiles[k];
        let x = path_pos.x as usize;
        let y = path_pos.y as usize;
        let ghost before = dirs@;
        let ghost mut changed = false;
        if x < width && y < height {
            proof {
                lemma_index_in_range(width as int, height as int, x as int, y as int);
                assert(at(t, costs@, x as int, y as int) == t.cost(x as int, y as int));
                assert(t.tiles[k as int] == cell(x as int, y as int));
                assert(t.walkable(x as int, y as int));
            }
            let index = y * width + x;
            if costs[index] != UNREACHABLE {
                let mut best = (FlowDirection::Stay, costs[index]);
                if x + 1 < width {
                    best =
                    consider(
                        costs,
                        tiles,
                        width,
                        x + 1,
                        y,
                        FlowDirection::East,
                        best,
                        Ghost(t),
                        Ghost(x as int),
                        Ghost(y as int),
                    );
                }
                if x > 0 {
                    best =
                    consider(
                        costs,
                        tiles,
                        width,
                        x - 1,
                        y,
                        FlowDirection::West,
                        best,
                        Ghost(t),
                        Ghost(x as int),
                        Ghost(y as int),
                    );
                }
                if y + 1 < height {
                    best =
                    consider(
                        costs,
                        tiles,
                        width,
                        x,
                        y + 1,
                        FlowDirection::South,
                        best,
                        Ghost(t),
                        Ghost(x as int),
                        Ghost(y as int),
                    );
                }
                if y > 0 {
                    best =
                    consider(
                        costs,
                        tiles,
                        width,
                        x,
                        y - 1,
                        FlowDirection::North,
                        best,
                        Ghost(t),
                        Ghost(x as int),
                        Ghost(y as int),
                    );
                }
                assert(best.0 == t.descent(x as int, y as int));
                dirs.set(index, Some(best.0));
                proof {
                    changed = true;
                }
            }
        }
        proof {
            let px = path_pos.x as int;
            let py = path_pos.y as int;
            assert forall|cx: int, cy: int| t.inside(cx, cy) implies #[trigger] heading(t, dirs@, cx, cy)
                == if listed(t, k + 1, cx, cy) {
                t.direction(cx, cy)
            } else {
                None
            } by {
                lemma_index_in_range(width as int, height as int, cx, cy);
                assert(heading(t, before, cx, cy) == if listed(t, k as int, cx, cy) {
                    t.direction(cx, cy)
                } else {
                    None
                });
                if cx == px && cy == py {
                    assert(t.tiles[k as int] == cell(cx, cy));
                    assert(listed(t, k + 1, cx, cy));
                } else {
                    if changed {
                        if cy * width + cx == py * width + px {
                            lemma_index_injective(width as int, cx, cy, px, py);
                        }
                    }
                    if listed(t, k + 1, cx, cy) {
                        let j = choose|j: int| 0 <= j < k + 1 && #[trigger] t.tiles[j] == cell(cx, cy);
                        assert(j < k);
                        assert(listed(t, k as int, cx, cy));
                    }
                }
            }
        }
        k += 1;
    }
    proof {
        assert forall|x: int, y: int| t.inside(x, y) implies #[trigger] heading(t, dirs@, x, y)
            == t.direction(x, y) by {
            lemma_index_in_range(width as int, height as int, x, y);
            if t.tiles.contains(cell(x, y)) {
                let j = choose|j: int| 0 <= j < t.tiles.len() && t.tiles[j] == cell(x, y);
                assert(t.tiles[j] == cell(x, y));
                assert(listed(t, k as int, x, y));
            }
        }
    }
    dirs
}

} // verus!

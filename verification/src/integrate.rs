//! Spreading costs outward from the goal, one ring of cells after another.

use vstd::prelude::*;
use vstd::arithmetic::div_mod::{
    lemma_div_pos_is_pos,
    lemma_fundamental_div_mod,
    lemma_mod_pos_bound,
    lemma_multiply_divide_lt,
};
use vstd::set_lib::{lemma_int_range, lemma_len_subset, set_int_range};
use std::collections::VecDeque;
use crate::coord::GridCoord;
use crate::grid::has_tile;
use crate::terrain::{Terrain, MAX_CELLS, STEP_COST, UNREACHABLE};

verus! {

/// The cost stored for a cell.
pub(crate) open spec fn at(t: Terrain, costs: Seq<u32>, x: int, y: int) -> int {
    costs[y * t.width + x] as int
}

/// The cell lies on the grid and has received a cost.
pub(crate) open spec fn assigned(t: Terrain, costs: Seq<u32>, x: int, y: int) -> bool {
    t.inside(x, y) && at(t, costs, x, y) != UNREACHABLE
}

/// The goal lies on the grid and `costs` has one entry per cell.
pub(crate) open spec fn framed(t: Terrain, costs: Seq<u32>) -> bool {
    &&& t.inside(t.goal.x as int, t.goal.y as int)
    &&& t.width * t.height <= MAX_CELLS
    &&& costs.len() == t.width * t.height
}

/// The goal costs nothing.
pub(crate) open spec fn seeded(t: Terrain, costs: Seq<u32>) -> bool {
    at(t, costs, t.goal.x as int, t.goal.y as int) == 0
}

/// `(px, py)` lies on the grid and is one step cheaper than `(x, y)`.
pub(crate) open spec fn linked(t: Terrain, costs: Seq<u32>, x: int, y: int, px: int, py: int) -> bool {
    t.inside(px, py) && at(t, costs, px, py) + STEP_COST == at(t, costs, x, y)
}

/// The cell is walkable and one of its neighbours is one step cheaper.
pub(crate) open spec fn rooted_at(t: Terrain, costs: Seq<u32>, x: int, y: int) -> bool {
    &&& t.walkable(x, y)
    &&& (linked(t, costs, x, y, x + 1, y) || linked(t, costs, x, y, x - 1, y) || linked(
        t,
        costs,
        x,
        y,
        x,
        y + 1,
    ) || linked(t, costs, x, y, x, y - 1))
}

/// Every cell with a cost, the goal apart, got it from a neighbour.
pub(crate) open spec fn rooted(t: Terrain, costs: Seq<u32>) -> bool {
    forall|x: int, y: int| #[trigger]
        assigned(t, costs, x, y) && !(x == t.goal.x && y == t.goal.y) ==> rooted_at(t, costs, x, y)
}

/// If `(nx, ny)` is walkable it has a cost, at most one step above that of
/// `(x, y)`.
pub(crate) open spec fn covers(t: Terrain, costs: Seq<u32>, x: int, y: int, nx: int, ny: int) -> bool {
    t.walkable(nx, ny) ==> at(t, costs, nx, ny) != UNREACHABLE && at(t, costs, nx, ny) <= at(
        t,
        costs,
        x,
        y,
    ) + STEP_COST
}

/// The cell has passed its cost on to its four neighbours.
pub(crate) open spec fn closed_at(t: Terrain, costs: Seq<u32>, x: int, y: int) -> bool {
    &&& covers(t, costs, x, y, x + 1, y)
    &&& covers(t, costs, x, y, x - 1, y)
    &&& covers(t, costs, x, y, x, y + 1)
    &&& covers(t, costs, x, y, x, y - 1)
}

/// Every cell with a cost has passed it on.
pub(crate) open spec fn closed(t: Terrain, costs: Seq<u32>) -> bool {
    forall|x: int, y: int| #[trigger] assigned(t, costs, x, y) ==> closed_at(t, costs, x, y)
}

/// The cell waits in the queue.
pub(crate) open spec fn queued(t: Terrain, queue: Seq<usize>, x: int, y: int) -> bool {
    exists|j: int| 0 <= j < queue.len() && #[trigger] queue[j] == y * t.width + x
}

/// The queue holds cells with a cost, cheapest first, none cheaper than
/// `front`, and no cell anywhere costs more than one step above `front`.
pub(crate) open spec fn queue_ok(costs: Seq<u32>, queue: Seq<usize>, front: int) -> bool {
    &&& forall|j: int|
        0 <= j < queue.len() ==> (#[trigger] queue[j]) < costs.len() && costs[queue[j] as int]
            != UNREACHABLE && costs[queue[j] as int] >= front
    &&& forall|a: int, b: int|
        0 <= a <= b < queue.len() ==> costs[#[trigger] queue[a] as int] <= costs[#[trigger] queue[b] as int]
    &&& forall|i: int|
        0 <= i < costs.len() && #[trigger] costs[i] != UNREACHABLE ==> costs[i] <= front + STEP_COST
}

/// `reached` is the set of places with a cost, and no cost exceeds what a
/// walk through that many cells can reach.
pub(crate) open spec fn counted(costs: Seq<u32>, reached: Set<int>) -> bool {
    &&& reached.finite()
    &&& reached.len() <= costs.len()
    &&& forall|i: int| reached.contains(i) <==> 0 <= i < costs.len() && costs[i] != UNREACHABLE
    &&& forall|i: int|
        0 <= i < costs.len() && #[trigger] costs[i] != UNREACHABLE ==> costs[i] + STEP_COST
            <= STEP_COST * reached.len()
}

/// Every cell with a cost that neither waits in the queue nor is `(ux, uy)`
/// has passed its cost on.
pub(crate) open spec fn settled(t: Terrain, costs: Seq<u32>, queue: Seq<usize>, ux: int, uy: int) -> bool {
    forall|x: int, y: int| #[trigger]
        assigned(t, costs, x, y) && !queued(t, queue, x, y) && !(x == ux && y == uy) ==> closed_at(
            t,
            costs,
            x,
            y,
        )
}

/// What holds while costs spread: `(ux, uy)` is the cell being expanded, or
/// off the grid between two expansions.
pub(crate) open spec fn spreading(
    t: Terrain,
    costs: Seq<u32>,
    queue: Seq<usize>,
    front: int,
    reached: Set<int>,
    ux: int,
    uy: int,
) -> bool {
    &&& framed(t, costs)
    &&& seeded(t, costs)
    &&& rooted(t, costs)
    &&& queue_ok(costs, queue, front)
    &&& counted(costs, reached)
    &&& settled(t, costs, queue, ux, uy)
}

/// What one relaxation of `(nx, ny)` from a cell of cost `base` does: a
/// walkable cell without a cost gets one step more than `base` and joins the
/// queue; anything else is left alone.
pub(crate) open spec fn relaxed(
    t: Terrain,
    costs: Seq<u32>,
    queue: Seq<usize>,
    base: int,
    nx: int,
    ny: int,
    costs2: Seq<u32>,
    queue2: Seq<usize>,
) -> bool {
    let i = ny * t.width + nx;
    if t.walkable(nx, ny) && costs[i] == UNREACHABLE {
        &&& costs2 == costs.update(i, (base + STEP_COST) as u32)
        &&& queue2 == queue.push(i as usize)
    } else {
        &&& costs2 == costs
        &&& queue2 == queue
    }
}

/// A cell on the grid has a place in the arrays.
pub(crate) proof fn lemma_index_in_range(w: int, h: int, x: int, y: int)
    requires
        0 <= x < w,
        0 <= y < h,
    ensures
        0 <= y * w + x < w * h,
        0 <= y * w,
        w <= w * h,
        h <= w * h,
{
    assert(y * w + w <= h * w) by (nonlinear_arith)
        requires
            0 <= y < h,
            0 < w,
    ;
    assert(0 <= y * w) by (nonlinear_arith)
        requires
            0 <= y,
            0 < w,
    ;
    assert(h * w == w * h) by (nonlinear_arith);
    assert(w <= w * h && h <= w * h) by (nonlinear_arith)
        requires
            0 < w,
            0 < h,
    ;
}

/// Two cells of one grid with the same place are the same cell.
pub(crate) proof fn lemma_index_injective(w: int, x1: int, y1: int, x2: int, y2: int)
    requires
        0 <= x1 < w,
        0 <= x2 < w,
        y1 * w + x1 == y2 * w + x2,
    ensures
        x1 == x2,
        y1 == y2,
{
    if y1 < y2 {
        assert(y1 * w + w <= y2 * w) by (nonlinear_arith)
            requires
                y1 < y2,
                0 < w,
        ;
    }
    if y2 < y1 {
        assert(y2 * w + w <= y1 * w) by (nonlinear_arith)
            requires
                y2 < y1,
                0 < w,
        ;
    }
}

/// A place in the arrays belongs to the cell in column `i % w` of row
/// `i / w`.
pub(crate) proof fn lemma_index_coordinates(w: int, h: int, i: int)
    requires
        0 <= i < w * h,
        0 < w,
    ensures
        0 <= i % w < w,
        0 <= i / w < h,
        (i / w) * w + i % w == i,
{
    lemma_fundamental_div_mod(i, w);
    lemma_mod_pos_bound(i, w);
    lemma_div_pos_is_pos(i, w);
    lemma_multiply_divide_lt(i, w, h);
    assert(w * (i / w) == (i / w) * w) by (nonlinear_arith);
}

/// Writing the cost of one cell changes the cost of no other.
proof fn lemma_update_at(t: Terrain, costs: Seq<u32>, nx: int, ny: int, c: u32)
    requires
        framed(t, costs),
        t.inside(nx, ny),
    ensures
        forall|x: int, y: int|
            t.inside(x, y) ==> #[trigger] at(t, costs.update(ny * t.width + nx, c), x, y) == if x
                == nx && y == ny {
                c as int
            } else {
                at(t, costs, x, y)
            },
{
    let w = t.width as int;
    let h = t.height as int;
    let i = ny * w + nx;
    lemma_index_in_range(w, h, nx, ny);
    assert forall|x: int, y: int| t.inside(x, y) implies #[trigger] at(t, costs.update(i, c), x, y)
        == if x == nx && y == ny {
        c as int
    } else {
        at(t, costs, x, y)
    } by {
        lemma_index_in_range(w, h, x, y);
        if y * w + x == i {
            lemma_index_injective(w, x, y, nx, ny);
        }
    }
}

/// Once every cell has passed its cost on, a walk of `k` steps to a cell
/// bounds the cost of that cell.
proof fn lemma_walk_bounds_cost(t: Terrain, costs: Seq<u32>, x: int, y: int, k: nat)
    requires
        framed(t, costs),
        seeded(t, costs),
        closed(t, costs),
        t.reaches(x, y, k),
    ensures
        assigned(t, costs, x, y),
        at(t, costs, x, y) <= STEP_COST * k,
    decreases k,
{
    if k > 0 {
        let j = (k - 1) as nat;
        if t.reaches(x + 1, y, j) {
            lemma_walk_bounds_cost(t, costs, x + 1, y, j);
            assert(closed_at(t, costs, x + 1, y));
            assert(covers(t, costs, x + 1, y, x + 1 - 1, y));
        } else if t.reaches(x - 1, y, j) {
            lemma_walk_bounds_cost(t, costs, x - 1, y, j);
            assert(closed_at(t, costs, x - 1, y));
            assert(covers(t, costs, x - 1, y, x - 1 + 1, y));
        } else if t.reaches(x, y + 1, j) {
            lemma_walk_bounds_cost(t, costs, x, y + 1, j);
            assert(closed_at(t, costs, x, y + 1));
            assert(covers(t, costs, x, y + 1, x, y + 1 - 1));
        } else {
            lemma_walk_bounds_cost(t, costs, x, y - 1, j);
            assert(closed_at(t, costs, x, y - 1));
            assert(covers(t, costs, x, y - 1, x, y - 1 + 1));
        }
    }
}

/// The cost of a cell is the length of some walk to it, in steps.
proof fn lemma_cost_is_walk(t: Terrain, costs: Seq<u32>, x: int, y: int)
    requires
        framed(t, costs),
        seeded(t, costs),
        rooted(t, costs),
        assigned(t, costs, x, y),
    ensures
        at(t, costs, x, y) % (STEP_COST as int) == 0,
        t.reaches(x, y, (at(t, costs, x, y) / (STEP_COST as int)) as nat),
    decreases at(t, costs, x, y),
{
    if x == t.goal.x && y == t.goal.y {
    } else {
        assert(rooted_at(t, costs, x, y));
        let d = ((at(t, costs, x, y) - STEP_COST) / (STEP_COST as int)) as nat;
        if linked(t, costs, x, y, x + 1, y) {
            lemma_cost_is_walk(t, costs, x + 1, y);
            assert(t.reaches(x + 1, y, d));
        } else if linked(t, costs, x, y, x - 1, y) {
            lemma_cost_is_walk(t, costs, x - 1, y);
            assert(t.reaches(x - 1, y, d));
        } else if linked(t, costs, x, y, x, y + 1) {
            lemma_cost_is_walk(t, costs, x, y + 1);
            assert(t.reaches(x, y + 1, d));
        } else {
            lemma_cost_is_walk(t, costs, x, y - 1);
            assert(t.reaches(x, y - 1, d));
        }
        assert(t.reaches(x, y, d + 1));
    }
}

/// Costs that start at the goal, come from a neighbour each and have all
/// been passed on are the costs of the routing problem.
pub(crate) proof fn lemma_settled(t: Terrain, costs: Seq<u32>)
    requires
        framed(t, costs),
        seeded(t, costs),
        rooted(t, costs),
        closed(t, costs),
    ensures
        forall|x: int, y: int| t.inside(x, y) ==> #[trigger] at(t, costs, x, y) == t.cost(x, y),
{
    assert forall|x: int, y: int| t.inside(x, y) implies #[trigger] at(t, costs, x, y) == t.cost(
        x,
        y,
    ) by {
        if assigned(t, costs, x, y) {
            lemma_cost_is_walk(t, costs, x, y);
            let d = (at(t, costs, x, y) / (STEP_COST as int)) as nat;
            assert forall|j: nat| j < d implies !t.reaches(x, y, j) by {
                if t.reaches(x, y, j) {
                    lemma_walk_bounds_cost(t, costs, x, y, j);
                }
            }
            t.lemma_distance_is(x, y, d);
        } else {
            assert forall|k: nat| !t.reaches(x, y, k) by {
                if t.reaches(x, y, k) {
                    lemma_walk_bounds_cost(t, costs, x, y, k);
                }
            }
        }
    }
}

/// Taking the first cell off the queue and expanding it next keeps
/// everything in order.
proof fn lemma_pop_keeps(
    t: Terrain,
    costs: Seq<u32>,
    queue: Seq<usize>,
    front: int,
    reached: Set<int>,
    ux: int,
    uy: int,
)
    requires
        spreading(t, costs, queue, front, reached, -1, -1),
        queue.len() > 0,
        t.inside(ux, uy),
        queue[0] == uy * t.width + ux,
    ensures
        assigned(t, costs, ux, uy),
        spreading(t, costs, queue.subrange(1, queue.len() as int), at(t, costs, ux, uy), reached, ux, uy),
{
    let rest = queue.subrange(1, queue.len() as int);
    let w = t.width as int;
    assert(queue[0] < costs.len());
    assert forall|j: int| 0 <= j < rest.len() implies (#[trigger] rest[j]) < costs.len()
        && costs[rest[j] as int] != UNREACHABLE && costs[rest[j] as int] >= at(t, costs, ux, uy) by {
        assert(rest[j] == queue[j + 1]);
    }
    assert forall|a: int, b: int| 0 <= a <= b < rest.len() implies costs[#[trigger] rest[a] as int]
        <= costs[#[trigger] rest[b] as int] by {
        assert(rest[a] == queue[a + 1]);
        assert(rest[b] == queue[b + 1]);
    }
    assert forall|x: int, y: int| #[trigger]
        assigned(t, costs, x, y) && !queued(t, rest, x, y) && !(x == ux && y == uy) implies closed_at(
        t,
        costs,
        x,
        y,
    ) by {
        if queued(t, queue, x, y) {
            let j = choose|j: int| 0 <= j < queue.len() && #[trigger] queue[j] == y * t.width + x;
            if j == 0 {
                lemma_index_injective(w, x, y, ux, uy);
            } else {
                assert(rest[j - 1] == queue[j]);
            }
        }
    }
}

/// One relaxation from the cell being expanded keeps everything in order and
/// covers the neighbour it was aimed at.
proof fn lemma_relax_keeps(
    t: Terrain,
    costs: Seq<u32>,
    queue: Seq<usize>,
    front: int,
    reached: Set<int>,
    ux: int,
    uy: int,
    nx: int,
    ny: int,
    costs2: Seq<u32>,
    queue2: Seq<usize>,
) -> (reached2: Set<int>)
    requires
        spreading(t, costs, queue, front, reached, ux, uy),
        assigned(t, costs, ux, uy),
        at(t, costs, ux, uy) == front,
        t.inside(nx, ny),
        (nx == ux + 1 && ny == uy) || (nx == ux - 1 && ny == uy) || (nx == ux && ny == uy + 1) || (nx
            == ux && ny == uy - 1),
        relaxed(t, costs, queue, front, nx, ny, costs2, queue2),
    ensures
        spreading(t, costs2, queue2, front, reached2, ux, uy),
        assigned(t, costs2, ux, uy),
        at(t, costs2, ux, uy) == front,
        covers(t, costs2, ux, uy, nx, ny),
        forall|ax: int, ay: int|
            covers(t, costs, ux, uy, ax, ay) ==> #[trigger] covers(t, costs2, ux, uy, ax, ay),
        reached2.len() - reached.len() == queue2.len() - queue.len(),
{
    let w = t.width as int;
    let h = t.height as int;
    let i = ny * w + nx;
    lemma_index_in_range(w, h, nx, ny);
    lemma_index_in_range(w, h, ux, uy);
    if t.walkable(nx, ny) && costs[i] == UNREACHABLE {
        let c = (front + STEP_COST) as u32;
        assert(front + STEP_COST <= STEP_COST * reached.len()) by {
            assert(costs[uy * w + ux] != UNREACHABLE);
        }
        assert(STEP_COST * reached.len() <= STEP_COST * MAX_CELLS) by (nonlinear_arith)
            requires
                reached.len() <= MAX_CELLS,
        ;
        assert(c == front + STEP_COST);
        lemma_update_at(t, costs, nx, ny, c);
        let reached2 = reached.insert(i);
        assert(!reached.contains(i));
        assert(reached2.len() == reached.len() + 1);
        assert(reached2.len() <= costs2.len()) by {
            lemma_int_range(0, costs2.len() as int);
            assert(reached2.subset_of(set_int_range(0, costs2.len() as int)));
            lemma_len_subset(reached2, set_int_range(0, costs2.len() as int));
        }
        assert(STEP_COST * reached2.len() == STEP_COST * reached.len() + STEP_COST) by (nonlinear_arith)
            requires
                reached2.len() == reached.len() + 1,
        ;
        assert(counted(costs2, reached2));
        assert(queue_ok(costs2, queue2, front)) by {
            assert forall|j: int| 0 <= j < queue2.len() implies (#[trigger] queue2[j]) < costs2.len()
                && costs2[queue2[j] as int] != UNREACHABLE && costs2[queue2[j] as int] >= front by {
                if j < queue.len() {
                    assert(queue2[j] == queue[j]);
                }
            }
            assert forall|a: int, b: int| 0 <= a <= b < queue2.len() implies costs2[#[trigger] queue2[a] as int]
                <= costs2[#[trigger] queue2[b] as int] by {
                if b < queue.len() {
                    assert(queue2[a] == queue[a]);
                    assert(queue2[b] == queue[b]);
                } else if a < queue.len() {
                    assert(queue2[a] == queue[a]);
                    assert(costs[queue[a] as int] != UNREACHABLE);
                }
            }
        }
        assert(seeded(t, costs2)) by {
            assert(at(t, costs2, t.goal.x as int, t.goal.y as int) == at(
                t,
                costs,
                t.goal.x as int,
                t.goal.y as int,
            ));
        }
        assert(at(t, costs2, ux, uy) == front);
        assert(rooted(t, costs2)) by {
            assert forall|x: int, y: int| #[trigger]
                assigned(t, costs2, x, y) && !(x == t.goal.x && y == t.goal.y) implies rooted_at(
                t,
                costs2,
                x,
                y,
            ) by {
                if x == nx && y == ny {
                    assert(linked(t, costs2, nx, ny, ux, uy));
                } else {
                    assert(assigned(t, costs, x, y));
                    assert(rooted_at(t, costs, x, y));
                    lemma_link_stays(t, costs, costs2, nx, ny, x, y, x + 1, y);
                    lemma_link_stays(t, costs, costs2, nx, ny, x, y, x - 1, y);
                    lemma_link_stays(t, costs, costs2, nx, ny, x, y, x, y + 1);
                    lemma_link_stays(t, costs, costs2, nx, ny, x, y, x, y - 1);
                }
            }
        }
        assert(queued(t, queue2, nx, ny)) by {
            assert(queue2[queue.len() as int] == ny * t.width + nx);
        }
        assert(settled(t, costs2, queue2, ux, uy)) by {
            assert forall|x: int, y: int| #[trigger]
                assigned(t, costs2, x, y) && !queued(t, queue2, x, y) && !(x == ux && y == uy) implies closed_at(
                t,
                costs2,
                x,
                y,
            ) by {
                assert(!(x == nx && y == ny));
                assert(assigned(t, costs, x, y));
                if queued(t, queue, x, y) {
                    let j = choose|j: int| 0 <= j < queue.len() && #[trigger] queue[j] == y * t.width + x;
                    assert(queue2[j] == queue[j]);
                }
                assert(closed_at(t, costs, x, y));
                lemma_cover_stays(t, costs, costs2, nx, ny, x, y, x + 1, y);
                lemma_cover_stays(t, costs, costs2, nx, ny, x, y, x - 1, y);
                lemma_cover_stays(t, costs, costs2, nx, ny, x, y, x, y + 1);
                lemma_cover_stays(t, costs, costs2, nx, ny, x, y, x, y - 1);
            }
        }
        assert forall|ax: int, ay: int| covers(t, costs, ux, uy, ax, ay) implies #[trigger] covers(
            t,
            costs2,
            ux,
            uy,
            ax,
            ay,
        ) by {
            lemma_cover_stays(t, costs, costs2, nx, ny, ux, uy, ax, ay);
        }
        assert(at(t, costs2, nx, ny) == c);
        reached2
    } else {
        assert(covers(t, costs, ux, uy, nx, ny)) by {
            assert(costs[i] == at(t, costs, nx, ny));
        }
        reached
    }
}

/// A link between two cells with a cost survives the first cost of a third.
proof fn lemma_link_stays(
    t: Terrain,
    costs: Seq<u32>,
    costs2: Seq<u32>,
    nx: int,
    ny: int,
    x: int,
    y: int,
    px: int,
    py: int,
)
    requires
        framed(t, costs),
        t.inside(nx, ny),
        at(t, costs, nx, ny) == UNREACHABLE,
        forall|x: int, y: int|
            t.inside(x, y) ==> #[trigger] at(t, costs2, x, y) == if x == nx && y == ny {
                at(t, costs2, nx, ny)
            } else {
                at(t, costs, x, y)
            },
        assigned(t, costs, x, y),
    ensures
        linked(t, costs, x, y, px, py) ==> linked(t, costs2, x, y, px, py),
{
    if linked(t, costs, x, y, px, py) {
        assert(at(t, costs2, px, py) == at(t, costs, px, py));
        assert(at(t, costs2, x, y) == at(t, costs, x, y));
    }
}

/// What a cell with a cost covers, it still covers after the first cost of
/// another cell.
proof fn lemma_cover_stays(
    t: Terrain,
    costs: Seq<u32>,
    costs2: Seq<u32>,
    nx: int,
    ny: int,
    x: int,
    y: int,
    ax: int,
    ay: int,
)
    requires
        framed(t, costs),
        t.inside(nx, ny),
        at(t, costs, nx, ny) == UNREACHABLE,
        forall|x: int, y: int|
            t.inside(x, y) ==> #[trigger] at(t, costs2, x, y) == if x == nx && y == ny {
                at(t, costs2, nx, ny)
            } else {
                at(t, costs, x, y)
            },
        assigned(t, costs, x, y),
    ensures
        covers(t, costs, x, y, ax, ay) ==> covers(t, costs2, x, y, ax, ay),
{
    if covers(t, costs, x, y, ax, ay) && t.walkable(ax, ay) {
        assert(at(t, costs2, ax, ay) == at(t, costs, ax, ay));
        assert(at(t, costs2, x, y) == at(t, costs, x, y));
    }
}

/// Offers the cell `(nx, ny)` one step more than `current_cost`, the cost of
/// the neighbouring cell that is being expanded. A walkable cell takes the
/// offer when it is lower than what it has, and then joins the queue.
fn relax(
    costs: &mut Vec<u32>,
    queue: &mut VecDeque<usize>,
    tiles: &Vec<GridCoord>,
    width: usize,
    nx: usize,
    ny: usize,
    current_cost: u32,
    Ghost(t): Ghost<Terrain>,
)
    requires
        framed(t, old(costs)@),
        t.width == width,
        t.tiles == tiles@,
        t.inside(nx as int, ny as int),
        current_cost + STEP_COST < UNREACHABLE,
        forall|i: int|
            0 <= i < old(costs)@.len() && #[trigger] old(costs)@[i] != UNREACHABLE ==> old(costs)@[i]
                <= current_cost + STEP_COST,
    ensures
        relaxed(
            t,
            old(costs)@,
            old(queue)@,
            current_cost as int,
            nx as int,
            ny as int,
            final(costs)@,
            final(queue)@,
        ),
{
    proof {
        lemma_index_in_range(t.width as int, t.height as int, nx as int, ny as int);
    }
    let neighbor_index = ny * width + nx;
    let is_walkable = has_tile(tiles, GridCoord { x: nx as u32, y: ny as u32 });
    if !is_walkable {
        return ;
    }
    let new_cost = current_cost + STEP_COST;
    if new_cost < costs[neighbor_index] {
        costs.set(neighbor_index, new_cost);
        queue.push_back(neighbor_index);
    }
}

/// The cost of every cell of the routing problem: spreads outward from the
/// goal, first come first served, one step cost per step.
pub(crate) fn integrate(
    width: usize,
    height: usize,
    tiles: &Vec<GridCoord>,
    goal_x: usize,
    goal_y: usize,
    Ghost(t): Ghost<Terrain>,
) -> (costs: Vec<u32>)
    requires
        t.width == width,
        t.height == height,
        t.tiles == tiles@,
        t.goal.x == goal_x,
        t.goal.y == goal_y,
        goal_x < width,
        goal_y < height,
        width * height <= MAX_CELLS,
    ensures
        costs@.len() == width * height,
        forall|x: int, y: int| t.inside(x, y) ==> #[trigger] at(t, costs@, x, y) == t.cost(x, y),
{
    let n = width * height;
    let mut costs: Vec<u32> = Vec::new();
    let mut filling: usize = 0;
    while filling < n
        invariant
            filling <= n,
            costs@.len() == filling,
            forall|j: int| 0 <= j < filling ==> costs@[j] == UNREACHABLE,
        decreases n - filling,
    {
        costs.push(UNREACHABLE);
        filling += 1;
    }
    let mut queue: VecDeque<usize> = VecDeque::new();
    proof {
        lemma_index_in_range(width as int, height as int, goal_x as int, goal_y as int);
    }
    let goal_index = goal_y * width + goal_x;
    let ghost blank = costs@;
    costs.set(goal_index, 0);
    queue.push_back(goal_index);
    let ghost mut front: int = 0;
    let ghost mut reached: Set<int> = Set::empty().insert(goal_index as int);
    proof {
        lemma_update_at(t, blank, goal_x as int, goal_y as int, 0);
        assert forall|x: int, y: int| #[trigger] assigned(t, costs@, x, y) implies x == goal_x && y
            == goal_y by {
            lemma_index_in_range(width as int, height as int, x, y);
            assert(at(t, blank, x, y) == UNREACHABLE);
        }
        assert(framed(t, costs@));
        assert(seeded(t, costs@));
        assert(rooted(t, costs@));
        assert(settled(t, costs@, queue@, -1, -1)) by {
            assert forall|x: int, y: int| #[trigger]
                assigned(t, costs@, x, y) && !queued(t, queue@, x, y) implies closed_at(
                t,
                costs@,
                x,
                y,
            ) by {
                assert(x == goal_x && y == goal_y);
                assert(queue@[0] == y * t.width + x);
            }
        }
        assert(counted(costs@, reached)) by {
            assert forall|i: int| 0 <= i < costs@.len() && costs@[i] != UNREACHABLE implies i
                == goal_index by {
                assert(blank[i] == UNREACHABLE);
            }
        }
        assert(queue_ok(costs@, queue@, front));
    }
    while queue.len() > 0
        invariant
            spreading(t, costs@, queue@, front, reached, -1, -1),
            t.width == width,
            t.height == height,
            t.tiles == tiles@,
            n == width * height,
        decreases n - reached.len() + queue@.len(),
    {
        let ghost queue0 = queue@;
        let current_index = queue.pop_front().unwrap();
        let current_cost = costs[current_index];
        proof {
            lemma_index_coordinates(width as int, height as int, current_index as int);
        }
        let x = current_index % width;
        let y = current_index / width;
        proof {
            lemma_pop_keeps(t, costs@, queue0, front, reached, x as int, y as int);
            front = current_cost as int;
            assert(front + STEP_COST <= STEP_COST * reached.len());
            assert(STEP_COST * reached.len() <= STEP_COST * MAX_CELLS) by (nonlinear_arith)
                requires
                    reached.len() <= MAX_CELLS,
            ;
        }
        // East, west, south and north in turn. Each relaxation covers its
        // neighbour and keeps what the earlier ones covered; a neighbour off
        // the grid is not walkable and so is covered as it is.
        if x + 1 < width {
            let ghost c0 = costs@;
            let ghost q0 = queue@;
            relax(&mut costs, &mut queue, tiles, width, x + 1, y, current_cost, Ghost(t));
            proof {
                reached = lemma_relax_keeps(
                    t,
                    c0,
                    q0,
                    front,
                    reached,
                    x as int,
                    y as int,
                    x + 1,
                    y as int,
                    costs@,
                    queue@,
                );
            }
        }
        assert(covers(t, costs@, x as int, y as int, x + 1, y as int));
        if x > 0 {
            let ghost c0 = costs@;
            let ghost q0 = queue@;
            relax(&mut costs, &mut queue, tiles, width, x - 1, y, current_cost, Ghost(t));
            proof {
                reached = lemma_relax_keeps(
                    t,
                    c0,
                    q0,
                    front,
                    reached,
                    x as int,
                    y as int,
                    x - 1,
                    y as int,
                    costs@,
                    queue@,
                );
            }
        }
        assert(covers(t, costs@, x as int, y as int, x - 1, y as int));
        assert(covers(t, costs@, x as int, y as int, x + 1, y as int));
        if y + 1 < height {
            let ghost c0 = costs@;
            let ghost q0 = queue@;
            relax(&mut costs, &mut queue, tiles, width, x, y + 1, current_cost, Ghost(t));
            proof {
                reached = lemma_relax_keeps(
                    t,
                    c0,
                    q0,
                    front,
                    reached,
                    x as int,
                    y as int,
                    x as int,
                    y + 1,
                    costs@,
                    queue@,
                );
            }
        }
        assert(covers(t, costs@, x as int, y as int, x as int, y + 1));
        assert(covers(t, costs@, x as int, y as int, x - 1, y as int));
        assert(covers(t, costs@, x as int, y as int, x + 1, y as int));
        if y > 0 {
            let ghost c0 = costs@;
            let ghost q0 = queue@;
            relax(&mut costs, &mut queue, tiles, width, x, y - 1, current_cost, Ghost(t));
            proof {
                reached = lemma_relax_keeps(
                    t,
                    c0,
                    q0,
                    front,
                    reached,
                    x as int,
                    y as int,
                    x as int,
                    y - 1,
                    costs@,
                    queue@,
                );
            }
        }
        assert(covers(t, costs@, x as int, y as int, x as int, y - 1));
        assert(covers(t, costs@, x as int, y as int, x as int, y + 1));
        assert(covers(t, costs@, x as int, y as int, x - 1, y as int));
        assert(covers(t, costs@, x as int, y as int, x + 1, y as int));
        assert(closed_at(t, costs@, x as int, y as int));
    }
    proof {
        assert(closed(t, costs@)) by {
            assert forall|x: int, y: int| #[trigger] assigned(t, costs@, x, y) implies closed_at(
                t,
                costs@,
                x,
                y,
            ) by {
                assert(!queued(t, queue@, x, y));
            }
        }
        lemma_settled(t, costs@);
    }
    costs
}

} // verus!

// An agent's walk along a field, tick by tick. The library decides which
// cell an agent heads for; the step in world space needs fractions and is
// written out here as its caller makes it.

use towerdefense::coord::GridCoord;
use towerdefense::flow::FlowField;
use towerdefense::grid::GridMap;

const WINDOW_WIDTH: f32 = 1280.0;
const WINDOW_HEIGHT: f32 = 720.0;
const CELL: f32 = 48.0;

fn centre_of(c: GridCoord) -> (f32, f32) {
    (
        -WINDOW_WIDTH / 2.0 + c.x as f32 * CELL + CELL / 2.0,
        WINDOW_HEIGHT / 2.0 - c.y as f32 * CELL - CELL / 2.0,
    )
}

fn cell_of(map: &GridMap, world: (f32, f32)) -> GridCoord {
    let column = ((world.0 + WINDOW_WIDTH / 2.0) / CELL).floor();
    let row = ((WINDOW_HEIGHT / 2.0 - world.1) / CELL).floor();
    map.clamp_to_grid(column as i64, row as i64)
}

fn tick(map: &GridMap, field: &FlowField, position: (f32, f32), budget: f32) -> (f32, f32) {
    if !field.is_initialized() {
        return position;
    }
    let Some(next) = field.next_cell(cell_of(map, position)) else {
        return position;
    };
    let target = centre_of(next);
    let to_target = (target.0 - position.0, target.1 - position.1);
    let length = (to_target.0 * to_target.0 + to_target.1 * to_target.1).sqrt();
    if length <= budget {
        target
    } else {
        (
            position.0 + to_target.0 / length * budget,
            position.1 + to_target.1 / length * budget,
        )
    }
}

fn corridor() -> (GridMap, FlowField) {
    let path: Vec<GridCoord> = (0..5).map(|x| GridCoord::new(x, 0)).collect();
    let map = GridMap::from_tiles(
        GridCoord::new(5, 1),
        path,
        Vec::new(),
        GridCoord::new(0, 0),
        GridCoord::new(4, 0),
    )
    .unwrap();
    let field = FlowField::for_map(&map).unwrap();
    (map, field)
}

#[test]
fn no_budget_no_move() {
    let (map, field) = corridor();
    let at = centre_of(GridCoord::new(1, 0));
    assert_eq!(tick(&map, &field, at, 0.0), at);
}

#[test]
fn large_budget_snaps_to_the_next_centre() {
    let (map, field) = corridor();
    let at = centre_of(GridCoord::new(1, 0));
    let after = tick(&map, &field, at, 1000.0);
    assert_eq!(after, centre_of(GridCoord::new(2, 0)));
    // From anywhere in the cell, not only from its centre.
    let after = tick(&map, &field, (at.0 - 20.0, at.1 + 13.0), 1000.0);
    assert_eq!(after, centre_of(GridCoord::new(2, 0)));
}

#[test]
fn small_budget_moves_by_the_budget_toward_the_next_centre() {
    let (map, field) = corridor();
    let at = centre_of(GridCoord::new(1, 0));
    let after = tick(&map, &field, at, 12.0);
    assert_eq!(after, (at.0 + 12.0, at.1));
}

#[test]
fn an_agent_at_the_goal_stays() {
    let (map, field) = corridor();
    let at = centre_of(GridCoord::new(4, 0));
    assert_eq!(tick(&map, &field, at, 50.0), at);
    assert_eq!(tick(&map, &field, (at.0 + 5.0, at.1 - 3.0), 50.0), (at.0 + 5.0, at.1 - 3.0));
}

#[test]
fn an_agent_walks_cell_by_cell_into_the_goal() {
    let (map, field) = corridor();
    let mut at = centre_of(GridCoord::new(0, 0));
    let mut cells = vec![cell_of(&map, at)];
    let mut ticks = 0;
    loop {
        let next = tick(&map, &field, at, 20.0);
        if next == at {
            break;
        }
        assert!(next.0 > at.0 && next.0 - at.0 <= 20.0);
        assert_eq!(next.1, at.1);
        at = next;
        let cell = cell_of(&map, at);
        if *cells.last().unwrap() != cell {
            cells.push(cell);
        }
        ticks += 1;
        assert!(ticks < 100);
    }
    // It stops as soon as it stands on the goal.
    assert_eq!(cell_of(&map, at), GridCoord::new(4, 0));
    assert_eq!(at, (-436.0, 336.0));
    assert_eq!(
        cells,
        (0..5).map(|x| GridCoord::new(x, 0)).collect::<Vec<_>>()
    );
}

#[test]
fn an_agent_on_a_blank_field_stays() {
    let (map, _) = corridor();
    let field = FlowField::new(5, 1);
    let at = centre_of(GridCoord::new(1, 0));
    assert_eq!(tick(&map, &field, at, 50.0), at);
}

use towerdefense::coord::GridCoord;
use towerdefense::direction::{FlowDirection, FlowVector};
use towerdefense::flow::FlowField;
use towerdefense::grid::GridMap;
use towerdefense::terrain::{MAX_CELLS, STEP_COST, UNREACHABLE};

fn tiles(cells: &[(u32, u32)]) -> Vec<GridCoord> {
    cells.iter().map(|&(x, y)| GridCoord::new(x, y)).collect()
}

fn map_of(width: u32, height: u32, path: &[(u32, u32)], end: (u32, u32)) -> GridMap {
    GridMap::from_tiles(
        GridCoord::new(width, height),
        tiles(path),
        Vec::new(),
        GridCoord::new(0, 0),
        GridCoord::new(end.0, end.1),
    )
    .unwrap()
}

fn corridor() -> GridMap {
    map_of(5, 1, &[(0, 0), (1, 0), (2, 0), (3, 0), (4, 0)], (4, 0))
}

fn ring() -> GridMap {
    map_of(
        3,
        3,
        &[(0, 0), (1, 0), (2, 0), (0, 1), (2, 1), (0, 2), (1, 2), (2, 2)],
        (2, 2),
    )
}

#[test]
fn constants_have_their_values() {
    assert_eq!(STEP_COST, 10);
    assert_eq!(UNREACHABLE, u32::MAX);
    assert_eq!(MAX_CELLS, 429_496_729);
    assert!((MAX_CELLS as u64) * (STEP_COST as u64) < UNREACHABLE as u64);
    assert!((MAX_CELLS as u64 + 1) * (STEP_COST as u64) > UNREACHABLE as u64);
}

#[test]
fn new_field_is_blank() {
    let field = FlowField::new(4, 3);
    assert_eq!(field.width(), 4);
    assert_eq!(field.height(), 3);
    assert!(!field.is_initialized());
    assert_eq!(field.integration_field(), &vec![UNREACHABLE; 12]);
    assert_eq!(field.field(), &vec![None; 12]);
}

#[test]
fn default_field_has_no_cell() {
    let field = FlowField::default();
    assert_eq!(field.width(), 0);
    assert_eq!(field.height(), 0);
    assert!(!field.is_initialized());
    assert!(field.integration_field().is_empty());
    assert!(field.field().is_empty());
    assert_eq!(field.get_direction(0, 0), None);
    assert_eq!(field.get_index(0, 0), 0);
    assert_eq!(field.get_coordinates(0), (0, 0));
}

#[test]
fn index_is_row_major() {
    let field = FlowField::new(5, 4);
    assert_eq!(field.get_index(0, 0), 0);
    assert_eq!(field.get_index(4, 0), 4);
    assert_eq!(field.get_index(0, 1), 5);
    assert_eq!(field.get_index(3, 2), 13);
    assert_eq!(field.get_index(4, 3), 19);
}

#[test]
fn index_off_the_grid_is_zero() {
    let field = FlowField::new(5, 4);
    assert_eq!(field.get_index(5, 0), 0);
    assert_eq!(field.get_index(0, 4), 0);
    assert_eq!(field.get_index(usize::MAX, usize::MAX), 0);
}

#[test]
fn coordinates_invert_index() {
    let field = FlowField::new(5, 4);
    assert_eq!(field.get_coordinates(0), (0, 0));
    assert_eq!(field.get_coordinates(4), (4, 0));
    assert_eq!(field.get_coordinates(5), (0, 1));
    assert_eq!(field.get_coordinates(13), (3, 2));
    assert_eq!(field.get_coordinates(19), (4, 3));
    for y in 0..4 {
        for x in 0..5 {
            assert_eq!(field.get_coordinates(field.get_index(x, y)), (x, y));
        }
    }
}

#[test]
fn coordinates_beyond_the_arrays_are_zero() {
    let field = FlowField::new(5, 4);
    assert_eq!(field.get_coordinates(20), (0, 0));
    assert_eq!(field.get_coordinates(usize::MAX), (0, 0));
}

#[test]
fn straight_corridor() {
    let mut field = FlowField::new(5, 1);
    field.compute(&corridor(), GridCoord::new(4, 0));
    assert!(field.is_initialized());
    assert_eq!(field.integration_field(), &vec![40, 30, 20, 10, 0]);
    assert_eq!(
        field.field(),
        &vec![
            Some(FlowDirection::East),
            Some(FlowDirection::East),
            Some(FlowDirection::East),
            Some(FlowDirection::East),
            Some(FlowDirection::Stay),
        ]
    );
}

#[test]
fn ring_around_a_hole() {
    let mut field = FlowField::new(3, 3);
    field.compute(&ring(), GridCoord::new(2, 2));
    assert!(field.is_initialized());
    assert_eq!(
        field.integration_field(),
        &vec![40, 30, 20, 30, UNREACHABLE, 10, 20, 10, 0]
    );
    assert_eq!(
        field.field(),
        &vec![
            Some(FlowDirection::East),
            Some(FlowDirection::East),
            Some(FlowDirection::South),
            Some(FlowDirection::South),
            None,
            Some(FlowDirection::South),
            Some(FlowDirection::East),
            Some(FlowDirection::East),
            Some(FlowDirection::Stay),
        ]
    );
    // The far corner has two equally cheap neighbours; east is weighed first.
    assert_eq!(field.get_direction(0, 0), Some(FlowDirection::East));
    assert!(field.integration_field()[0] < UNREACHABLE);
}

#[test]
fn goal_off_the_grid_is_rejected() {
    let map = map_of(5, 5, &[(0, 0), (1, 0), (2, 0)], (2, 0));
    let mut field = FlowField::new(5, 5);
    field.compute(&map, GridCoord::new(10, 10));
    assert!(!field.is_initialized());
    assert_eq!(field.integration_field(), &vec![UNREACHABLE; 25]);
    assert_eq!(field.field(), &vec![None; 25]);
}

#[test]
fn goal_off_the_grid_in_one_axis_is_rejected() {
    let map = map_of(5, 5, &[(0, 0), (1, 0), (2, 0)], (2, 0));
    let mut field = FlowField::new(5, 5);
    field.compute(&map, GridCoord::new(5, 0));
    assert!(!field.is_initialized());
    field.compute(&map, GridCoord::new(0, 5));
    assert!(!field.is_initialized());
    field.compute(&map, GridCoord::new(4, 4));
    assert!(field.is_initialized());
}

#[test]
fn rejected_goal_blanks_an_earlier_result() {
    let mut field = FlowField::new(5, 1);
    field.compute(&corridor(), GridCoord::new(4, 0));
    assert!(field.is_initialized());
    field.compute(&corridor(), GridCoord::new(5, 0));
    assert!(!field.is_initialized());
    assert_eq!(field.integration_field(), &vec![UNREACHABLE; 5]);
    assert_eq!(field.field(), &vec![None; 5]);
    assert_eq!(field.next_cell(GridCoord::new(0, 0)), None);
}

#[test]
fn goal_costs_nothing_and_stays() {
    let mut field = FlowField::new(3, 3);
    field.compute(&ring(), GridCoord::new(0, 1));
    let goal = field.get_index(0, 1);
    assert_eq!(field.integration_field()[goal], 0);
    assert_eq!(field.field()[goal], Some(FlowDirection::Stay));
}

#[test]
fn goal_that_is_no_tile_has_no_direction_and_attracts_none() {
    // The goal (2, 0) is not walkable: its neighbours are reached, but no
    // cell may point at it.
    let map = map_of(3, 1, &[(0, 0), (1, 0)], (0, 0));
    let mut field = FlowField::new(3, 1);
    field.compute(&map, GridCoord::new(2, 0));
    assert!(field.is_initialized());
    assert_eq!(field.integration_field(), &vec![20, 10, 0]);
    assert_eq!(
        field.field(),
        &vec![Some(FlowDirection::East), Some(FlowDirection::Stay), None]
    );
}

#[test]
fn costs_fall_along_every_direction() {
    let mut field = FlowField::new(3, 3);
    field.compute(&ring(), GridCoord::new(2, 2));
    for y in 0..3usize {
        for x in 0..3usize {
            let own = field.integration_field()[field.get_index(x, y)];
            let (nx, ny) = match field.get_direction(x, y) {
                Some(FlowDirection::North) => (x, y - 1),
                Some(FlowDirection::South) => (x, y + 1),
                Some(FlowDirection::East) => (x + 1, y),
                Some(FlowDirection::West) => (x - 1, y),
                _ => continue,
            };
            assert!(nx < 3 && ny < 3);
            assert!(field.integration_field()[field.get_index(nx, ny)] < own);
        }
    }
}

#[test]
fn tiles_cut_off_from_the_goal_stay_unreached() {
    // Two segments of one row, parted by a gap at x = 2.
    let map = map_of(5, 1, &[(0, 0), (1, 0), (3, 0), (4, 0)], (4, 0));
    let mut field = FlowField::new(5, 1);
    field.compute(&map, GridCoord::new(4, 0));
    assert!(field.is_initialized());
    assert_eq!(
        field.integration_field(),
        &vec![UNREACHABLE, UNREACHABLE, UNREACHABLE, 10, 0]
    );
    assert_eq!(
        field.field(),
        &vec![
            None,
            None,
            None,
            Some(FlowDirection::East),
            Some(FlowDirection::Stay)
        ]
    );
}

#[test]
fn tiles_off_the_field_are_ignored() {
    // The map is larger than the field: tiles beyond the field play no part.
    let map = map_of(6, 2, &[(0, 0), (1, 0), (2, 0), (5, 1), (3, 0)], (0, 0));
    let mut field = FlowField::new(3, 1);
    field.compute(&map, GridCoord::new(0, 0));
    assert!(field.is_initialized());
    assert_eq!(field.integration_field(), &vec![0, 10, 20]);
    assert_eq!(
        field.field(),
        &vec![
            Some(FlowDirection::Stay),
            Some(FlowDirection::West),
            Some(FlowDirection::West)
        ]
    );
}

#[test]
fn computing_twice_gives_the_same_field() {
    let map = ring();
    let mut field = FlowField::new(3, 3);
    field.compute(&map, GridCoord::new(2, 2));
    let costs = field.integration_field().clone();
    let directions = field.field().clone();
    field.compute(&map, GridCoord::new(2, 2));
    assert_eq!(field.integration_field(), &costs);
    assert_eq!(field.field(), &directions);
    let mut other = FlowField::new(3, 3);
    other.compute(&map, GridCoord::new(2, 2));
    assert_eq!(other.integration_field(), &costs);
    assert_eq!(other.field(), &directions);
}

#[test]
fn a_new_goal_overwrites_the_field() {
    let mut field = FlowField::new(5, 1);
    field.compute(&corridor(), GridCoord::new(4, 0));
    field.compute(&corridor(), GridCoord::new(0, 0));
    assert_eq!(field.integration_field(), &vec![0, 10, 20, 30, 40]);
    assert_eq!(
        field.field(),
        &vec![
            Some(FlowDirection::Stay),
            Some(FlowDirection::West),
            Some(FlowDirection::West),
            Some(FlowDirection::West),
            Some(FlowDirection::West),
        ]
    );
}

#[test]
fn the_order_of_the_tiles_does_not_matter() {
    let forward = map_of(5, 1, &[(0, 0), (1, 0), (2, 0), (3, 0), (4, 0)], (4, 0));
    let shuffled = map_of(5, 1, &[(3, 0), (0, 0), (4, 0), (2, 0), (1, 0)], (4, 0));
    let mut a = FlowField::new(5, 1);
    let mut b = FlowField::new(5, 1);
    a.compute(&forward, GridCoord::new(4, 0));
    b.compute(&shuffled, GridCoord::new(4, 0));
    assert_eq!(a.integration_field(), b.integration_field());
    assert_eq!(a.field(), b.field());
}

#[test]
fn ties_go_east_then_west_then_south_then_north() {
    // Every cell of a 3 x 3 grid is walkable. With the goal in a corner the
    // centre has two equally cheap neighbours.
    let all: Vec<(u32, u32)> = (0..3).flat_map(|y| (0..3).map(move |x| (x, y))).collect();
    let map = map_of(3, 3, &all, (0, 0));
    // Goal north-west: from (1, 1) west and north are equally cheap.
    let mut field = FlowField::new(3, 3);
    field.compute(&map, GridCoord::new(0, 0));
    assert_eq!(field.get_direction(1, 1), Some(FlowDirection::West));
    // Goal south-east: east and south are equally cheap.
    field.compute(&map, GridCoord::new(2, 2));
    assert_eq!(field.get_direction(1, 1), Some(FlowDirection::East));
    // Goal north-east: east and north.
    field.compute(&map, GridCoord::new(2, 0));
    assert_eq!(field.get_direction(1, 1), Some(FlowDirection::East));
    // Goal south-west: west and south.
    field.compute(&map, GridCoord::new(0, 2));
    assert_eq!(field.get_direction(1, 1), Some(FlowDirection::West));
    // Goal south: only south descends.
    field.compute(&map, GridCoord::new(1, 2));
    assert_eq!(field.get_direction(1, 1), Some(FlowDirection::South));
    assert_eq!(field.get_direction(1, 0), Some(FlowDirection::South));
    // Goal north: only north descends.
    field.compute(&map, GridCoord::new(1, 0));
    assert_eq!(field.get_direction(1, 1), Some(FlowDirection::North));
    assert_eq!(field.get_direction(1, 2), Some(FlowDirection::North));
}

#[test]
fn south_wins_over_north_among_equals() {
    // A ring around the hole (1, 1) with the goal in the middle of its east
    // side: the middle of the west side has its northern and its southern
    // neighbour at the same cost.
    let mut field = FlowField::new(3, 3);
    field.compute(&ring(), GridCoord::new(2, 1));
    assert_eq!(
        field.integration_field(),
        &vec![30, 20, 10, 40, UNREACHABLE, 0, 30, 20, 10]
    );
    assert_eq!(field.get_direction(0, 1), Some(FlowDirection::South));
    assert_eq!(field.next_cell(GridCoord::new(0, 1)), Some(GridCoord::new(0, 2)));
}

#[test]
fn direction_off_the_grid_is_none() {
    let mut field = FlowField::new(5, 1);
    field.compute(&corridor(), GridCoord::new(4, 0));
    assert_eq!(field.get_direction(5, 0), None);
    assert_eq!(field.get_direction(0, 1), None);
    assert_eq!(field.get_direction(usize::MAX, 0), None);
    assert_eq!(field.get_direction(0, 0), Some(FlowDirection::East));
}

#[test]
fn unit_vectors_follow_the_world_axes() {
    assert_eq!(FlowDirection::North.to_vec2(), FlowVector { x: 0, y: 1 });
    assert_eq!(FlowDirection::South.to_vec2(), FlowVector { x: 0, y: -1 });
    assert_eq!(FlowDirection::East.to_vec2(), FlowVector { x: 1, y: 0 });
    assert_eq!(FlowDirection::West.to_vec2(), FlowVector { x: -1, y: 0 });
    assert_eq!(FlowDirection::Stay.to_vec2(), FlowVector { x: 0, y: 0 });
}

#[test]
fn flow_vectors_of_a_field() {
    let mut field = FlowField::new(3, 3);
    field.compute(&ring(), GridCoord::new(2, 2));
    assert_eq!(field.get_flow_vector(0, 0), FlowVector { x: 1, y: 0 });
    assert_eq!(field.get_flow_vector(2, 0), FlowVector { x: 0, y: -1 });
    assert_eq!(field.get_flow_vector(1, 1), FlowVector { x: 0, y: 0 });
    assert_eq!(field.get_flow_vector(2, 2), FlowVector { x: 0, y: 0 });
    assert_eq!(field.get_flow_vector(3, 0), FlowVector { x: 0, y: 0 });
    assert_eq!(field.get_flow_vector(0, 3), FlowVector { x: 0, y: 0 });
    field.compute(&ring(), GridCoord::new(0, 0));
    assert_eq!(field.get_flow_vector(2, 2), FlowVector { x: -1, y: 0 });
    assert_eq!(field.get_flow_vector(0, 2), FlowVector { x: 0, y: 1 });
}

#[test]
fn flow_vector_of_a_blank_field_is_zero() {
    let field = FlowField::new(3, 3);
    for y in 0..4 {
        for x in 0..4 {
            assert_eq!(field.get_flow_vector(x, y), FlowVector { x: 0, y: 0 });
        }
    }
}

#[test]
fn next_cell_follows_the_field_to_the_goal() {
    let mut field = FlowField::new(3, 3);
    field.compute(&ring(), GridCoord::new(2, 2));
    let mut at = GridCoord::new(0, 0);
    let mut visited = vec![at];
    while let Some(next) = field.next_cell(at) {
        let before = field.integration_field()[field.get_index(at.x as usize, at.y as usize)];
        let after = field.integration_field()[field.get_index(next.x as usize, next.y as usize)];
        assert_eq!(after + STEP_COST, before);
        at = next;
        visited.push(at);
    }
    assert_eq!(
        visited,
        tiles(&[(0, 0), (1, 0), (2, 0), (2, 1), (2, 2)])
    );
}

#[test]
fn next_cell_in_each_direction() {
    let all: Vec<(u32, u32)> = (0..3).flat_map(|y| (0..3).map(move |x| (x, y))).collect();
    let map = map_of(3, 3, &all, (1, 1));
    let mut field = FlowField::new(3, 3);
    field.compute(&map, GridCoord::new(1, 1));
    assert_eq!(field.next_cell(GridCoord::new(0, 1)), Some(GridCoord::new(1, 1)));
    assert_eq!(field.next_cell(GridCoord::new(2, 1)), Some(GridCoord::new(1, 1)));
    assert_eq!(field.next_cell(GridCoord::new(1, 0)), Some(GridCoord::new(1, 1)));
    assert_eq!(field.next_cell(GridCoord::new(1, 2)), Some(GridCoord::new(1, 1)));
    assert_eq!(field.get_direction(0, 1), Some(FlowDirection::East));
    assert_eq!(field.get_direction(2, 1), Some(FlowDirection::West));
    assert_eq!(field.get_direction(1, 0), Some(FlowDirection::South));
    assert_eq!(field.get_direction(1, 2), Some(FlowDirection::North));
}

#[test]
fn no_next_cell_at_the_goal_off_the_grid_or_without_direction() {
    let mut field = FlowField::new(3, 3);
    field.compute(&ring(), GridCoord::new(2, 2));
    assert_eq!(field.next_cell(GridCoord::new(2, 2)), None);
    assert_eq!(field.next_cell(GridCoord::new(1, 1)), None);
    assert_eq!(field.next_cell(GridCoord::new(3, 0)), None);
    assert_eq!(field.next_cell(GridCoord::new(0, 3)), None);
    assert_eq!(field.next_cell(GridCoord::new(u32::MAX, u32::MAX)), None);
}

#[test]
fn no_next_cell_on_a_blank_field() {
    let field = FlowField::new(3, 3);
    for y in 0..3 {
        for x in 0..3 {
            assert_eq!(field.next_cell(GridCoord::new(x, y)), None);
        }
    }
}

#[test]
fn field_for_a_map_routes_to_its_end() {
    let field = FlowField::for_map(&corridor()).unwrap();
    assert_eq!(field.width(), 5);
    assert_eq!(field.height(), 1);
    assert!(field.is_initialized());
    assert_eq!(field.integration_field(), &vec![40, 30, 20, 10, 0]);
    let field = FlowField::for_map(&GridMap::new()).unwrap();
    assert_eq!(field.width(), 26);
    assert_eq!(field.height(), 15);
    assert!(field.is_initialized());
    let goal = field.get_index(25, 7);
    assert_eq!(field.integration_field()[goal], 0);
    assert_eq!(field.field()[goal], None);
    assert_eq!(
        field
            .integration_field()
            .iter()
            .filter(|&&c| c != UNREACHABLE)
            .count(),
        1
    );
}

#[test]
fn no_field_for_a_map_with_too_many_cells() {
    let map = GridMap::from_tiles(
        GridCoord::new(65_536, 65_536),
        Vec::new(),
        Vec::new(),
        GridCoord::new(0, 0),
        GridCoord::new(0, 0),
    )
    .unwrap();
    assert!(FlowField::for_map(&map).is_none());
    let map = GridMap::from_tiles(
        GridCoord::new(u32::MAX, u32::MAX),
        Vec::new(),
        Vec::new(),
        GridCoord::new(0, 0),
        GridCoord::new(0, 0),
    )
    .unwrap();
    assert!(FlowField::for_map(&map).is_none());
}

#[test]
fn a_clone_holds_the_same_field() {
    let mut field = FlowField::new(3, 3);
    field.compute(&ring(), GridCoord::new(2, 2));
    let copy = field.clone();
    assert_eq!(copy.width(), 3);
    assert_eq!(copy.height(), 3);
    assert!(copy.is_initialized());
    assert_eq!(copy.integration_field(), field.integration_field());
    assert_eq!(copy.field(), field.field());
}

#[test]
fn a_winding_path_is_costed_by_its_length() {
    // From (0, 2) right to (3, 2), up to (3, 0), right to (5, 0).
    let path = [
        (0, 2),
        (1, 2),
        (2, 2),
        (3, 2),
        (3, 1),
        (3, 0),
        (4, 0),
        (5, 0),
    ];
    let map = map_of(6, 3, &path, (5, 0));
    let field = FlowField::for_map(&map).unwrap();
    for (steps, &(x, y)) in path.iter().rev().enumerate() {
        let index = field.get_index(x as usize, y as usize);
        assert_eq!(field.integration_field()[index], STEP_COST * steps as u32);
    }
    assert_eq!(field.get_direction(0, 2), Some(FlowDirection::East));
    assert_eq!(field.get_direction(3, 2), Some(FlowDirection::North));
    assert_eq!(field.get_direction(3, 1), Some(FlowDirection::North));
    assert_eq!(field.get_direction(3, 0), Some(FlowDirection::East));
    assert_eq!(field.get_direction(5, 0), Some(FlowDirection::Stay));
    assert_eq!(field.get_direction(0, 0), None);
}

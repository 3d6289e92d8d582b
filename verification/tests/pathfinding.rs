use robot_swarm::known::{CoordSet, KnownMap};
use robot_swarm::map::{Tile, WorldMap};
use robot_swarm::pathfinder::{fallback_step, frontier_step, greedy_step};
use robot_swarm::robot::{Robot, RobotModule};

fn test_map() -> WorldMap {
    let grid = vec![
        vec![Tile::Energy, Tile::Mineral, Tile::Obstacle, Tile::Empty, Tile::Science],
        vec![Tile::Empty, Tile::Energy, Tile::Mineral, Tile::Empty, Tile::Obstacle],
        vec![Tile::Empty, Tile::Science, Tile::Empty, Tile::Energy, Tile::Empty],
        vec![Tile::Mineral, Tile::Empty, Tile::Obstacle, Tile::Empty, Tile::Science],
        vec![Tile::Empty, Tile::Empty, Tile::Empty, Tile::Empty, Tile::Empty],
    ];
    WorldMap { grid, cols: 5 }
}

fn empty_map(rows: usize, cols: usize) -> WorldMap {
    WorldMap { grid: vec![vec![Tile::Empty; cols]; rows], cols }
}

/// What a robot knows that has seen every cell of a grid.
fn all_of(map: &WorldMap) -> KnownMap {
    let mut known = KnownMap::new();
    for (r, row) in map.grid.iter().enumerate() {
        for (c, tile) in row.iter().enumerate() {
            known.insert((r, c), *tile);
        }
    }
    known
}

#[test]
fn frontier_search_takes_the_first_step_of_the_shortest_route() {
    let map = test_map();
    let known = all_of(&map);
    let occupied = CoordSet::new();
    // the nearest resource from (4, 4) is the energy at (2, 3), three steps
    // away by (4, 3) and (3, 3)
    assert_eq!(frontier_step((4, 4), &map, &known, &occupied), Some((4, 3)));
}

#[test]
fn frontier_search_steps_onto_a_neighboring_resource() {
    let map = test_map();
    let known = all_of(&map);
    let occupied = CoordSet::new();
    assert_eq!(frontier_step((0, 0), &map, &known, &occupied), Some((0, 1)));
    assert_eq!(frontier_step((2, 2), &map, &known, &occupied), Some((2, 3)));
}

#[test]
fn frontier_search_breaks_ties_by_the_order_of_directions() {
    let map = empty_map(3, 3);
    let mut known = KnownMap::new();
    // four resources at distance one: next column comes first
    known.insert((1, 2), Tile::Energy);
    known.insert((2, 1), Tile::Energy);
    known.insert((1, 0), Tile::Energy);
    known.insert((0, 1), Tile::Energy);
    let occupied = CoordSet::new();
    assert_eq!(frontier_step((1, 1), &map, &known, &occupied), Some((1, 2)));
    known.insert((1, 2), Tile::Empty);
    assert_eq!(frontier_step((1, 1), &map, &known, &occupied), Some((2, 1)));
    known.insert((2, 1), Tile::Empty);
    assert_eq!(frontier_step((1, 1), &map, &known, &occupied), Some((1, 0)));
    known.insert((1, 0), Tile::Empty);
    assert_eq!(frontier_step((1, 1), &map, &known, &occupied), Some((0, 1)));
    known.insert((0, 1), Tile::Empty);
    assert_eq!(frontier_step((1, 1), &map, &known, &occupied), None);
}

#[test]
fn frontier_search_prefers_the_shorter_route_over_the_earlier_direction() {
    let map = empty_map(1, 7);
    let mut known = KnownMap::new();
    known.insert((0, 0), Tile::Mineral);
    known.insert((0, 6), Tile::Mineral);
    let occupied = CoordSet::new();
    // from (0, 2) the resource at column 0 is two steps away, the one at
    // column 6 four steps
    assert_eq!(frontier_step((0, 2), &map, &known, &occupied), Some((0, 1)));
    // from (0, 3) both are three steps away: the next column wins
    assert_eq!(frontier_step((0, 3), &map, &known, &occupied), Some((0, 4)));
}

#[test]
fn frontier_search_ignores_the_resource_under_the_robot() {
    let map = empty_map(2, 2);
    let mut known = KnownMap::new();
    known.insert((0, 0), Tile::Energy);
    let occupied = CoordSet::new();
    assert_eq!(frontier_step((0, 0), &map, &known, &occupied), None);
    known.insert((1, 1), Tile::Mineral);
    assert_eq!(frontier_step((0, 0), &map, &known, &occupied), Some((0, 1)));
}

#[test]
fn frontier_search_goes_around_known_obstacles_and_occupied_cells() {
    let map = empty_map(3, 3);
    let mut known = KnownMap::new();
    known.insert((0, 2), Tile::Energy);
    known.insert((0, 1), Tile::Obstacle);
    let mut occupied = CoordSet::new();
    // (0, 0) -> (1, 0) -> (1, 1) -> (1, 2) -> (0, 2)
    assert_eq!(frontier_step((0, 0), &map, &known, &occupied), Some((1, 0)));
    occupied.insert((1, 1));
    // (0, 0) -> (1, 0) -> (2, 0) -> (2, 1) -> (2, 2) -> (1, 2) -> (0, 2)
    assert_eq!(frontier_step((0, 0), &map, &known, &occupied), Some((1, 0)));
    occupied.insert((2, 1));
    assert_eq!(frontier_step((0, 0), &map, &known, &occupied), None);
}

#[test]
fn frontier_search_never_reaches_an_occupied_resource() {
    let map = empty_map(1, 3);
    let mut known = KnownMap::new();
    known.insert((0, 2), Tile::Energy);
    let mut occupied = CoordSet::new();
    occupied.insert((0, 2));
    assert_eq!(frontier_step((0, 0), &map, &known, &occupied), None);
}

#[test]
fn frontier_search_only_goes_for_resources_that_the_robot_knows_of() {
    let map = test_map();
    let occupied = CoordSet::new();
    let mut known = KnownMap::new();
    assert_eq!(frontier_step((4, 4), &map, &known, &occupied), None);
    known.insert((3, 0), Tile::Mineral);
    // the way leads west along the bottom row, over cells not yet seen
    assert_eq!(frontier_step((4, 4), &map, &known, &occupied), Some((4, 3)));
    // a resource that the robot believes in outside the grid is out of reach
    let mut dreamer = KnownMap::new();
    dreamer.insert((9, 9), Tile::Energy);
    assert_eq!(frontier_step((4, 4), &map, &dreamer, &occupied), None);
}

#[test]
fn the_move_does_not_depend_on_what_the_grid_holds() {
    // two grids of one shape that differ in a cell the robot has not seen
    let free = empty_map(1, 2);
    let mut blocked = empty_map(1, 2);
    blocked.set((0, 1), Tile::Obstacle);
    let occupied = CoordSet::new();
    let known = KnownMap::new();
    assert_eq!(
        fallback_step((0, 0), &free, &known, &occupied),
        fallback_step((0, 0), &blocked, &known, &occupied)
    );
    assert_eq!(fallback_step((0, 0), &blocked, &known, &occupied), Some((0, 1)));
    assert_eq!(
        greedy_step((0, 0), (0, 1), &free, &known, &occupied),
        greedy_step((0, 0), (0, 1), &blocked, &known, &occupied)
    );

    let mut one = Robot::new(1, (0, 0), vec![RobotModule::Explorer]);
    let mut other = Robot::new(1, (0, 0), vec![RobotModule::Explorer]);
    one.smart_move(&free, &occupied);
    other.smart_move(&blocked, &occupied);
    assert_eq!(one.position, other.position);

    let map = test_map();
    let mut known = KnownMap::new();
    known.insert((2, 3), Tile::Energy);
    known.insert((3, 3), Tile::Obstacle);
    assert_eq!(
        frontier_step((4, 4), &map, &known, &occupied),
        frontier_step((4, 4), &empty_map(5, 5), &known, &occupied)
    );
}

#[test]
fn static_obstacles_reach_the_robot_through_the_occupancy_set() {
    let mut map = empty_map(1, 2);
    map.set((0, 1), Tile::Obstacle);
    let known = KnownMap::new();
    let mut occupied = CoordSet::new();
    occupied.insert((0, 1));
    assert_eq!(fallback_step((0, 0), &map, &known, &occupied), None);
    assert_eq!(greedy_step((0, 0), (0, 1), &map, &known, &occupied), (0, 0));
}

#[test]
fn frontier_search_from_outside_the_grid() {
    let map = empty_map(2, 2);
    let mut known = KnownMap::new();
    known.insert((1, 1), Tile::Energy);
    let occupied = CoordSet::new();
    // (2, 1) lies just below the grid; its neighbor one row back is (1, 1)
    assert_eq!(frontier_step((2, 1), &map, &known, &occupied), Some((1, 1)));
    assert_eq!(frontier_step((7, 7), &map, &known, &occupied), None);
    assert_eq!(frontier_step((0, 0), &empty_map(0, 0), &known, &occupied), None);
}

#[test]
fn the_pathfinder_answers_the_same_every_time() {
    let map = test_map();
    let mut occupied = CoordSet::new();
    occupied.insert((3, 3));
    let known = all_of(&map);
    for start in [(4, 4), (0, 0), (2, 2), (4, 0), (3, 1)] {
        let first = frontier_step(start, &map, &known, &occupied);
        let second = frontier_step(start, &map, &known, &occupied);
        assert_eq!(first, second);
        assert_eq!(
            fallback_step(start, &map, &known, &occupied),
            fallback_step(start, &map, &known, &occupied)
        );
        assert_eq!(
            greedy_step(start, (0, 0), &map, &known, &occupied),
            greedy_step(start, (0, 0), &map, &known, &occupied)
        );
    }
}

#[test]
fn fallback_prefers_a_neighbor_not_yet_seen() {
    let map = empty_map(3, 3);
    let occupied = CoordSet::new();
    let mut known = KnownMap::new();
    assert_eq!(fallback_step((1, 1), &map, &known, &occupied), Some((1, 2)));
    known.insert((1, 2), Tile::Empty);
    assert_eq!(fallback_step((1, 1), &map, &known, &occupied), Some((2, 1)));
    known.insert((2, 1), Tile::Empty);
    known.insert((1, 0), Tile::Empty);
    assert_eq!(fallback_step((1, 1), &map, &known, &occupied), Some((0, 1)));
    known.insert((0, 1), Tile::Empty);
    // all seen: the first in the order of directions
    assert_eq!(fallback_step((1, 1), &map, &known, &occupied), Some((1, 2)));
}

#[test]
fn fallback_passes_over_closed_cells() {
    let map = empty_map(3, 3);
    let mut known = KnownMap::new();
    known.insert((1, 2), Tile::Obstacle);
    let mut occupied = CoordSet::new();
    occupied.insert((2, 1));
    assert_eq!(fallback_step((1, 1), &map, &known, &occupied), Some((1, 0)));
    assert_eq!(fallback_step((0, 0), &map, &known, &occupied), Some((0, 1)));
    // in the corner the grid's edge closes two directions, the obstacle
    // and the other robot the other two
    assert_eq!(fallback_step((2, 2), &map, &known, &occupied), None);
}

#[test]
fn fallback_with_no_open_neighbor_is_a_stall() {
    let map = WorldMap {
        grid: vec![
            vec![Tile::Obstacle, Tile::Obstacle, Tile::Obstacle],
            vec![Tile::Obstacle, Tile::Empty, Tile::Obstacle],
            vec![Tile::Obstacle, Tile::Obstacle, Tile::Obstacle],
        ],
        cols: 3,
    };
    let known = all_of(&map);
    let occupied = CoordSet::new();
    assert_eq!(fallback_step((1, 1), &map, &known, &occupied), None);
    assert_eq!(frontier_step((1, 1), &map, &known, &occupied), None);
}

#[test]
fn greedy_step_tries_the_row_and_then_the_column() {
    let map = empty_map(4, 4);
    let mut known = KnownMap::new();
    let mut occupied = CoordSet::new();
    assert_eq!(greedy_step((2, 2), (0, 0), &map, &known, &occupied), (1, 2));
    assert_eq!(greedy_step((2, 2), (3, 3), &map, &known, &occupied), (3, 2));
    assert_eq!(greedy_step((2, 2), (2, 0), &map, &known, &occupied), (2, 1));
    assert_eq!(greedy_step((2, 2), (2, 3), &map, &known, &occupied), (2, 3));
    assert_eq!(greedy_step((2, 2), (2, 2), &map, &known, &occupied), (2, 2));
    known.insert((1, 2), Tile::Obstacle);
    assert_eq!(greedy_step((2, 2), (0, 0), &map, &known, &occupied), (2, 1));
    occupied.insert((2, 1));
    assert_eq!(greedy_step((2, 2), (0, 0), &map, &known, &occupied), (2, 2));
    // a step away from the target is never taken
    assert_eq!(greedy_step((2, 2), (0, 2), &map, &known, &occupied), (2, 2));
}

#[test]
fn greedy_step_stays_inside_the_grid() {
    let map = empty_map(2, 2);
    let known = KnownMap::new();
    let occupied = CoordSet::new();
    assert_eq!(greedy_step((1, 1), (5, 5), &map, &known, &occupied), (1, 1));
    assert_eq!(greedy_step((0, 0), (0, 0), &map, &known, &occupied), (0, 0));
}

#[test]
fn an_exploring_move_remembers_where_the_robot_was() {
    let map = test_map();
    let mut robot = Robot::new(1, (4, 4), vec![RobotModule::Explorer]);
    robot.known_map = all_of(&map);
    robot.smart_move(&map, &CoordSet::new());
    assert_eq!(robot.position, (4, 3));
    assert_eq!(robot.last_position, Some((4, 4)));
}

#[test]
fn an_exploring_move_falls_back_where_no_resource_is_in_reach() {
    let map = empty_map(3, 3);
    let mut robot = Robot::new(1, (1, 1), vec![RobotModule::Explorer]);
    robot.known_map.insert((1, 2), Tile::Empty);
    robot.smart_move(&map, &CoordSet::new());
    assert_eq!(robot.position, (2, 1));
    assert_eq!(robot.last_position, Some((1, 1)));
}

#[test]
fn a_stalled_robot_keeps_its_last_position() {
    let map = empty_map(1, 1);
    let mut robot = Robot::new(1, (0, 0), vec![RobotModule::Explorer]);
    robot.smart_move(&map, &CoordSet::new());
    assert_eq!(robot.position, (0, 0));
    assert_eq!(robot.last_position, None);
}

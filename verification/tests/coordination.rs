use robot_swarm::coordinator::{
    collect_at_positions, hello_report, obstacle_cells, occupancy_for, CoordinatorAction,
    RobotCoordinator,
};
use robot_swarm::known::CoordSet;
use robot_swarm::map::{MapDiff, Tile, WorldMap};
use robot_swarm::robot::{Robot, RobotCmd, RobotModule, RobotState};
use robot_swarm::station::StationCmd;

fn field() -> WorldMap {
    WorldMap {
        grid: vec![
            vec![Tile::Empty, Tile::Energy, Tile::Obstacle],
            vec![Tile::Mineral, Tile::Obstacle, Tile::Science],
        ],
        cols: 3,
    }
}

fn coord_set(cells: Vec<(usize, usize)>) -> CoordSet {
    let mut set = CoordSet::new();
    for cell in cells {
        set.insert(cell);
    }
    set
}

#[test]
fn the_bulk_pickup_clears_cells_and_credits_robots() {
    let mut map = field();
    let positions = vec![(1, (0, 1)), (2, (1, 0)), (3, (1, 2)), (4, (0, 0)), (5, (9, 9))];
    let harvest = collect_at_positions(&mut map, &positions, 12);
    let report = harvest.report.expect("two resources were picked up");
    assert_eq!(report.robot_id, 0);
    assert_eq!(report.tick, 12);
    assert_eq!(report.energy, 1);
    assert_eq!(report.mineral, 1);
    assert_eq!(
        report.map_diff.0,
        vec![
            ((0, 1), Some(Tile::Energy), Tile::Empty),
            ((1, 0), Some(Tile::Mineral), Tile::Empty),
        ]
    );
    assert_eq!(harvest.credits, vec![(1, Tile::Energy), (2, Tile::Mineral)]);
    assert_eq!(map.get((0, 1)), Some(Tile::Empty));
    assert_eq!(map.get((1, 0)), Some(Tile::Empty));
    assert_eq!(map.get((1, 2)), Some(Tile::Science));
    assert_eq!(map.get((0, 2)), Some(Tile::Obstacle));
}

#[test]
fn two_robots_on_one_resource_get_it_once() {
    let mut map = field();
    let positions = vec![(7, (0, 1)), (3, (0, 1)), (7, (0, 1))];
    let harvest = collect_at_positions(&mut map, &positions, 1);
    let report = harvest.report.expect("one resource was picked up");
    assert_eq!(report.energy, 1);
    assert_eq!(report.mineral, 0);
    assert_eq!(report.map_diff.0.len(), 1);
    assert_eq!(harvest.credits, vec![(7, Tile::Energy)]);
}

#[test]
fn a_bulk_pickup_of_nothing_reports_nothing() {
    let mut map = field();
    let before = map.grid.clone();
    let harvest = collect_at_positions(&mut map, &[(1, (0, 0)), (2, (0, 2)), (3, (5, 0))], 1);
    assert!(harvest.report.is_none());
    assert!(harvest.credits.is_empty());
    assert_eq!(map.grid, before);
    let harvest = collect_at_positions(&mut map, &[], 2);
    assert!(harvest.report.is_none());
}

#[test]
fn the_report_of_a_bulk_pickup_replays_to_the_same_grid() {
    let mut picked = field();
    let mut replayed = field();
    let harvest = collect_at_positions(&mut picked, &[(1, (1, 0)), (2, (0, 1))], 1);
    harvest.report.expect("two resources").map_diff.apply(&mut replayed);
    assert_eq!(picked.grid, replayed.grid);
}

#[test]
fn obstacles_are_the_obstacle_cells() {
    let map = field();
    assert_eq!(obstacle_cells(&map), coord_set(vec![(0, 2), (1, 1)]));
    let narrow = WorldMap { grid: vec![vec![Tile::Obstacle; 4], vec![Tile::Obstacle]], cols: 2 };
    assert_eq!(obstacle_cells(&narrow), coord_set(vec![(0, 0), (0, 1), (1, 0)]));
    assert!(obstacle_cells(&WorldMap { grid: vec![], cols: 5 }).is_empty());
}

#[test]
fn occupancy_leaves_out_the_robots_own_position() {
    let obstacles = coord_set(vec![(0, 2), (1, 1)]);
    let positions = vec![(1, (0, 0)), (2, (1, 0)), (3, (1, 2))];
    assert_eq!(
        occupancy_for(&obstacles, &positions, 2),
        coord_set(vec![(0, 2), (1, 1), (0, 0), (1, 2)])
    );
    assert_eq!(
        occupancy_for(&obstacles, &positions, 9),
        coord_set(vec![(0, 2), (1, 1), (0, 0), (1, 0), (1, 2)])
    );
    // a cell shared with another robot stays off-limits
    assert_eq!(
        occupancy_for(&CoordSet::new(), &[(1, (4, 4)), (2, (4, 4))], 1),
        coord_set(vec![(4, 4)])
    );
    // an obstacle under the robot stays off-limits
    assert_eq!(occupancy_for(&obstacles, &[(1, (1, 1))], 1), obstacles);
}

#[test]
fn a_spawn_launches_a_fresh_robot_and_announces_it() {
    let mut coordinator = RobotCoordinator::new();
    let mut map = field();
    let action = coordinator.handle_command(
        &mut map,
        StationCmd::Spawn { id: 3, modules: vec![RobotModule::Scanner], start_pos: (1, 1) },
    );
    match action {
        CoordinatorAction::Launch { robot, hello } => {
            assert_eq!(robot.id, 3);
            assert_eq!(robot.position, (1, 1));
            assert_eq!(robot.modules, vec![RobotModule::Scanner]);
            assert_eq!(robot.state, RobotState::Exploring);
            assert!(robot.known_map.is_empty());
            assert_eq!(hello.robot_id, 3);
            assert_eq!(hello.tick, 0);
            assert_eq!(hello.energy, 0);
            assert_eq!(hello.mineral, 0);
            assert!(hello.map_diff.0.is_empty());
        }
        other => panic!("expected a launch, got {:?}", other),
    }
    assert!(coordinator.has_robot(3));
    assert!(!coordinator.has_robot(4));
    assert_eq!(coordinator.robot_count(), 1);
    assert_eq!(map.grid, field().grid);
}

#[test]
fn a_robot_is_on_the_roll_once() {
    let mut coordinator = RobotCoordinator::new();
    coordinator.spawn_robot_actor(Robot::new(1, (0, 0), vec![]));
    coordinator.spawn_robot_actor(Robot::new(2, (0, 0), vec![]));
    coordinator.spawn_robot_actor(Robot::new(1, (5, 5), vec![]));
    assert_eq!(coordinator.robot_count(), 2);
    assert_eq!(hello_report(2).robot_id, 2);
}

#[test]
fn a_snapshot_updates_the_grid_and_goes_to_its_robot() {
    let mut coordinator = RobotCoordinator::new();
    coordinator.spawn_robot_actor(Robot::new(4, (0, 0), vec![]));
    let mut map = field();

    let diff = MapDiff(vec![((0, 0), None, Tile::Science), ((8, 8), None, Tile::Energy)]);
    let action =
        coordinator.handle_command(&mut map, StationCmd::Snapshot { id: 4, version: 6, diff });
    match action {
        CoordinatorAction::Forward { to, cmd: RobotCmd::Snapshot { version, diff } } => {
            assert_eq!(to, 4);
            assert_eq!(version, 6);
            assert_eq!(
                diff.0,
                vec![((0, 0), None, Tile::Science), ((8, 8), None, Tile::Energy)]
            );
        }
        other => panic!("expected a forward, got {:?}", other),
    }
    assert_eq!(map.get((0, 0)), Some(Tile::Science));

    let diff = MapDiff(vec![((0, 0), None, Tile::Mineral)]);
    let action =
        coordinator.handle_command(&mut map, StationCmd::Snapshot { id: 0, version: 7, diff });
    assert!(matches!(action, CoordinatorAction::Applied));
    assert_eq!(map.get((0, 0)), Some(Tile::Mineral));
}

#[test]
fn the_coordinator_minds_its_own_business() {
    let mut coordinator = RobotCoordinator::new();
    let mut map = field();
    assert!(matches!(
        coordinator.handle_command(&mut map, StationCmd::Shutdown),
        CoordinatorAction::ShutdownAll
    ));
    assert!(matches!(
        coordinator.handle_command(&mut map, StationCmd::Version(3)),
        CoordinatorAction::Ignored
    ));
    assert!(matches!(
        coordinator.handle_command(&mut map, StationCmd::Log(String::new())),
        CoordinatorAction::Ignored
    ));
    assert!(matches!(
        coordinator
            .handle_command(&mut map, StationCmd::ResourceUpdate { energy: 1, mineral: 1 }),
        CoordinatorAction::Ignored
    ));
    assert_eq!(map.grid, field().grid);
    assert_eq!(coordinator.robot_count(), 0);
}

#[test]
fn every_robot_on_the_roll_gets_its_tick() {
    let mut coordinator = RobotCoordinator::new();
    coordinator.spawn_robot_actor(Robot::new(1, (0, 0), vec![]));
    coordinator.spawn_robot_actor(Robot::new(2, (1, 2), vec![]));
    let map = field();
    let positions = vec![(1, (0, 0)), (2, (1, 2))];
    let plan = coordinator.plan_tick(&map, &positions, 31);
    assert_eq!(plan.len(), 2);
    let expected = vec![
        (1, coord_set(vec![(0, 2), (1, 1), (1, 2)])),
        (2, coord_set(vec![(0, 2), (1, 1), (0, 0)])),
    ];
    for ((id, cmd), (expected_id, expected_cells)) in plan.into_iter().zip(expected) {
        assert_eq!(id, expected_id);
        match cmd {
            RobotCmd::Tick { tick_count, occupied_positions } => {
                assert_eq!(tick_count, 31);
                assert_eq!(occupied_positions, expected_cells);
            }
            other => panic!("expected a tick, got {:?}", other),
        }
    }
}

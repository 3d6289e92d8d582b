use robot_swarm::known::CoordSet;
use robot_swarm::map::{MapDiff, Tile, WorldMap};
use robot_swarm::robot::{
    has_module, ActorReply, Robot, RobotActor, RobotCmd, RobotModule, RobotState, PAYLOAD_LIMIT,
};

fn all_modules() -> Vec<RobotModule> {
    vec![
        RobotModule::Explorer,
        RobotModule::Collector,
        RobotModule::Scanner,
        RobotModule::Sensor,
    ]
}

fn empty_map(rows: usize, cols: usize) -> WorldMap {
    WorldMap { grid: vec![vec![Tile::Empty; cols]; rows], cols }
}

#[test]
fn a_robot_on_a_mineral_picks_it_up() {
    let mut map = empty_map(2, 3);
    map.set((0, 1), Tile::Mineral);
    let mut actor = RobotActor::new(Robot::new(1, (0, 1), vec![RobotModule::Collector]));
    assert!(actor.can_tick(&map));
    let report = actor.process_tick(&mut map, 1, &CoordSet::new());
    assert!(report.is_none());
    assert_eq!(actor.robot().mineral_collected, 1);
    assert_eq!(actor.robot().energy_collected, 0);
    assert_eq!(map.get((0, 1)), Some(Tile::Empty));
    assert!(actor.robot().dirty_tiles.contains(&((0, 1), Some(Tile::Mineral), Tile::Empty)));
    assert_eq!(actor.robot().dirty_tiles.len(), 1);
    assert_eq!(actor.robot().position, (0, 1));
}

#[test]
fn a_robot_without_a_collector_leaves_the_resource() {
    let mut map = empty_map(2, 3);
    map.set((0, 1), Tile::Energy);
    let mut actor = RobotActor::new(Robot::new(1, (0, 1), vec![RobotModule::Scanner]));
    actor.process_tick(&mut map, 1, &CoordSet::new());
    assert_eq!(actor.robot().energy_collected, 0);
    assert_eq!(map.get((0, 1)), Some(Tile::Energy));
    assert_eq!(actor.robot().known_map.len(), 6);
    assert_eq!(actor.robot().dirty_tiles.len(), 6);
}

#[test]
fn a_surrounded_robot_stalls() {
    let mut map = WorldMap {
        grid: vec![
            vec![Tile::Obstacle, Tile::Obstacle, Tile::Obstacle],
            vec![Tile::Obstacle, Tile::Empty, Tile::Obstacle],
            vec![Tile::Obstacle, Tile::Obstacle, Tile::Obstacle],
        ],
        cols: 3,
    };
    let mut actor = RobotActor::new(Robot::new(1, (1, 1), all_modules()));
    let report = actor.process_tick(&mut map, 1, &CoordSet::new());
    assert!(report.is_none());
    assert_eq!(actor.robot().position, (1, 1));

    let mut returning = Robot::new(2, (1, 1), all_modules());
    returning.state = RobotState::Returning;
    let mut actor = RobotActor::new(returning);
    actor.process_tick(&mut map, 2, &CoordSet::new());
    assert_eq!(actor.robot().position, (1, 1));
    assert_eq!(actor.robot().state, RobotState::Returning);
}

#[test]
fn the_guard_fires_at_the_payload_limit_and_not_below() {
    assert_eq!(PAYLOAD_LIMIT, 10);
    let mut robot = Robot::new(1, (3, 3), vec![]);
    robot.energy_collected = 4;
    robot.mineral_collected = 5;
    robot.update_state();
    assert_eq!(robot.state, RobotState::Exploring);
    robot.mineral_collected = 6;
    robot.update_state();
    assert_eq!(robot.state, RobotState::Returning);
    // a returning robot stays returning whatever it carries
    robot.energy_collected = 0;
    robot.mineral_collected = 0;
    robot.update_state();
    assert_eq!(robot.state, RobotState::Returning);
}

#[test]
fn the_guard_does_not_overflow() {
    let mut robot = Robot::new(1, (3, 3), vec![]);
    robot.energy_collected = u32::MAX;
    robot.mineral_collected = u32::MAX;
    robot.update_state();
    assert_eq!(robot.state, RobotState::Returning);
}

#[test]
fn the_tenth_resource_turns_the_robot_home() {
    let mut map = empty_map(3, 3);
    map.set((2, 2), Tile::Energy);
    let mut robot = Robot::new(1, (2, 2), vec![RobotModule::Collector, RobotModule::Explorer]);
    robot.energy_collected = 5;
    robot.mineral_collected = 4;
    let mut actor = RobotActor::new(robot);
    let report = actor.process_tick(&mut map, 3, &CoordSet::new());
    assert!(report.is_none());
    assert_eq!(actor.robot().energy_collected, 6);
    assert_eq!(actor.robot().state, RobotState::Returning);
    // the first step home is by the row
    assert_eq!(actor.robot().position, (1, 2));
}

#[test]
fn a_returning_robot_reports_when_it_gets_home() {
    let mut map = empty_map(3, 3);
    let mut robot = Robot::new(8, (1, 0), vec![RobotModule::Explorer]);
    robot.state = RobotState::Returning;
    robot.energy_collected = 7;
    robot.mineral_collected = 3;
    robot.dirty_tiles = vec![((2, 2), Some(Tile::Energy), Tile::Empty)];
    let mut actor = RobotActor::new(robot);
    let report = actor.process_tick(&mut map, 44, &CoordSet::new());
    let report = report.expect("the robot is home");
    assert_eq!(report.robot_id, 8);
    assert_eq!(report.tick, 44);
    assert_eq!(report.energy, 7);
    assert_eq!(report.mineral, 3);
    assert_eq!(report.map_diff.0, vec![((2, 2), Some(Tile::Energy), Tile::Empty)]);
    assert_eq!(actor.robot().position, (0, 0));
    assert_eq!(actor.robot().state, RobotState::Exploring);
    assert_eq!(actor.robot().energy_collected, 0);
    assert_eq!(actor.robot().mineral_collected, 0);
    assert!(actor.robot().dirty_tiles.is_empty());
}

#[test]
fn a_report_leaves_nothing_behind_whatever_was_there() {
    for (energy, mineral, notes) in [(0u32, 0u32, 0usize), (1, 0, 3), (u32::MAX, u32::MAX, 50)] {
        let mut robot = Robot::new(1, (2, 2), vec![]);
        robot.energy_collected = energy;
        robot.mineral_collected = mineral;
        robot.dirty_tiles = vec![((1, 1), None, Tile::Empty); notes];
        let report = robot.make_report(9);
        assert_eq!(report.energy, energy);
        assert_eq!(report.mineral, mineral);
        assert_eq!(report.map_diff.0.len(), notes);
        assert_eq!(robot.energy_collected, 0);
        assert_eq!(robot.mineral_collected, 0);
        assert!(robot.dirty_tiles.is_empty());
        let again = robot.make_report(10);
        assert_eq!(again.energy, 0);
        assert_eq!(again.mineral, 0);
        assert!(again.map_diff.0.is_empty());
    }
}

#[test]
fn a_full_counter_is_told_before_the_tick() {
    let mut map = empty_map(1, 2);
    map.set((0, 0), Tile::Energy);
    map.set((0, 1), Tile::Mineral);
    let mut robot = Robot::new(1, (0, 0), vec![RobotModule::Collector]);
    robot.energy_collected = u32::MAX;
    assert!(!robot.can_collect(&map));
    robot.position = (0, 1);
    assert!(robot.can_collect(&map));
    robot.modules = vec![];
    robot.position = (0, 0);
    assert!(robot.can_collect(&map));
}

#[test]
fn a_scan_at_the_edge_of_the_integers_sees_nothing_wrong() {
    let map = empty_map(2, 2);
    let mut robot = Robot::new(1, (usize::MAX, usize::MAX), vec![]);
    robot.scan_surroundings(&map);
    // the window wraps round to row and column zero
    assert_eq!(robot.known_map.len(), 1);
    assert_eq!(robot.dirty_tiles, vec![((0, 0), None, Tile::Empty)]);
}

#[test]
fn a_scan_notes_its_sightings_row_by_row() {
    let mut map = empty_map(2, 2);
    map.set((0, 1), Tile::Energy);
    map.set((1, 0), Tile::Obstacle);
    let mut robot = Robot::new(1, (0, 0), vec![]);
    robot.dirty_tiles = vec![((9, 9), None, Tile::Science)];
    robot.scan_surroundings(&map);
    assert_eq!(
        robot.dirty_tiles,
        vec![
            ((9, 9), None, Tile::Science),
            ((0, 0), None, Tile::Empty),
            ((0, 1), None, Tile::Energy),
            ((1, 0), None, Tile::Obstacle),
            ((1, 1), None, Tile::Empty),
        ]
    );
}

#[test]
fn an_actor_answers_each_command() {
    let mut map = empty_map(3, 3);
    let mut actor = RobotActor::new(Robot::new(5, (1, 2), vec![RobotModule::Explorer]));

    match actor.handle(&mut map, RobotCmd::ReportPosition) {
        ActorReply::Position(id, position) => {
            assert_eq!(id, 5);
            assert_eq!(position, (1, 2));
        }
        other => panic!("expected a position, got {:?}", other),
    }

    let diff = MapDiff(vec![((7, 7), None, Tile::Mineral)]);
    assert!(matches!(
        actor.handle(&mut map, RobotCmd::Snapshot { version: 3, diff }),
        ActorReply::Learned
    ));
    assert_eq!(actor.robot().known_map.get(&(7, 7)), Some(&Tile::Mineral));
    assert_eq!(actor.robot().position, (1, 2));
    assert_eq!(actor.robot().state, RobotState::Exploring);

    let mut occupied = CoordSet::new();
    occupied.insert((2, 2));
    match actor.handle(&mut map, RobotCmd::Tick { tick_count: 1, occupied_positions: occupied }) {
        ActorReply::Ticked(report) => assert!(report.is_none()),
        other => panic!("expected a tick, got {:?}", other),
    }
    // (1, 3) is outside, (2, 2) occupied: the first open neighbor is (1, 1)
    assert_eq!(actor.robot().position, (1, 1));

    assert!(matches!(actor.handle(&mut map, RobotCmd::Shutdown), ActorReply::Stopped));
}

#[test]
fn has_module_looks_through_the_equipment() {
    let modules = vec![RobotModule::Explorer, RobotModule::Sensor];
    assert!(has_module(&modules, RobotModule::Explorer));
    assert!(has_module(&modules, RobotModule::Sensor));
    assert!(!has_module(&modules, RobotModule::Collector));
    assert!(!has_module(&vec![], RobotModule::Scanner));
}

#[test]
fn a_cloned_robot_is_the_same_robot() {
    let mut robot = Robot::new(3, (1, 1), all_modules());
    robot.known_map.insert((0, 0), Tile::Energy);
    robot.dirty_tiles.push(((0, 0), None, Tile::Energy));
    robot.energy_collected = 2;
    let copy = robot.clone();
    assert_eq!(copy.id, 3);
    assert_eq!(copy.position, (1, 1));
    assert_eq!(copy.modules, robot.modules);
    assert_eq!(copy.known_map, robot.known_map);
    assert_eq!(copy.dirty_tiles, robot.dirty_tiles);
    assert_eq!(copy.energy_collected, 2);
    assert_eq!(copy.state, RobotState::Exploring);
}

#[test]
fn what_a_scanning_collector_reports_leaves_the_master_map_without_the_resource() {
    let mut map = empty_map(2, 3);
    map.set((0, 1), Tile::Mineral);
    let mut robot =
        Robot::new(1, (0, 1), vec![RobotModule::Scanner, RobotModule::Collector]);
    robot.state = RobotState::Returning;
    let mut actor = RobotActor::new(robot);
    // the scan sees the mineral, the pickup takes it, the step home by the
    // column ends at (0, 0), and the report goes out
    let report = actor.process_tick(&mut map, 1, &CoordSet::new()).expect("the robot is home");
    assert_eq!(map.get((0, 1)), Some(Tile::Empty));
    assert!(report.map_diff.0.contains(&((0, 1), None, Tile::Mineral)));
    assert_eq!(report.map_diff.0.last(), Some(&((0, 1), Some(Tile::Mineral), Tile::Empty)));

    let mut station = robot_swarm::station::Station::new();
    station.handle_report(report);
    assert_eq!(station.master_map().get(&(0, 1)), Some(&Tile::Empty));
}

use robot_sim::{Robot, RobotState, RobotType, Tile};

#[test]
fn test_robot_creation() {
    let robot = Robot::new(10, 15, RobotType::Explorer);

    assert_eq!(robot.x, 10);
    assert_eq!(robot.y, 15);
    assert_eq!(robot.robot_type, RobotType::Explorer);
    assert_eq!(robot.state, RobotState::Idle);
    assert!(robot.inventory.is_empty());
}

#[test]
fn test_robot_move_to() {
    let mut robot = Robot::new(5, 5, RobotType::Miner);
    robot.move_to(8, 12);

    assert_eq!(robot.x, 8);
    assert_eq!(robot.y, 12);
}

#[test]
fn test_robot_can_move_to() {
    let robot = Robot::new(0, 0, RobotType::Explorer);
    let map = vec![vec![Tile::Empty, Tile::Obstacle], vec![Tile::Base, Tile::Empty]];

    assert!(robot.can_move_to(0, 1, &map));
    assert!(robot.can_move_to(1, 1, &map));
    assert!(!robot.can_move_to(1, 0, &map));
    assert!(!robot.can_move_to(2, 0, &map));
}

#[test]
fn test_robot_can_collect() {
    let miner = Robot::new(0, 0, RobotType::Miner);
    let energy_collector = Robot::new(0, 0, RobotType::EnergyCollector);
    let scientist = Robot::new(0, 0, RobotType::Scientist);

    assert!(miner.can_collect(Tile::Mineral));
    assert!(!miner.can_collect(Tile::Energy));
    assert!(!miner.can_collect(Tile::Science));

    assert!(energy_collector.can_collect(Tile::Energy));
    assert!(!energy_collector.can_collect(Tile::Mineral));

    assert!(scientist.can_collect(Tile::Science));
    assert!(!scientist.can_collect(Tile::Mineral));
}

#[test]
fn test_robot_unload_inventory() {
    let mut robot = Robot::new(0, 0, RobotType::Miner);
    robot.collect(Tile::Mineral);
    robot.collect(Tile::Mineral);

    let unloaded = robot.unload_inventory();

    assert_eq!(unloaded.len(), 2);
    assert!(robot.inventory.is_empty());
    assert_eq!(robot.state, RobotState::Idle);
}

#[test]
fn test_robot_set_target() {
    let mut robot = Robot::new(0, 0, RobotType::Miner);
    robot.set_target(10, 15);

    assert_eq!(robot.state, RobotState::GoingToResource);
}

#[test]
fn test_robot_set_returning_to_base() {
    let mut robot = Robot::new(0, 0, RobotType::Miner);
    robot.set_returning_to_base(5, 8);

    assert_eq!(robot.state, RobotState::ReturningToBase);
}

#[test]
fn test_robot_is_idle() {
    let idle_robot = Robot::new(0, 0, RobotType::Explorer);
    let mut working_robot = Robot::new(0, 0, RobotType::Miner);
    working_robot.set_target(10, 10);

    assert!(idle_robot.is_idle());
    assert!(!working_robot.is_idle());
}

#[test]
fn can_move_to_refuses_only_obstacles_and_outside_cells() {
    let robot = Robot::new(0, 0, RobotType::Explorer);
    let map = vec![vec![
        Tile::Empty,
        Tile::Obstacle,
        Tile::Energy,
        Tile::Mineral,
        Tile::Science,
        Tile::Base,
    ]];
    let open: Vec<bool> = (0..6).map(|x| robot.can_move_to(x, 0, &map)).collect();
    assert_eq!(open, vec![true, false, true, true, true, true]);
    assert!(!robot.can_move_to(6, 0, &map));
    assert!(!robot.can_move_to(0, 1, &map));
    assert!(!robot.can_move_to(usize::MAX, usize::MAX, &map));
}

#[test]
fn recording_a_cell_twice_keeps_one_entry() {
    let mut robot = Robot::new(0, 0, RobotType::Explorer);
    robot.record_exploration(3, 4, Tile::Mineral);
    robot.record_exploration(3, 4, Tile::Energy);
    robot.record_exploration(4, 3, Tile::Science);

    assert_eq!(robot.explored_tiles, vec![(3, 4, Tile::Mineral), (4, 3, Tile::Science)]);
}

#[test]
fn unload_hands_over_exactly_what_was_held() {
    let mut robot = Robot::new(0, 0, RobotType::EnergyCollector);
    robot.collect(Tile::Energy);
    robot.collect(Tile::Mineral);
    robot.collect(Tile::Energy);
    robot.set_returning_to_base(1, 1);

    let unloaded = robot.unload_inventory();

    assert_eq!(unloaded, vec![Tile::Energy, Tile::Energy]);
    assert!(robot.inventory.is_empty());
    assert_eq!(robot.state, RobotState::Idle);
    assert_eq!(robot.target(), None);
    assert!(robot.path.is_empty());
    assert_eq!(robot.unload_inventory(), Vec::<Tile>::new());
}

#[test]
fn set_target_keeps_a_robot_heading_home() {
    let mut robot = Robot::new(0, 0, RobotType::Miner);
    robot.set_returning_to_base(5, 8);
    robot.path = vec![(0, 1)];

    robot.set_target(2, 2);

    assert_eq!(robot.state, RobotState::ReturningToBase);
    assert_eq!(robot.target(), Some((2, 2)));
    assert!(robot.path.is_empty());
}

#[test]
fn robot_kinds() {
    assert!(Robot::new(0, 0, RobotType::Scientist).is_collector());
    assert!(!Robot::new(0, 0, RobotType::Explorer).is_collector());
    assert!(Robot::new(0, 0, RobotType::Explorer).is_explorer());
    assert_eq!(RobotType::Miner.to_char(), 'R');
}

#[test]
fn move_toward_follows_a_shortest_route_round_a_wall() {
    // . . . .
    // . # # .
    // S # T .
    let e = Tile::Empty;
    let o = Tile::Obstacle;
    let map = vec![vec![e, e, e, e], vec![e, o, o, e], vec![e, o, e, e]];
    let mut robot = Robot::new(0, 2, RobotType::Miner);
    let mut cells = Vec::new();
    for _ in 0..8 {
        assert!(robot.move_toward(2, 2, &map));
        cells.push((robot.x, robot.y));
        if (robot.x, robot.y) == (2, 2) {
            break;
        }
    }
    assert_eq!(cells, vec![(0, 1), (0, 0), (1, 0), (2, 0), (3, 0), (3, 1), (3, 2), (2, 2)]);
}

#[test]
fn move_toward_falls_back_to_the_nearest_neighbour() {
    // the target lies behind a wall: no route, so the robot steps to the
    // open neighbour nearest the target, a corner one included
    let e = Tile::Empty;
    let o = Tile::Obstacle;
    let map = vec![vec![e, e, o, e], vec![e, e, o, e], vec![e, e, o, e]];
    let mut robot = Robot::new(0, 0, RobotType::Miner);
    assert!(robot.move_toward(3, 2, &map));
    assert_eq!((robot.x, robot.y), (1, 1));
    assert!(robot.path.is_empty());
}

#[test]
fn move_toward_stays_put_when_walled_in() {
    let e = Tile::Empty;
    let o = Tile::Obstacle;
    let map = vec![vec![o, o, o], vec![o, e, o], vec![o, o, o]];
    let mut robot = Robot::new(1, 1, RobotType::Miner);
    assert!(!robot.move_toward(2, 2, &map));
    assert_eq!((robot.x, robot.y), (1, 1));
}

#[test]
fn stuck_robot_drops_its_path_on_the_sixth_tick() {
    let e = Tile::Empty;
    let o = Tile::Obstacle;
    let map = vec![vec![o, o, o], vec![o, e, o], vec![o, o, o]];
    let mut robot = Robot::new(1, 1, RobotType::Miner);
    // a cached path that keeps the robot on its cell
    robot.path = vec![(1, 1); 10];
    let mut counters = Vec::new();
    for _ in 0..6 {
        robot.move_toward(1, 1, &map);
        counters.push(robot.stuck_counter);
    }
    assert_eq!(counters, vec![0, 1, 2, 3, 4, 5]);
    assert_eq!(robot.path.len(), 4);
    robot.move_toward(1, 1, &map);
    assert_eq!(robot.stuck_counter, 0);
    assert!(robot.path.is_empty());
    assert_eq!((robot.x, robot.y), (1, 1));
}

#[test]
fn blocked_cached_step_drops_the_path() {
    let e = Tile::Empty;
    let o = Tile::Obstacle;
    let map = vec![vec![e, o, e]];
    let mut robot = Robot::new(0, 0, RobotType::Miner);
    robot.path = vec![(1, 0), (2, 0)];
    assert!(!robot.move_toward(2, 0, &map));
    assert_eq!((robot.x, robot.y), (0, 0));
    assert!(robot.path.is_empty());
}

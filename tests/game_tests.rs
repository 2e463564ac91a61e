use robot_sim::{GameState, NoiseBand, Robot, RobotState, RobotType, SetupError, Tile};

fn corridor() -> Vec<Vec<Tile>> {
    vec![
        vec![Tile::Base],
        vec![Tile::Empty],
        vec![Tile::Empty],
        vec![Tile::Mineral],
        vec![Tile::Empty],
    ]
}

#[test]
fn miner_gathers_along_a_corridor() {
    let robots = vec![Robot::new(0, 0, RobotType::Miner), Robot::new(0, 4, RobotType::Explorer)];
    let mut game = GameState::from_parts(corridor(), robots, (0, 0));
    // the explorer steps up onto the mineral, then keeps bumping into the edge
    let up = vec![0, 2];
    let right = vec![0, 1];

    game.update_with_directions(&up);
    assert_eq!(game.get_discoveries().len(), 1);
    assert_eq!(game.get_discoveries()[0].assigned_robot_id, Some(0));
    assert_eq!(game.get_robots()[0].state, RobotState::GoingToResource);
    assert_eq!(game.get_robots()[1].explored_tiles, vec![(0, 3, Tile::Mineral)]);

    game.update_with_directions(&right);
    game.update_with_directions(&right);
    let miner = &game.get_robots()[0];
    assert_eq!((miner.x, miner.y), (0, 3));
    assert_eq!(miner.state, RobotState::GoingToResource);

    game.update_with_directions(&right);
    let miner = &game.get_robots()[0];
    assert_eq!(miner.inventory, vec![Tile::Mineral]);
    assert_eq!(miner.state, RobotState::ReturningToBase);
    assert_eq!(game.get_map()[3][0], Tile::Empty);
    assert!(game.get_discoveries().is_empty());

    for _ in 0..4 {
        game.update_with_directions(&right);
    }
    let miner = &game.get_robots()[0];
    assert_eq!((miner.x, miner.y), (0, 0));
    assert!(miner.inventory.is_empty());
    assert_eq!(miner.state, RobotState::Idle);
    assert_eq!(game.get_base_resources().get(Tile::Mineral), 1);
    assert_eq!(game.get_base_resources().get(Tile::Energy), 0);
}

#[test]
fn claims_go_to_distinct_robots() {
    let map = vec![vec![Tile::Mineral, Tile::Empty, Tile::Base, Tile::Empty, Tile::Mineral]];
    let robots = vec![
        Robot::new(1, 0, RobotType::Explorer),
        Robot::new(3, 0, RobotType::Explorer),
        Robot::new(2, 0, RobotType::Miner),
        Robot::new(2, 0, RobotType::Miner),
        Robot::new(2, 0, RobotType::Scientist),
    ];
    let mut game = GameState::from_parts(map, robots, (2, 0));
    game.update_with_directions(&vec![3, 1, 0, 0, 0]);

    let claims: Vec<Option<usize>> = game.get_discoveries().iter().map(|d| d.assigned_robot_id).collect();
    assert_eq!(claims, vec![Some(2), Some(3)]);
    assert_eq!(game.get_robots()[4].state, RobotState::Idle);
    assert_eq!(game.get_robots()[2].target(), Some((0, 0)));
    assert_eq!(game.get_robots()[3].target(), Some((4, 0)));
}

#[test]
fn a_resource_is_reported_once() {
    let map = vec![vec![Tile::Empty, Tile::Energy, Tile::Empty]];
    let robots = vec![Robot::new(0, 0, RobotType::Explorer), Robot::new(2, 0, RobotType::Explorer)];
    let mut game = GameState::from_parts(map, robots, (0, 0));
    game.update_with_directions(&vec![1, 3]);

    assert_eq!(game.get_discoveries().len(), 1);
    assert_eq!(game.get_discoveries()[0].tile_type, Tile::Energy);
    assert_eq!(game.get_discoveries()[0].assigned_robot_id, None);
    assert_eq!(game.get_robots()[1].explored_tiles.len(), 0);
}

#[test]
fn unclaimed_resources_wait_for_a_collector() {
    let map = vec![vec![Tile::Base, Tile::Science, Tile::Empty]];
    let robots = vec![Robot::new(0, 0, RobotType::Miner), Robot::new(2, 0, RobotType::Explorer)];
    let mut game = GameState::from_parts(map, robots, (0, 0));
    game.update_with_directions(&vec![0, 3]);

    assert_eq!(game.get_discoveries()[0].assigned_robot_id, None);
    assert_eq!(game.get_robots()[0].state, RobotState::Idle);
}

#[test]
fn new_game_spawns_its_population_on_the_base() {
    let bands = vec![vec![NoiseBand::Low; 60]; 50];
    let game = GameState::new(60, 50, 42, &bands).unwrap();
    let robots = game.get_robots();
    assert_eq!(robots.len(), 45);
    assert_eq!(robots.iter().filter(|r| r.robot_type == RobotType::Explorer).count(), 20);
    assert_eq!(robots[20].robot_type, RobotType::Miner);
    assert_eq!(robots[44].robot_type, RobotType::Scientist);
    for r in robots {
        assert_eq!(game.get_map()[r.y][r.x], Tile::Base);
    }
    // side min(10, 50 / 5) = 10 at corner (25, 20)
    assert_eq!(game.get_base_position(), (25, 20));
    assert_eq!((robots[0].x, robots[0].y), (25, 20));
    assert_eq!((robots[1].x, robots[1].y), (26, 20));
    assert_eq!((robots[10].x, robots[10].y), (25, 21));
    assert_eq!(game.get_base_resources().get(Tile::Mineral), 0);
}

#[test]
fn new_game_needs_a_base() {
    let bands = vec![vec![NoiseBand::Low; 4]; 4];
    assert!(matches!(GameState::new(4, 4, 42, &bands), Err(SetupError::NoBase)));
}

#[test]
fn random_ticks_keep_claims_distinct() {
    let bands = vec![vec![NoiseBand::Mid; 30]; 30];
    let mut game = GameState::new(30, 30, 5, &bands).unwrap();
    for _ in 0..200 {
        game.update();
        let mut claims: Vec<usize> = game.get_discoveries().iter().filter_map(|d| d.assigned_robot_id).collect();
        let n = claims.len();
        claims.sort();
        claims.dedup();
        assert_eq!(claims.len(), n);
        for r in game.get_robots() {
            assert!(game.get_robots().len() == 45 && game.get_map()[r.y][r.x] != Tile::Obstacle);
        }
    }
}

use robot_sim::{find_all_base_positions, spawn_robots_in_base, Base, RobotType, SetupError, Tile};

#[test]
fn test_base_creation() {
    let base = Base::new(100, 80);

    assert_eq!(base.x, 45);
    assert_eq!(base.y, 35);
    assert_eq!(base.inventory.get(Tile::Energy), 0);
    assert_eq!(base.inventory.get(Tile::Mineral), 0);
    assert_eq!(base.inventory.get(Tile::Science), 0);
}

#[test]
fn test_base_small_map() {
    let base = Base::new(20, 15);

    assert_eq!(base.x, 8);
    assert_eq!(base.y, 6);
}

#[test]
fn test_add_resources() {
    let mut base = Base::new(50, 50);

    base.add_resource(Tile::Energy);
    base.add_resource(Tile::Energy);
    base.add_resource(Tile::Mineral);

    assert_eq!(base.inventory.get(Tile::Energy), 2);
    assert_eq!(base.inventory.get(Tile::Mineral), 1);
    assert_eq!(base.inventory.get(Tile::Science), 0);
}

#[test]
fn test_find_base_positions() {
    let map = vec![
        vec![Tile::Empty, Tile::Base, Tile::Empty],
        vec![Tile::Empty, Tile::Empty, Tile::Empty],
        vec![Tile::Base, Tile::Empty, Tile::Base],
    ];

    let positions = find_all_base_positions(&map).unwrap();

    assert_eq!(positions.len(), 3);
    assert!(positions.contains(&(1, 0)));
    assert!(positions.contains(&(0, 2)));
    assert!(positions.contains(&(2, 2)));
}

#[test]
#[should_panic(expected = "Aucune base trouvée sur la carte !")]
fn test_no_base_panic() {
    let map = vec![
        vec![Tile::Empty, Tile::Empty],
        vec![Tile::Empty, Tile::Empty],
    ];

    find_all_base_positions(&map).expect("Aucune base trouvée sur la carte !");
}

#[test]
fn test_spawn_robots() {
    let base_positions = vec![(10, 10), (20, 20)];
    let robot_counts = vec![(RobotType::Explorer, 2), (RobotType::Miner, 1)];

    let robots = spawn_robots_in_base(&base_positions, &robot_counts);

    assert_eq!(robots.len(), 3);
    assert_eq!(robots[0].robot_type, RobotType::Explorer);
    assert_eq!(robots[1].robot_type, RobotType::Explorer);
    assert_eq!(robots[2].robot_type, RobotType::Miner);
}

#[test]
fn base_positions_come_row_by_row() {
    let map = vec![
        vec![Tile::Empty, Tile::Base, Tile::Empty],
        vec![Tile::Empty, Tile::Empty, Tile::Empty],
        vec![Tile::Base, Tile::Empty, Tile::Base],
    ];

    let positions = find_all_base_positions(&map).unwrap();

    assert_eq!(positions, vec![(1, 0), (0, 2), (2, 2)]);
}

#[test]
fn map_without_base_is_refused() {
    let map = vec![vec![Tile::Empty, Tile::Mineral], vec![Tile::Obstacle, Tile::Empty]];

    assert_eq!(find_all_base_positions(&map), Err(SetupError::NoBase));
    let empty: Vec<Vec<Tile>> = Vec::new();
    assert_eq!(find_all_base_positions(&empty), Err(SetupError::NoBase));
}

#[test]
fn spawn_wraps_round_the_base_cells() {
    let base_positions = vec![(1, 1), (2, 1)];
    let robot_counts = vec![(RobotType::Miner, 2), (RobotType::Scientist, 3)];

    let robots = spawn_robots_in_base(&base_positions, &robot_counts);

    let cells: Vec<(usize, usize)> = robots.iter().map(|r| (r.x, r.y)).collect();
    assert_eq!(cells, vec![(1, 1), (2, 1), (1, 1), (2, 1), (1, 1)]);
    assert_eq!(robots[1].robot_type, RobotType::Miner);
    assert_eq!(robots[2].robot_type, RobotType::Scientist);
    assert_eq!(robots[4].robot_type, RobotType::Scientist);
}

#[test]
fn base_of_a_tiny_map_has_no_side() {
    let base = Base::new(4, 9);

    assert_eq!(base.x, 2);
    assert_eq!(base.y, 4);
    assert_eq!(robot_sim::base::base_size(4, 9), 0);
    assert_eq!(robot_sim::base::base_size(200, 300), 10);
}

#[test]
fn counts_stay_at_their_largest_value() {
    let mut base = Base::new(50, 50);
    base.inventory.science = u32::MAX;

    base.add_resource(Tile::Science);

    assert_eq!(base.get_resources().get(Tile::Science), u32::MAX);
    assert_eq!(base.get_resources().get(Tile::Obstacle), 0);
}

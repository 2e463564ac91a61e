use noise::{NoiseFn, Perlin};
use robot_sim::{generate_map, NoiseBand, Tile};

fn perlin_bands(width: usize, height: usize, seed: u32) -> Vec<Vec<NoiseBand>> {
    let perlin = Perlin::new(seed);
    let mut bands = Vec::new();
    for y in 0..height {
        let mut row = Vec::new();
        for x in 0..width {
            let v = perlin.get([x as f64 * 0.1, y as f64 * 0.1]);
            row.push(if v > 0.45 {
                NoiseBand::High
            } else if v > 0.2 {
                NoiseBand::Mid
            } else {
                NoiseBand::Low
            });
        }
        bands.push(row);
    }
    bands
}

#[test]
fn test_generate_map_dimensions() {
    let map = generate_map(50, 30, 123, &perlin_bands(50, 30, 123));
    assert_eq!(map.len(), 30);
    assert_eq!(map[0].len(), 50);
}

#[test]
fn test_generate_map_has_base() {
    let map = generate_map(40, 40, 456, &perlin_bands(40, 40, 456));
    let mut base_count = 0;

    for row in &map {
        for tile in row {
            if *tile == Tile::Base {
                base_count += 1;
            }
        }
    }

    assert!(base_count > 0);
}

#[test]
fn test_base_position_centered() {
    let map = generate_map(30, 20, 999, &perlin_bands(30, 20, 999));
    let base_size = usize::min(10, usize::min(30, 20) / 5);
    let expected_x = (30 - base_size) / 2;
    let expected_y = (20 - base_size) / 2;

    assert_eq!(map[expected_y][expected_x], Tile::Base);
}

#[test]
fn test_tile_to_char() {
    assert_eq!(Tile::Empty.to_char(), '.');
    assert_eq!(Tile::Obstacle.to_char(), '#');
    assert_eq!(Tile::Energy.to_char(), 'E');
    assert_eq!(Tile::Mineral.to_char(), 'M');
    assert_eq!(Tile::Science.to_char(), 'S');
    assert_eq!(Tile::Base.to_char(), 'B');
    assert_eq!(Tile::Robot.to_char(), 'R');
}

#[test]
fn generation_twice_gives_the_same_map() {
    let bands = perlin_bands(60, 45, 7);
    let first = generate_map(60, 45, 7, &bands);
    let second = generate_map(60, 45, 7, &bands);
    assert_eq!(first, second);
}

#[test]
fn base_square_is_exactly_the_base_tiles() {
    let bands = vec![vec![NoiseBand::High; 25]; 30];
    let map = generate_map(25, 30, 1, &bands);
    // side min(10, 25 / 5) = 5, corner ((25 - 5) / 2, (30 - 5) / 2) = (10, 12)
    for y in 0..30 {
        for x in 0..25 {
            let inside = (10..15).contains(&x) && (12..17).contains(&y);
            if inside {
                assert_eq!(map[y][x], Tile::Base);
            } else {
                assert_eq!(map[y][x], Tile::Obstacle);
            }
        }
    }
}

#[test]
fn noise_bands_give_their_tiles() {
    let mut bands = vec![vec![NoiseBand::Low; 10]; 10];
    bands[0][0] = NoiseBand::High;
    bands[0][1] = NoiseBand::Low;
    let map = generate_map(10, 10, 3, &bands);
    assert_eq!(map[0][0], Tile::Obstacle);
    assert_eq!(map[0][1], Tile::Empty);
    // side min(10, 10 / 5) = 2 at corner (4, 4)
    assert_eq!(map[4][4], Tile::Base);
    assert_eq!(map[5][5], Tile::Base);
    assert_eq!(map[3][4], Tile::Empty);
}

#[test]
fn middle_band_draws_only_resources_or_nothing() {
    let bands = vec![vec![NoiseBand::Mid; 40]; 40];
    let map = generate_map(40, 40, 11, &bands);
    let mut resources = 0;
    for y in 0..40 {
        for x in 0..40 {
            let t = map[y][x];
            assert!(t != Tile::Obstacle && t != Tile::Robot);
            if t == Tile::Mineral || t == Tile::Energy || t == Tile::Science {
                resources += 1;
            }
        }
    }
    // each of the 1536 cells outside the 8 by 8 base square draws, and 13
    // draws in a hundred give a resource
    assert!(resources > 0);
    assert!(resources < 1536);
}

#[test]
fn consumable_kinds() {
    assert!(Tile::Energy.is_consumable());
    assert!(Tile::Mineral.is_consumable());
    assert!(!Tile::Science.is_consumable());
    assert!(Tile::Science.is_resource());
    assert!(!Tile::Base.is_resource());
}

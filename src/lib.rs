//! A turn-based simulation of robots that explore a generated grid, claim the
//! resources they find, carry them home and stock them in a base.

pub mod tile;
pub mod grid;
pub mod robot;
pub mod search;
pub mod base;
pub mod generator;
pub mod game;

pub use tile::Tile;
pub use robot::{Robot, RobotState, RobotType};
pub use base::{Base, ResourceCounts, SetupError, find_all_base_positions, spawn_robots_in_base};
pub use generator::{NoiseBand, generate_map};
pub use game::{DiscoveredResource, GameState};

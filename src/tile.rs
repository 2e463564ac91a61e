//! The kinds of grid cell.

use vstd::prelude::*;

verus! {

/// The kind of one grid cell. `Robot` is a display marker only: the
/// simulation never stores it in its own grid.
#[derive(Clone, Copy, Debug, PartialEq, Eq, Hash, Structural)]
pub enum Tile {
    Empty,
    Obstacle,
    Energy,
    Mineral,
    Science,
    Base,
    Robot,
}

/// The three kinds that collectors gather.
pub open spec fn is_resource_kind(t: Tile) -> bool {
    t == Tile::Mineral || t == Tile::Energy || t == Tile::Science
}

/// The kinds a robot may stand on.
pub open spec fn is_walkable(t: Tile) -> bool {
    t == Tile::Empty || t == Tile::Energy || t == Tile::Mineral || t == Tile::Science || t
        == Tile::Base
}

pub open spec fn glyph(t: Tile) -> char {
    match t {
        Tile::Empty => '.',
        Tile::Obstacle => '#',
        Tile::Energy => 'E',
        Tile::Mineral => 'M',
        Tile::Science => 'S',
        Tile::Base => 'B',
        Tile::Robot => 'R',
    }
}

impl Tile {
    /// The character that draws this tile.
    pub fn to_char(self) -> (c: char)
        ensures
            c == glyph(self),
    {
        match self {
            Tile::Empty => '.',
            Tile::Obstacle => '#',
            Tile::Energy => 'E',
            Tile::Mineral => 'M',
            Tile::Science => 'S',
            Tile::Base => 'B',
            Tile::Robot => 'R',
        }
    }

    /// Energy and minerals are consumable; science samples are not.
    pub fn is_consumable(&self) -> (r: bool)
        ensures
            r <==> (*self == Tile::Energy || *self == Tile::Mineral),
    {
        match self {
            Tile::Energy | Tile::Mineral => true,
            _ => false,
        }
    }

    /// Whether this is one of the kinds that collectors gather.
    pub fn is_resource(&self) -> (r: bool)
        ensures
            r == is_resource_kind(*self),
    {
        match self {
            Tile::Mineral | Tile::Energy | Tile::Science => true,
            _ => false,
        }
    }
}

} // verus!

//! The base: its place on the map, its stock of resources, and the robots
//! that start on it.

use vstd::prelude::*;
use crate::tile::{Tile, is_resource_kind};
use crate::robot::{Robot, RobotType, fresh_robot};

verus! {

/// How many of each resource kind a base holds.
#[derive(Clone, Copy, Debug, PartialEq, Eq, Structural)]
pub struct ResourceCounts {
    pub mineral: u32,
    pub energy: u32,
    pub science: u32,
}

/// The count that `c` holds of kind `t`; nothing is counted of other kinds.
pub open spec fn count_of(c: ResourceCounts, t: Tile) -> u32 {
    match t {
        Tile::Mineral => c.mineral,
        Tile::Energy => c.energy,
        Tile::Science => c.science,
        _ => 0,
    }
}

/// `c` with one more of kind `t`; a count already at its largest value stays there.
pub open spec fn counts_plus(c: ResourceCounts, t: Tile) -> ResourceCounts {
    let bump = |n: u32| if n < u32::MAX { (n + 1) as u32 } else { n };
    match t {
        Tile::Mineral => ResourceCounts { mineral: bump(c.mineral), ..c },
        Tile::Energy => ResourceCounts { energy: bump(c.energy), ..c },
        Tile::Science => ResourceCounts { science: bump(c.science), ..c },
        _ => c,
    }
}

/// `c` after adding every item of `items`, first to last.
pub open spec fn counts_plus_all(c: ResourceCounts, items: Seq<Tile>) -> ResourceCounts
    decreases items.len(),
{
    if items.len() == 0 {
        c
    } else {
        counts_plus(counts_plus_all(c, items.drop_last()), items.last())
    }
}

impl ResourceCounts {
    /// No resources at all.
    pub fn new() -> (r: ResourceCounts)
        ensures
            r == (ResourceCounts { mineral: 0, energy: 0, science: 0 }),
    {
        ResourceCounts { mineral: 0, energy: 0, science: 0 }
    }

    /// How many of kind `kind` are held: zero for a kind that is no resource.
    pub fn get(&self, kind: Tile) -> (r: u32)
        ensures
            r == count_of(*self, kind),
    {
        match kind {
            Tile::Mineral => self.mineral,
            Tile::Energy => self.energy,
            Tile::Science => self.science,
            _ => 0,
        }
    }

    /// Counts one more of kind `kind`.
    pub fn add(&mut self, kind: Tile)
        requires
            is_resource_kind(kind),
        ensures
            *final(self) == counts_plus(*old(self), kind),
    {
        match kind {
            Tile::Mineral => {
                if self.mineral < u32::MAX {
                    self.mineral = self.mineral + 1;
                }
            },
            Tile::Energy => {
                if self.energy < u32::MAX {
                    self.energy = self.energy + 1;
                }
            },
            _ => {
                if self.science < u32::MAX {
                    self.science = self.science + 1;
                }
            },
        }
    }
}

/// The side of the square of base cells on a `w` by `h` map.
pub open spec fn base_side(w: int, h: int) -> int {
    let m = if w < h { w } else { h };
    if 10 < m / 5 { 10 } else { m / 5 }
}

/// The home of the robots: the corner of the base square nearest the
/// origin, and the resources stocked so far.
#[derive(Clone, Debug)]
pub struct Base {
    pub x: usize,
    pub y: usize,
    pub inventory: ResourceCounts,
}

impl Base {
    /// The base of a `map_width` by `map_height` map: the square of side
    /// `min(10, min(width, height) / 5)` centred on it, with empty stock.
    pub fn new(map_width: usize, map_height: usize) -> (b: Base)
        ensures
            b.x == (map_width - base_side(map_width as int, map_height as int)) / 2,
            b.y == (map_height - base_side(map_width as int, map_height as int)) / 2,
            b.inventory == (ResourceCounts { mineral: 0, energy: 0, science: 0 }),
    {
        let size = base_size(map_width, map_height);
        Base {
            x: (map_width - size) / 2,
            y: (map_height - size) / 2,
            inventory: ResourceCounts::new(),
        }
    }

    /// Stocks one more resource of kind `resource`.
    pub fn add_resource(&mut self, resource: Tile)
        requires
            is_resource_kind(resource),
        ensures
            final(self).inventory == counts_plus(old(self).inventory, resource),
            final(self).x == old(self).x,
            final(self).y == old(self).y,
    {
        self.inventory.add(resource);
    }

    pub fn get_resources(&self) -> (r: &ResourceCounts)
        ensures
            *r == self.inventory,
    {
        &self.inventory
    }
}

/// The side of the base square on a `width` by `height` map.
pub fn base_size(width: usize, height: usize) -> (r: usize)
    ensures
        r == base_side(width as int, height as int),
        r <= width,
        r <= height,
{
    let m = if width < height { width } else { height };
    if 10 < m / 5 { 10 } else { m / 5 }
}

/// The cells of `map` that hold a base tile, row by row.
pub open spec fn base_cells(map: Seq<Vec<Tile>>) -> Seq<(usize, usize)>
    decreases map.len(),
{
    if map.len() == 0 {
        seq![]
    } else {
        let y = (map.len() - 1) as int;
        base_cells(map.drop_last()) + base_cells_of_row(map.last()@, y as usize)
    }
}

/// The cells of row `y`, whose tiles are `row`, that hold a base tile, left to right.
pub open spec fn base_cells_of_row(row: Seq<Tile>, y: usize) -> Seq<(usize, usize)>
    decreases row.len(),
{
    if row.len() == 0 {
        seq![]
    } else {
        let x = (row.len() - 1) as int;
        base_cells_of_row(row.drop_last(), y) + if row.last() == Tile::Base {
            seq![(x as usize, y)]
        } else {
            seq![]
        }
    }
}

/// Each cell that `base_cells_of_row(row, y)` lists holds a base tile of row `y`.
pub proof fn lemma_base_cells_of_row(row: Seq<Tile>, y: usize)
    requires
        row.len() <= usize::MAX,
    ensures
        forall|k: int|
            0 <= k < base_cells_of_row(row, y).len() ==> {
                let c = #[trigger] base_cells_of_row(row, y)[k];
                c.1 == y && c.0 < row.len() && row[c.0 as int] == Tile::Base
            },
    decreases row.len(),
{
    if row.len() > 0 {
        lemma_base_cells_of_row(row.drop_last(), y);
        let head = base_cells_of_row(row.drop_last(), y);
        assert forall|k: int| 0 <= k < base_cells_of_row(row, y).len() implies {
            let c = #[trigger] base_cells_of_row(row, y)[k];
            c.1 == y && c.0 < row.len() && row[c.0 as int] == Tile::Base
        } by {
            if k < head.len() {
                assert(base_cells_of_row(row, y)[k] == head[k]);
                assert(row.drop_last()[head[k].0 as int] == row[head[k].0 as int]);
            }
        }
    }
}

/// Each cell that `base_cells(map)` lists is a cell of `map` that holds a base tile.
pub proof fn lemma_base_cells(map: Seq<Vec<Tile>>)
    requires
        map.len() <= usize::MAX,
    ensures
        forall|k: int|
            0 <= k < base_cells(map).len() ==> {
                let c = #[trigger] base_cells(map)[k];
                c.1 < map.len() && c.0 < map[c.1 as int]@.len() && map[c.1 as int]@[c.0 as int] == Tile::Base
            },
    decreases map.len(),
{
    if map.len() > 0 {
        lemma_base_cells(map.drop_last());
        let y = (map.len() - 1) as usize;
        vstd::std_specs::vec::axiom_spec_len(&map.last());
        lemma_base_cells_of_row(map.last()@, y);
        let head = base_cells(map.drop_last());
        let tail = base_cells_of_row(map.last()@, y);
        assert forall|k: int| 0 <= k < base_cells(map).len() implies {
            let c = #[trigger] base_cells(map)[k];
            c.1 < map.len() && c.0 < map[c.1 as int]@.len() && map[c.1 as int]@[c.0 as int] == Tile::Base
        } by {
            if k < head.len() {
                assert(base_cells(map)[k] == head[k]);
                assert(map.drop_last()[head[k].1 as int] == map[head[k].1 as int]);
            } else {
                assert(base_cells(map)[k] == tail[k - head.len()]);
            }
        }
    }
}

/// Why a simulation cannot be set up.
#[derive(Clone, Copy, Debug, PartialEq, Eq, Structural)]
pub enum SetupError {
    /// The map holds no base tile, so the robots have no home.
    NoBase,
}

/// Every cell of `map` that holds a base tile, row by row and left to right
/// in each row; an error when there is none.
pub fn find_all_base_positions(map: &[Vec<Tile>]) -> (r: Result<Vec<(usize, usize)>, SetupError>)
    ensures
        base_cells(map@).len() == 0 ==> r == Err::<Vec<(usize, usize)>, SetupError>(SetupError::NoBase),
        base_cells(map@).len() > 0 ==> (r matches Ok(v) && v@ == base_cells(map@)),
{
    let mut positions: Vec<(usize, usize)> = Vec::new();
    let mut y: usize = 0;
    while y < map.len()
        invariant
            y <= map@.len(),
            positions@ == base_cells(map@.take(y as int)),
        decreases map@.len() - y,
    {
        let row = &map[y];
        let mut x: usize = 0;
        let ghost before = positions@;
        while x < row.len()
            invariant
                x <= row@.len(),
                row == map@[y as int],
                positions@ == before + base_cells_of_row(row@.take(x as int), y),
            decreases row@.len() - x,
        {
            if row[x] == Tile::Base {
                positions.push((x, y));
            }
            proof {
                assert(row@.take(x + 1).drop_last() == row@.take(x as int));
            }
            x = x + 1;
        }
        proof {
            assert(row@.take(x as int) == row@);
            assert(map@.take(y + 1).drop_last() == map@.take(y as int));
        }
        y = y + 1;
    }
    proof {
        assert(map@.take(y as int) == map@);
    }
    if positions.len() == 0 {
        Err(SetupError::NoBase)
    } else {
        Ok(positions)
    }
}

/// The kinds of the robots that `counts` asks for, group after group.
pub open spec fn spawn_kinds(counts: Seq<(RobotType, usize)>) -> Seq<RobotType>
    decreases counts.len(),
{
    if counts.len() == 0 {
        seq![]
    } else {
        spawn_kinds(counts.drop_last()) + Seq::new(counts.last().1 as nat, |i: int| counts.last().0)
    }
}

/// Creates the robots that `robot_counts` asks for, in its order, and puts
/// them on the base cells in turn, going back to the first cell once every
/// cell has one.
pub fn spawn_robots_in_base(base_positions: &[(usize, usize)], robot_counts: &[(RobotType, usize)]) -> (robots:
    Vec<Robot>)
    requires
        base_positions@.len() > 0 || spawn_kinds(robot_counts@).len() == 0,
    ensures
        robots@.len() == spawn_kinds(robot_counts@).len(),
        forall|i: int|
            0 <= i < robots@.len() ==> (#[trigger] robots@[i])@ == fresh_robot(
                base_positions@[i % base_positions@.len() as int].0,
                base_positions@[i % base_positions@.len() as int].1,
                spawn_kinds(robot_counts@)[i],
            ),
{
    let mut robots: Vec<Robot> = Vec::new();
    let mut position_index: usize = 0;
    let n = base_positions.len();
    let mut g: usize = 0;
    proof {
        assert(robot_counts@.take(0) == Seq::<(RobotType, usize)>::empty());
    }
    while g < robot_counts.len()
        invariant
            g <= robot_counts@.len(),
            n == base_positions@.len(),
            robots@.len() == spawn_kinds(robot_counts@.take(g as int)).len(),
            n > 0 || spawn_kinds(robot_counts@).len() == 0,
            n > 0 ==> position_index == (robots@.len() as int) % (n as int),
            forall|i: int|
                0 <= i < robots@.len() ==> (#[trigger] robots@[i])@ == fresh_robot(
                    base_positions@[i % n as int].0,
                    base_positions@[i % n as int].1,
                    spawn_kinds(robot_counts@.take(g as int))[i],
                ),
        decreases robot_counts@.len() - g,
    {
        let (robot_type, count) = robot_counts[g];
        let ghost done = spawn_kinds(robot_counts@.take(g as int));
        proof {
            assert(robot_counts@.take(g + 1).drop_last() == robot_counts@.take(g as int));
            lemma_spawn_mono(robot_counts@, g + 1);
        }
        let mut c: usize = 0;
        while c < count
            invariant
                c <= count,
                n == base_positions@.len(),
                robots@.len() == done.len() + c,
                n > 0 || done.len() + count == 0,
                n > 0 ==> position_index == (robots@.len() as int) % (n as int),
                forall|i: int|
                    0 <= i < robots@.len() ==> (#[trigger] robots@[i])@ == fresh_robot(
                        base_positions@[i % n as int].0,
                        base_positions@[i % n as int].1,
                        if i < done.len() { done[i] } else { robot_type },
                    ),
            decreases count - c,
        {
            let (x, y) = base_positions[position_index];
            let ghost len = robots@.len() as int;
            robots.push(Robot::new(x, y, robot_type));
            position_index = position_index + 1;
            if position_index == n {
                position_index = 0;
            }
            proof {
                assert((len + 1) % (n as int) == if len % (n as int) + 1 < n { len % (n as int) + 1 } else { 0 })
                    by (nonlinear_arith)
                    requires
                        n > 0,
                        len >= 0,
                ;
                assert(robots@[len] == robots@.last());
            }
            c = c + 1;
        }
        proof {
            let next = spawn_kinds(robot_counts@.take(g + 1));
            assert forall|i: int| 0 <= i < robots@.len() implies (if i < done.len() { done[i] } else { robot_type })
                == next[i] by {}
        }
        g = g + 1;
    }
    proof {
        assert(robot_counts@.take(g as int) == robot_counts@);
    }
    robots
}

/// Asking for the first `k` groups asks for no more robots than asking for all.
proof fn lemma_spawn_mono(s: Seq<(RobotType, usize)>, k: int)
    requires
        0 <= k <= s.len(),
    ensures
        spawn_kinds(s.take(k)).len() <= spawn_kinds(s).len(),
    decreases s.len() - k,
{
    if k < s.len() {
        lemma_spawn_mono(s, k + 1);
        assert(s.take(k + 1).drop_last() == s.take(k));
    } else {
        assert(s.take(k) == s);
    }
}

} // verus!

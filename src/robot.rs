//! Robots: their kinds and states, what they carry and remember, and how
//! they move toward a target.

use vstd::prelude::*;
use crate::tile::Tile;
use crate::grid::{tile_at, in_bounds, passable, is_rect, is_step};
use crate::search::search_result;

verus! {

/// The four kinds of robot.
#[derive(Clone, Copy, Debug, PartialEq, Eq, Hash, Structural)]
pub enum RobotType {
    Miner,
    EnergyCollector,
    Scientist,
    Explorer,
}

impl RobotType {
    /// The character that draws a robot of this kind.
    pub fn to_char(&self) -> (c: char)
        ensures
            c == 'R',
    {
        match self {
            RobotType::Miner => 'R',
            RobotType::EnergyCollector => 'R',
            RobotType::Scientist => 'R',
            RobotType::Explorer => 'R',
        }
    }
}

/// What a collector is busy with.
#[derive(Clone, Copy, Debug, PartialEq, Eq, Structural)]
pub enum RobotState {
    Idle,
    GoingToResource,
    ReturningToBase,
}

/// Whether a robot of kind `k` gathers tiles of kind `t`.
pub open spec fn collects(k: RobotType, t: Tile) -> bool {
    ||| k == RobotType::Miner && t == Tile::Mineral
    ||| k == RobotType::EnergyCollector && t == Tile::Energy
    ||| k == RobotType::Scientist && t == Tile::Science
}

/// The memory `e` after recording tile `t` at `(x, y)`: unchanged if it
/// already holds an entry for that cell.
pub open spec fn record_spec(e: Seq<(usize, usize, Tile)>, x: usize, y: usize, t: Tile) -> Seq<
    (usize, usize, Tile),
> {
    if exists|i: int| 0 <= i < e.len() && e[i].0 == x && e[i].1 == y {
        e
    } else {
        e.push((x, y, t))
    }
}

/// At most one entry for each cell.
pub open spec fn unique_cells(e: Seq<(usize, usize, Tile)>) -> bool {
    forall|i: int, j: int|
        0 <= i < e.len() && 0 <= j < e.len() && i != j ==> !((#[trigger] e[i]).0 == (#[trigger] e[j]).0
            && e[i].1 == e[j].1)
}

/// The eight directions the fallback step tries, in order.
pub open spec fn offset8(k: int) -> (int, int) {
    if k == 0 {
        (1, 0)
    } else if k == 1 {
        (-1, 0)
    } else if k == 2 {
        (0, 1)
    } else if k == 3 {
        (0, -1)
    } else if k == 4 {
        (1, 1)
    } else if k == 5 {
        (1, -1)
    } else if k == 6 {
        (-1, 1)
    } else {
        (-1, -1)
    }
}

/// The cell next to `(x, y)` in direction `k`, sides and corners included.
pub open spec fn around(x: usize, y: usize, k: int) -> (int, int) {
    (x + offset8(k).0, y + offset8(k).1)
}

/// The squared straight-line distance from `c` to `t`.
pub open spec fn sq_dist(c: (int, int), t: (usize, usize)) -> int {
    (c.0 - t.0) * (c.0 - t.0) + (c.1 - t.1) * (c.1 - t.1)
}

/// Direction `k` leads from `(x, y)` to a cell a robot may stand on.
pub open spec fn open_at(map: Seq<Vec<Tile>>, x: usize, y: usize, k: int) -> bool {
    0 <= k < 8 && passable(map, around(x, y, k).0, around(x, y, k).1)
}

/// Direction `k` is the fallback step's choice from `(x, y)` toward `t`: the
/// first, in the order of `offset8`, of the open directions that come
/// nearest to `t`.
pub open spec fn greedy_choice(map: Seq<Vec<Tile>>, x: usize, y: usize, t: (usize, usize), k: int) -> bool {
    &&& open_at(map, x, y, k)
    &&& forall|j: int|
        #[trigger] open_at(map, x, y, j) ==> sq_dist(around(x, y, k), t) <= sq_dist(around(x, y, j), t)
    &&& forall|j: int|
        0 <= j < k && #[trigger] open_at(map, x, y, j) ==> sq_dist(around(x, y, j), t) > sq_dist(
            around(x, y, k),
            t,
        )
}

/// The outcome of the fallback step from `(x, y)` toward `t`: it reports
/// `moved` and ends on `(nx, ny)`.
pub open spec fn greedy_outcome(
    map: Seq<Vec<Tile>>,
    x: usize,
    y: usize,
    t: (usize, usize),
    moved: bool,
    nx: usize,
    ny: usize,
) -> bool {
    &&& moved == exists|k: int| #[trigger] open_at(map, x, y, k)
    &&& moved ==> exists|k: int| #[trigger]
        greedy_choice(map, x, y, t, k) && (nx as int, ny as int) == around(x, y, k)
    &&& !moved ==> nx == x && ny == y
}

/// The stuck counter once the robot has compared its cell with the one it
/// last stood on.
pub open spec fn stuck_seen(r: RobotView) -> int {
    match r.last {
        Some(p) => if p == (r.x, r.y) {
            r.stuck + 1
        } else {
            0
        },
        None => r.stuck as int,
    }
}

/// One call of `move_toward` from `r` toward `t` on `map` ends in `r2`, having
/// returned `moved`.
pub open spec fn move_toward_spec(
    map: Seq<Vec<Tile>>,
    r: RobotView,
    t: (usize, usize),
    r2: RobotView,
    moved: bool,
) -> bool {
    let reset = stuck_seen(r) > 5;
    let kept = if reset { seq![] } else { r.path };
    &&& r2.kind == r.kind && r2.inventory == r.inventory && r2.explored == r.explored
    &&& r2.target == r.target && r2.state == r.state
    &&& r2.last == Some((r.x, r.y))
    &&& r2.stuck == (if reset { 0 } else { stuck_seen(r) })
    &&& if kept.len() > 0 {
        if passable(map, kept[0].0 as int, kept[0].1 as int) {
            moved && (r2.x, r2.y) == kept[0] && r2.path == kept.drop_first()
        } else {
            !moved && r2.x == r.x && r2.y == r.y && r2.path == Seq::<(usize, usize)>::empty()
        }
    } else {
        exists|p: Seq<(usize, usize)>|
            #[trigger] search_result(map, (r.x, r.y), t, p) && if p.len() > 0 {
                moved && (r2.x, r2.y) == p[0] && r2.path == p.drop_first()
            } else {
                greedy_outcome(map, r.x, r.y, t, moved, r2.x, r2.y) && r2.path == p
            }
    }
}

/// How far the cell in direction `k` is from `t`, less the squared distance
/// from `(x, y)` itself.
spec fn step_key(x: usize, y: usize, t: (usize, usize), k: int) -> int {
    let dx = x - t.0;
    let dy = y - t.1;
    if k == 0 {
        2 * dx + 1
    } else if k == 1 {
        1 - 2 * dx
    } else if k == 2 {
        2 * dy + 1
    } else if k == 3 {
        1 - 2 * dy
    } else if k == 4 {
        2 * dx + 2 * dy + 2
    } else if k == 5 {
        2 * dx - 2 * dy + 2
    } else if k == 6 {
        2 * dy - 2 * dx + 2
    } else {
        2 - 2 * dx - 2 * dy
    }
}

proof fn lemma_step_key(x: usize, y: usize, t: (usize, usize), k: int)
    requires
        0 <= k < 8,
    ensures
        sq_dist(around(x, y, k), t) == sq_dist((x as int, y as int), t) + step_key(x, y, t, k),
{
    let dx = x - t.0;
    let dy = y - t.1;
    let o = offset8(k);
    assert((dx + 1) * (dx + 1) == dx * dx + 2 * dx + 1) by (nonlinear_arith);
    assert((dx - 1) * (dx - 1) == dx * dx - 2 * dx + 1) by (nonlinear_arith);
    assert((dy + 1) * (dy + 1) == dy * dy + 2 * dy + 1) by (nonlinear_arith);
    assert((dy - 1) * (dy - 1) == dy * dy - 2 * dy + 1) by (nonlinear_arith);
}

/// A robot as it starts: idle on `(x, y)`, carrying and remembering nothing.
pub open spec fn fresh_robot(x: usize, y: usize, kind: RobotType) -> RobotView {
    RobotView {
        x,
        y,
        kind,
        inventory: seq![],
        explored: seq![],
        target: None,
        state: RobotState::Idle,
        path: seq![],
        stuck: 0,
        last: None,
    }
}

/// A robot may step onto a cell exactly when the cell lies on the map and
/// holds no obstacle; the robot marker, which the simulation never stores,
/// is left aside.
pub proof fn lemma_can_move_iff(map: Seq<Vec<Tile>>, x: int, y: int)
    requires
        in_bounds(map, x, y) ==> tile_at(map, x, y) != Tile::Robot,
    ensures
        !passable(map, x, y) <==> (!in_bounds(map, x, y) || tile_at(map, x, y) == Tile::Obstacle),
{
}

/// Recording the same cell twice leaves the memory as one recording does,
/// with exactly one entry for that cell.
pub proof fn lemma_record_twice(e: Seq<(usize, usize, Tile)>, x: usize, y: usize, t1: Tile, t2: Tile)
    requires
        unique_cells(e),
    ensures
        record_spec(record_spec(e, x, y, t1), x, y, t2) == record_spec(e, x, y, t1),
        unique_cells(record_spec(e, x, y, t1)),
        exists|i: int|
            0 <= i < record_spec(e, x, y, t1).len() && (#[trigger] record_spec(e, x, y, t1)[i]).0 == x
                && record_spec(e, x, y, t1)[i].1 == y,
{
    let e1 = record_spec(e, x, y, t1);
    if exists|i: int| 0 <= i < e.len() && e[i].0 == x && e[i].1 == y {
        let i = choose|i: int| 0 <= i < e.len() && e[i].0 == x && e[i].1 == y;
        assert(e1[i].0 == x);
    } else {
        assert(e1[e.len() as int] == (x, y, t1));
        assert forall|i: int, j: int|
            0 <= i < e1.len() && 0 <= j < e1.len() && i != j implies !((#[trigger] e1[i]).0 == (#[trigger] e1[j]).0
            && e1[i].1 == e1[j].1) by {
            if i < e.len() && j < e.len() {
                assert(e1[i] == e[i] && e1[j] == e[j]);
            } else if i < e.len() {
                assert(e1[i] == e[i]);
            } else {
                assert(e1[j] == e[j]);
            }
        }
        assert(e1[e.len() as int].0 == x);
    }
}

/// A mobile unit of the simulation.
#[derive(Clone, Debug)]
pub struct Robot {
    pub x: usize,
    pub y: usize,
    pub robot_type: RobotType,
    pub inventory: Vec<Tile>,
    pub explored_tiles: Vec<(usize, usize, Tile)>,
    pub current_target: Option<(usize, usize)>,
    pub state: RobotState,
    pub path: Vec<(usize, usize)>,
    pub stuck_counter: u32,
    pub last_position: Option<(usize, usize)>,
}

/// The value of a robot, with its vectors seen as sequences.
pub ghost struct RobotView {
    pub x: usize,
    pub y: usize,
    pub kind: RobotType,
    pub inventory: Seq<Tile>,
    pub explored: Seq<(usize, usize, Tile)>,
    pub target: Option<(usize, usize)>,
    pub state: RobotState,
    pub path: Seq<(usize, usize)>,
    pub stuck: u32,
    pub last: Option<(usize, usize)>,
}

impl View for Robot {
    type V = RobotView;

    open spec fn view(&self) -> RobotView {
        RobotView {
            x: self.x,
            y: self.y,
            kind: self.robot_type,
            inventory: self.inventory@,
            explored: self.explored_tiles@,
            target: self.current_target,
            state: self.state,
            path: self.path@,
            stuck: self.stuck_counter,
            last: self.last_position,
        }
    }
}

impl Robot {
    /// A new idle robot of kind `robot_type` on `(x, y)`.
    pub fn new(x: usize, y: usize, robot_type: RobotType) -> (r: Robot)
        ensures
            r@ == fresh_robot(x, y, robot_type),
    {
        Robot {
            x,
            y,
            robot_type,
            inventory: Vec::new(),
            explored_tiles: Vec::new(),
            current_target: None,
            state: RobotState::Idle,
            path: Vec::new(),
            stuck_counter: 0,
            last_position: None,
        }
    }

    /// The cell the robot is heading for, if any.
    pub fn target(&self) -> (r: Option<(usize, usize)>)
        ensures
            r == self@.target,
    {
        self.current_target
    }

    /// Relocates the robot; callers check the cell with `can_move_to` first.
    pub fn move_to(&mut self, new_x: usize, new_y: usize)
        ensures
            final(self)@ == (RobotView { x: new_x, y: new_y, ..old(self)@ }),
    {
        self.x = new_x;
        self.y = new_y;
    }

    /// Puts `tile` in the inventory if this robot's kind gathers it; else does nothing.
    pub fn collect(&mut self, tile: Tile)
        ensures
            final(self)@ == (if collects(old(self)@.kind, tile) {
                RobotView { inventory: old(self)@.inventory.push(tile), ..old(self)@ }
            } else {
                old(self)@
            }),
    {
        if self.can_collect(tile) {
            self.inventory.push(tile);
        }
    }

    /// Whether this robot's kind gathers `tile`.
    pub fn can_collect(&self, tile: Tile) -> (r: bool)
        ensures
            r == collects(self.robot_type, tile),
    {
        match (self.robot_type, tile) {
            (RobotType::Miner, Tile::Mineral) => true,
            (RobotType::EnergyCollector, Tile::Energy) => true,
            (RobotType::Scientist, Tile::Science) => true,
            _ => false,
        }
    }

    /// Remembers that `tile` lies at `(x, y)`, unless that cell is already remembered.
    pub fn record_exploration(&mut self, x: usize, y: usize, tile: Tile)
        ensures
            final(self)@ == (RobotView {
                explored: record_spec(old(self)@.explored, x, y, tile),
                ..old(self)@
            }),
    {
        let mut i: usize = 0;
        let mut found = false;
        while i < self.explored_tiles.len()
            invariant
                i <= self.explored_tiles@.len(),
                found <==> exists|j: int|
                    0 <= j < i && self.explored_tiles@[j].0 == x && self.explored_tiles@[j].1 == y,
            decreases self.explored_tiles@.len() - i,
        {
            let (ex, ey, _) = self.explored_tiles[i];
            if ex == x && ey == y {
                found = true;
            }
            i = i + 1;
        }
        if !found {
            self.explored_tiles.push((x, y, tile));
        }
    }

    /// Heads for `(target_x, target_y)` and forgets the cached path. An idle
    /// robot starts going to a resource; a robot on its way home stays so.
    pub fn set_target(&mut self, target_x: usize, target_y: usize)
        ensures
            final(self)@ == (RobotView {
                target: Some((target_x, target_y)),
                state: if old(self)@.state == RobotState::Idle {
                    RobotState::GoingToResource
                } else {
                    old(self)@.state
                },
                path: seq![],
                ..old(self)@
            }),
    {
        self.current_target = Some((target_x, target_y));
        if self.state == RobotState::Idle {
            self.state = RobotState::GoingToResource;
        }
        self.path.clear();
    }

    /// Heads home to `(base_x, base_y)` and forgets the cached path.
    pub fn set_returning_to_base(&mut self, base_x: usize, base_y: usize)
        ensures
            final(self)@ == (RobotView {
                target: Some((base_x, base_y)),
                state: RobotState::ReturningToBase,
                path: seq![],
                ..old(self)@
            }),
    {
        self.current_target = Some((base_x, base_y));
        self.state = RobotState::ReturningToBase;
        self.path.clear();
    }

    pub fn is_idle(&self) -> (r: bool)
        ensures
            r <==> self.state == RobotState::Idle,
    {
        self.state == RobotState::Idle
    }

    /// Hands over everything carried and goes back to idle with no target,
    /// no cached path and a clear stuck counter.
    pub fn unload_inventory(&mut self) -> (items: Vec<Tile>)
        ensures
            items@ == old(self)@.inventory,
            final(self)@ == (RobotView {
                inventory: seq![],
                state: RobotState::Idle,
                target: None,
                path: seq![],
                stuck: 0,
                ..old(self)@
            }),
    {
        let mut items = Vec::new();
        std::mem::swap(&mut items, &mut self.inventory);
        self.state = RobotState::Idle;
        self.current_target = None;
        self.path.clear();
        self.stuck_counter = 0;
        items
    }

    /// Advances one step toward `(target_x, target_y)`. The robot first
    /// counts how long it has stood still and, past five calls, drops its
    /// cached path. It then follows the cached path, computing a fresh
    /// shortest one when none is cached; a blocked cached step drops the path
    /// and the robot waits. With no route at all it takes the fallback step.
    /// Returns whether the robot moved.
    pub fn move_toward(&mut self, target_x: usize, target_y: usize, map: &[Vec<Tile>]) -> (moved: bool)
        requires
            is_rect(map@),
            in_bounds(map@, old(self).x as int, old(self).y as int),
            old(self).stuck_counter < u32::MAX,
        ensures
            move_toward_spec(map@, old(self)@, (target_x, target_y), final(self)@, moved),
            final(self).stuck_counter <= 5,
            in_bounds(map@, final(self).x as int, final(self).y as int),
    {
        if let Some((last_x, last_y)) = self.last_position {
            if last_x == self.x && last_y == self.y {
                self.stuck_counter = self.stuck_counter + 1;
            } else {
                self.stuck_counter = 0;
            }
        }
        self.last_position = Some((self.x, self.y));
        if self.stuck_counter > 5 {
            self.path.clear();
            self.stuck_counter = 0;
        }
        let ghost kept = self.path@;
        let ghost mut fresh_route: Seq<(usize, usize)> = seq![];
        if self.path.len() == 0 {
            let fresh = self.find_path_to(target_x, target_y, map);
            proof {
                fresh_route = fresh@;
            }
            self.path = fresh;
            if self.path.len() == 0 {
                let moved = self.simple_move_toward(target_x, target_y, map);
                let ghost r = old(self)@;
                assert(search_result(map@, (r.x, r.y), (target_x, target_y), fresh_route) && if fresh_route.len() > 0 {
                    moved && (self@.x, self@.y) == fresh_route[0] && self@.path == fresh_route.drop_first()
                } else {
                    greedy_outcome(map@, r.x, r.y, (target_x, target_y), moved, self@.x, self@.y) && self@.path == fresh_route
                });
                return moved;
            }
            assert(is_step(map@, (old(self).x, old(self).y), fresh_route[0]));
        }
        let (next_x, next_y) = self.path[0];
        if self.can_move_to(next_x, next_y, map) {
            self.x = next_x;
            self.y = next_y;
            self.path.remove(0);
            proof {
                let r = old(self)@;
                if kept.len() == 0 {
                    assert(self.path@ =~= fresh_route.drop_first());
                    assert(search_result(map@, (r.x, r.y), (target_x, target_y), fresh_route) && if fresh_route.len()
                        > 0 {
                        (self@.x, self@.y) == fresh_route[0] && self@.path == fresh_route.drop_first()
                    } else {
                        greedy_outcome(map@, r.x, r.y, (target_x, target_y), true, self@.x, self@.y) && self@.path
                            == fresh_route
                    });
                } else {
                    assert(self.path@ =~= kept.drop_first());
                }
            }
            true
        } else {
            self.path.clear();
            assert(kept.len() > 0);
            false
        }
    }

    /// The cell next to `(x, y)` in direction `k`, when its coordinates are
    /// not negative.
    fn around_cell(x: usize, y: usize, k: usize) -> (r: Option<(usize, usize)>)
        requires
            k < 8,
        ensures
            r matches Some(c) ==> (c.0 as int, c.1 as int) == around(x, y, k as int),
            r is None ==> around(x, y, k as int).0 < 0 || around(x, y, k as int).1 < 0 || around(
                x,
                y,
                k as int,
            ).0 > usize::MAX || around(x, y, k as int).1 > usize::MAX,
    {
        let dx: i8 = if k == 0 || k == 4 || k == 5 {
            1
        } else if k == 1 || k == 6 || k == 7 {
            -1
        } else {
            0
        };
        let dy: i8 = if k == 2 || k == 4 || k == 6 {
            1
        } else if k == 3 || k == 5 || k == 7 {
            -1
        } else {
            0
        };
        let nx = if dx == 1 {
            if x == usize::MAX { return None; }
            x + 1
        } else if dx == -1 {
            if x == 0 { return None; }
            x - 1
        } else {
            x
        };
        let ny = if dy == 1 {
            if y == usize::MAX { return None; }
            y + 1
        } else if dy == -1 {
            if y == 0 { return None; }
            y - 1
        } else {
            y
        };
        Some((nx, ny))
    }

    /// `step_key` of direction `k`, computed exactly.
    fn key_of(x: usize, y: usize, t: (usize, usize), k: usize) -> (r: i128)
        requires
            k < 8,
        ensures
            r == step_key(x, y, t, k as int),
    {
        let dx: i128 = x as i128 - t.0 as i128;
        let dy: i128 = y as i128 - t.1 as i128;
        assert(-0x1_0000_0000_0000_0000 <= dx <= 0x1_0000_0000_0000_0000);
        assert(-0x1_0000_0000_0000_0000 <= dy <= 0x1_0000_0000_0000_0000);
        if k == 0 {
            2 * dx + 1
        } else if k == 1 {
            1 - 2 * dx
        } else if k == 2 {
            2 * dy + 1
        } else if k == 3 {
            1 - 2 * dy
        } else if k == 4 {
            2 * dx + 2 * dy + 2
        } else if k == 5 {
            2 * dx - 2 * dy + 2
        } else if k == 6 {
            2 * dy - 2 * dx + 2
        } else {
            2 - 2 * dx - 2 * dy
        }
    }

    /// The fallback step: among the eight surrounding cells a robot may stand
    /// on, moves to the first that comes nearest to the target. Returns
    /// whether there was one.
    fn simple_move_toward(&mut self, target_x: usize, target_y: usize, map: &[Vec<Tile>]) -> (moved: bool)
        ensures
            greedy_outcome(map@, old(self).x, old(self).y, (target_x, target_y), moved, final(self).x, final(self).y),
            final(self)@ == (RobotView { x: final(self).x, y: final(self).y, ..old(self)@ }),
    {
        let t = (target_x, target_y);
        let x = self.x;
        let y = self.y;
        let rows = map.len();
        let mut best: Option<(usize, usize)> = None;
        let mut best_key: i128 = 0;
        let ghost mut bk: int = 0;
        let mut k: usize = 0;
        while k < 8
            invariant
                k <= 8,
                rows == map@.len(),
                best is None ==> forall|j: int| 0 <= j < k ==> !#[trigger] open_at(map@, x, y, j),
                best matches Some(c) ==> {
                    &&& 0 <= bk < k
                    &&& open_at(map@, x, y, bk)
                    &&& (c.0 as int, c.1 as int) == around(x, y, bk)
                    &&& best_key == step_key(x, y, t, bk)
                    &&& forall|j: int|
                        0 <= j < k && #[trigger] open_at(map@, x, y, j) ==> step_key(x, y, t, bk) <= step_key(
                            x,
                            y,
                            t,
                            j,
                        )
                    &&& forall|j: int|
                        0 <= j < bk && #[trigger] open_at(map@, x, y, j) ==> step_key(x, y, t, j) > step_key(
                            x,
                            y,
                            t,
                            bk,
                        )
                },
            decreases 8 - k,
        {
            if let Some(c) = Self::around_cell(x, y, k) {
                if Self::passable_cell(c.0, c.1, map) {
                    let key = Self::key_of(x, y, t, k);
                    let better = match best {
                        None => true,
                        Some(_) => key < best_key,
                    };
                    if better {
                        best = Some(c);
                        best_key = key;
                        proof {
                            bk = k as int;
                        }
                    }
                }
            } else {
                proof {
                    let a = around(x, y, k as int);
                    if 0 <= a.1 < map@.len() {
                        vstd::std_specs::vec::axiom_spec_len(&map@[a.1]);
                    }
                }
                assert(!open_at(map@, x, y, k as int));
            }
            k = k + 1;
        }
        match best {
            Some(c) => {
                proof {
                    assert forall|j: int| #[trigger] open_at(map@, x, y, j) implies sq_dist(around(x, y, bk), t)
                        <= sq_dist(around(x, y, j), t) by {
                        lemma_step_key(x, y, t, j);
                        lemma_step_key(x, y, t, bk);
                    }
                    assert forall|j: int| 0 <= j < bk && #[trigger] open_at(map@, x, y, j) implies sq_dist(
                        around(x, y, j),
                        t,
                    ) > sq_dist(around(x, y, bk), t) by {
                        lemma_step_key(x, y, t, j);
                        lemma_step_key(x, y, t, bk);
                    }
                    assert(greedy_choice(map@, x, y, t, bk));
                }
                self.x = c.0;
                self.y = c.1;
                true
            },
            None => false,
        }
    }

    /// Whether the robot may stand on `(x, y)`: a cell of the grid that is
    /// not an obstacle (nor a display marker).
    pub fn can_move_to(&self, x: usize, y: usize, map: &[Vec<Tile>]) -> (r: bool)
        ensures
            r == passable(map@, x as int, y as int),
    {
        Self::passable_cell(x, y, map)
    }

    pub fn is_collector(&self) -> (r: bool)
        ensures
            r <==> self.robot_type != RobotType::Explorer,
    {
        match self.robot_type {
            RobotType::Miner | RobotType::EnergyCollector | RobotType::Scientist => true,
            RobotType::Explorer => false,
        }
    }

    pub fn is_explorer(&self) -> (r: bool)
        ensures
            r <==> self.robot_type == RobotType::Explorer,
    {
        self.robot_type == RobotType::Explorer
    }
}

} // verus!

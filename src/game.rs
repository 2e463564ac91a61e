//! The simulation and its tick: explorers move and report resources,
//! collectors are assigned, gather and bring their load home.

use vstd::prelude::*;
use rand::Rng;
use crate::tile::{Tile, is_resource_kind};
use crate::grid::{tile_at, in_bounds, passable, is_rect};
use crate::robot::{
    Robot, RobotState, RobotType, RobotView, record_spec, collects, fresh_robot,
    move_toward_spec,
};
use crate::base::{
    ResourceCounts, SetupError, counts_plus_all, base_cells, find_all_base_positions,
    spawn_robots_in_base, spawn_kinds, lemma_base_cells,
};
use crate::generator::{NoiseBand, generate_map, is_generated};

verus! {

/// A resource that an explorer has seen and that no collector has gathered
/// yet, with the robot that has claimed it, if any.
#[derive(Clone, Copy, Debug, PartialEq, Eq, Structural)]
pub struct DiscoveredResource {
    pub x: usize,
    pub y: usize,
    pub tile_type: Tile,
    pub assigned_robot_id: Option<usize>,
}

/// The whole simulation: the map, the robots, the resources stocked at the
/// base, the ledger of discovered resources, and the base cell the
/// collectors bring their load to.
pub struct GameState {
    map: Vec<Vec<Tile>>,
    robots: Vec<Robot>,
    resources: ResourceCounts,
    discovered_resources: Vec<DiscoveredResource>,
    base_position: (usize, usize),
}

/// The value of a simulation, with robots and ledger seen as sequences.
pub ghost struct GameView {
    pub map: Seq<Vec<Tile>>,
    pub robots: Seq<RobotView>,
    pub resources: ResourceCounts,
    pub ledger: Seq<DiscoveredResource>,
    pub base: (usize, usize),
}

/// The views of a sequence of robots.
pub open spec fn robot_views(rs: Seq<Robot>) -> Seq<RobotView> {
    rs.map_values(|r: Robot| r@)
}

/// No two ledger entries are claimed by the same robot.
pub open spec fn claims_unique(ledger: Seq<DiscoveredResource>) -> bool {
    forall|i: int, j: int|
        0 <= i < ledger.len() && 0 <= j < ledger.len() && i != j && (#[trigger] ledger[i]).assigned_robot_id
            is Some ==> ledger[i].assigned_robot_id != (#[trigger] ledger[j]).assigned_robot_id
}

/// No two ledger entries name the same cell.
pub open spec fn cells_unique(ledger: Seq<DiscoveredResource>) -> bool {
    forall|i: int, j: int|
        0 <= i < ledger.len() && 0 <= j < ledger.len() && i != j ==> !((#[trigger] ledger[i]).x == (
        #[trigger] ledger[j]).x && ledger[i].y == ledger[j].y)
}

/// Some ledger entry names the cell `(x, y)`.
pub open spec fn ledger_has_cell(ledger: Seq<DiscoveredResource>, x: int, y: int) -> bool {
    exists|j: int| 0 <= j < ledger.len() && (#[trigger] ledger[j]).x == x && ledger[j].y == y
}

/// Some ledger entry is claimed by robot `id`.
pub open spec fn is_claimed(ledger: Seq<DiscoveredResource>, id: int) -> bool {
    exists|j: int| 0 <= j < ledger.len() && (#[trigger] ledger[j]).assigned_robot_id == Some(id as usize)
}

/// A robot that stands on the map, has not counted itself stuck past the
/// limit, and carries resources only, and nothing at all if it explores.
pub open spec fn robot_ok(map: Seq<Vec<Tile>>, r: RobotView) -> bool {
    &&& in_bounds(map, r.x as int, r.y as int)
    &&& r.stuck <= 5
    &&& forall|k: int| 0 <= k < r.inventory.len() ==> is_resource_kind(#[trigger] r.inventory[k])
    &&& r.kind == RobotType::Explorer ==> r.inventory.len() == 0
}

/// A ledger entry on the map, for a resource that still lies there, claimed
/// by no robot or by a collector that gathers its kind.
pub open spec fn entry_ok(map: Seq<Vec<Tile>>, robots: Seq<RobotView>, e: DiscoveredResource) -> bool {
    &&& entry_in(map, robots, e)
    &&& tile_at(map, e.x as int, e.y as int) == e.tile_type
}

/// A ledger entry on the map, for a resource kind, claimed by no robot or
/// by a collector that gathers its kind.
pub open spec fn entry_in(map: Seq<Vec<Tile>>, robots: Seq<RobotView>, e: DiscoveredResource) -> bool {
    &&& in_bounds(map, e.x as int, e.y as int)
    &&& is_resource_kind(e.tile_type)
    &&& e.assigned_robot_id matches Some(id) ==> id < robots.len() && collects(robots[id as int].kind, e.tile_type)
}

/// Robot `i` heads for a resource exactly when a ledger entry claims it.
pub open spec fn claims_match_states(g: GameView) -> bool {
    forall|i: int|
        0 <= i < g.robots.len() ==> ((#[trigger] g.robots[i]).state == RobotState::GoingToResource
            <==> is_claimed(g.ledger, i))
}

/// A robot that a ledger entry claims has that entry's cell as its target.
pub open spec fn claims_targeted(g: GameView) -> bool {
    forall|j: int|
        0 <= j < g.ledger.len() && (#[trigger] g.ledger[j]).assigned_robot_id is Some ==> g.robots[(
        g.ledger[j].assigned_robot_id->Some_0) as int].target == Some((g.ledger[j].x, g.ledger[j].y))
}

/// The invariant of a simulation between two ticks: a rectangular map, the
/// base and every robot on it, a ledger of distinct cells and distinct
/// claims whose resources still lie on their cells, and robots heading for
/// a resource exactly when an entry claims them, toward that entry's cell.
pub open spec fn game_inv(g: GameView) -> bool {
    &&& is_rect(g.map)
    &&& g.map.len() <= usize::MAX
    &&& g.map[0]@.len() <= usize::MAX
    &&& g.robots.len() <= usize::MAX
    &&& in_bounds(g.map, g.base.0 as int, g.base.1 as int)
    &&& forall|i: int| 0 <= i < g.robots.len() ==> robot_ok(g.map, #[trigger] g.robots[i])
    &&& forall|j: int| 0 <= j < g.ledger.len() ==> entry_ok(g.map, g.robots, #[trigger] g.ledger[j])
    &&& claims_unique(g.ledger)
    &&& cells_unique(g.ledger)
    &&& claims_match_states(g)
    &&& claims_targeted(g)
}

/// The four directions an explorer may take: down, right, up, left.
pub open spec fn dir4(d: int) -> (int, int) {
    if d == 0 {
        (0, 1)
    } else if d == 1 {
        (1, 0)
    } else if d == 2 {
        (0, -1)
    } else {
        (-1, 0)
    }
}

/// Robot `i` of `g`, if it is an explorer, tries one step in direction
/// `d`. Where it lands on a resource whose cell the ledger does not name
/// yet, it remembers the tile and the ledger gains an unclaimed entry.
pub open spec fn explore_step(g: GameView, i: int, d: int) -> GameView {
    let r = g.robots[i];
    let nx = r.x + dir4(d).0;
    let ny = r.y + dir4(d).1;
    if r.kind != RobotType::Explorer || !passable(g.map, nx, ny) {
        g
    } else {
        let t = tile_at(g.map, nx, ny);
        let moved = RobotView { x: nx as usize, y: ny as usize, ..r };
        if is_resource_kind(t) && !ledger_has_cell(g.ledger, nx, ny) {
            GameView {
                robots: g.robots.update(
                    i,
                    RobotView { explored: record_spec(r.explored, nx as usize, ny as usize, t), ..moved },
                ),
                ledger: g.ledger.push(
                    DiscoveredResource { x: nx as usize, y: ny as usize, tile_type: t, assigned_robot_id: None },
                ),
                ..g
            }
        } else {
            GameView { robots: g.robots.update(i, moved), ..g }
        }
    }
}

/// The explorer phase run over the first `n` robots, in order, robot `i`
/// taking direction `dirs[i]`.
pub open spec fn explore_upto(g: GameView, dirs: Seq<usize>, n: int) -> GameView
    decreases n,
{
    if n <= 0 {
        g
    } else {
        explore_step(explore_upto(g, dirs, n - 1), n - 1, dirs[n - 1] as int)
    }
}

/// The explorer phase: every explorer, in order, takes its direction.
pub open spec fn explore_phase(g: GameView, dirs: Seq<usize>) -> GameView {
    explore_upto(g, dirs, g.robots.len() as int)
}

/// One explorer step keeps the invariant.
proof fn lemma_explore_step_inv(g: GameView, i: int, d: int)
    requires
        game_inv(g),
        0 <= i < g.robots.len(),
    ensures
        game_inv(explore_step(g, i, d)),
{
    let g2 = explore_step(g, i, d);
    let r = g.robots[i];
    let nx = r.x + dir4(d).0;
    let ny = r.y + dir4(d).1;
    if r.kind == RobotType::Explorer && passable(g.map, nx, ny) {
        assert forall|k: int| 0 <= k < g2.robots.len() implies robot_ok(g2.map, #[trigger] g2.robots[k]) by {
            if k != i {
                assert(g2.robots[k] == g.robots[k]);
            }
        }
        assert forall|j: int| 0 <= j < g2.ledger.len() implies entry_ok(g2.map, g2.robots, #[trigger] g2.ledger[j]) by {
            if j < g.ledger.len() {
                assert(g2.ledger[j] == g.ledger[j]);
                assert(entry_ok(g.map, g.robots, g.ledger[j]));
                if let Some(id) = g.ledger[j].assigned_robot_id {
                    assert(g2.robots[id as int].kind == g.robots[id as int].kind);
                }
            }
        }
        assert forall|a: int, b: int|
            0 <= a < g2.ledger.len() && 0 <= b < g2.ledger.len() && a != b && (#[trigger] g2.ledger[a]).assigned_robot_id
                is Some implies g2.ledger[a].assigned_robot_id != (#[trigger] g2.ledger[b]).assigned_robot_id by {
            if a < g.ledger.len() && b < g.ledger.len() {
                assert(g2.ledger[a] == g.ledger[a] && g2.ledger[b] == g.ledger[b]);
            }
        }
        assert forall|a: int, b: int|
            0 <= a < g2.ledger.len() && 0 <= b < g2.ledger.len() && a != b implies !((#[trigger] g2.ledger[a]).x == (
            #[trigger] g2.ledger[b]).x && g2.ledger[a].y == g2.ledger[b].y) by {
            if a < g.ledger.len() && b < g.ledger.len() {
                assert(g2.ledger[a] == g.ledger[a] && g2.ledger[b] == g.ledger[b]);
            } else if a < g.ledger.len() {
                assert(g2.ledger[a] == g.ledger[a]);
            } else if b < g.ledger.len() {
                assert(g2.ledger[b] == g.ledger[b]);
            }
        }
        assert forall|k: int| 0 <= k < g2.robots.len() implies ((#[trigger] g2.robots[k]).state
            == RobotState::GoingToResource <==> is_claimed(g2.ledger, k)) by {
            assert(g2.robots[k].state == g.robots[k].state);
            if is_claimed(g.ledger, k) {
                let w = choose|w: int| 0 <= w < g.ledger.len() && (#[trigger] g.ledger[w]).assigned_robot_id == Some(k as usize);
                assert(g2.ledger[w] == g.ledger[w]);
            }
            if is_claimed(g2.ledger, k) {
                let w = choose|w: int| 0 <= w < g2.ledger.len() && (#[trigger] g2.ledger[w]).assigned_robot_id == Some(k as usize);
                assert(g2.ledger[w] == g.ledger[w]);
            }
        }
        assert forall|w: int| 0 <= w < g2.ledger.len() && (#[trigger] g2.ledger[w]).assigned_robot_id is Some implies g2.robots[(
        g2.ledger[w].assigned_robot_id->Some_0) as int].target == Some((g2.ledger[w].x, g2.ledger[w].y)) by {
            assert(g2.ledger[w] == g.ledger[w]);
            let id = (g.ledger[w].assigned_robot_id->Some_0) as int;
            assert(entry_ok(g.map, g.robots, g.ledger[w]));
            assert(g2.robots[id].target == g.robots[id].target);
        }
    }
}

/// The kind of collector that gathers resources of kind `t`.
pub open spec fn collector_for(t: Tile) -> RobotType {
    match t {
        Tile::Mineral => RobotType::Miner,
        Tile::Energy => RobotType::EnergyCollector,
        _ => RobotType::Scientist,
    }
}

/// Robot `i` of `g` can take on a resource for kind `k`: an idle collector
/// of that kind that no ledger entry claims.
pub open spec fn available(g: GameView, i: int, k: RobotType) -> bool {
    &&& 0 <= i < g.robots.len()
    &&& k != RobotType::Explorer
    &&& g.robots[i].kind == k
    &&& g.robots[i].state == RobotState::Idle
    &&& !is_claimed(g.ledger, i)
}

/// Robot `i` is the lowest-numbered robot available for kind `k`.
pub open spec fn lowest_available(g: GameView, k: RobotType, i: int) -> bool {
    available(g, i, k) && forall|j: int| 0 <= j < i ==> !#[trigger] available(g, j, k)
}

/// `r` after `set_target(x, y)`.
pub open spec fn targeted(r: RobotView, x: usize, y: usize) -> RobotView {
    RobotView {
        target: Some((x, y)),
        state: if r.state == RobotState::Idle {
            RobotState::GoingToResource
        } else {
            r.state
        },
        path: seq![],
        ..r
    }
}

/// Ledger entry `j` of `g`, when unclaimed, is claimed by the
/// lowest-numbered robot available for its kind, which heads for it.
pub open spec fn assign_step(g: GameView, j: int) -> GameView {
    let e = g.ledger[j];
    let k = collector_for(e.tile_type);
    if e.assigned_robot_id is Some || !(exists|i: int| #[trigger] available(g, i, k)) {
        g
    } else {
        let i = choose|i: int| lowest_available(g, k, i);
        GameView {
            ledger: g.ledger.update(j, DiscoveredResource { assigned_robot_id: Some(i as usize), ..e }),
            robots: g.robots.update(i, targeted(g.robots[i], e.x, e.y)),
            ..g
        }
    }
}

/// The assignment phase run over the first `n` ledger entries, in order.
pub open spec fn assign_upto(g: GameView, n: int) -> GameView
    decreases n,
{
    if n <= 0 {
        g
    } else {
        assign_step(assign_upto(g, n - 1), n - 1)
    }
}

/// The assignment phase: each unclaimed ledger entry, in order, is claimed
/// by the lowest-numbered robot available for it.
pub open spec fn assign_phase(g: GameView) -> GameView {
    assign_upto(g, g.ledger.len() as int)
}

/// The assignment phase keeps the ledger's length.
proof fn lemma_assign_len(g: GameView, n: int)
    requires
        n <= g.ledger.len(),
    ensures
        assign_upto(g, n).ledger.len() == g.ledger.len(),
        assign_upto(g, n).robots.len() == g.robots.len(),
    decreases n,
{
    if n > 0 {
        lemma_assign_len(g, n - 1);
        let g1 = assign_upto(g, n - 1);
        let e = g1.ledger[n - 1];
        let k = collector_for(e.tile_type);
        if !(e.assigned_robot_id is Some || !(exists|i: int| #[trigger] available(g1, i, k))) {
            let i0 = choose|i: int| available(g1, i, k);
            lemma_lowest_exists(g1, k, i0);
        }
    }
}

/// When some robot is available for kind `k`, a lowest-numbered one is.
proof fn lemma_lowest_exists(g: GameView, k: RobotType, i: int)
    requires
        available(g, i, k),
    ensures
        exists|c: int| lowest_available(g, k, c),
    decreases i,
{
    if exists|j: int| 0 <= j < i && #[trigger] available(g, j, k) {
        let j = choose|j: int| 0 <= j < i && #[trigger] available(g, j, k);
        lemma_lowest_exists(g, k, j);
    } else {
        assert(lowest_available(g, k, i));
    }
}

/// One assignment step keeps the invariant.
proof fn lemma_assign_step_inv(g: GameView, j: int)
    requires
        game_inv(g),
        0 <= j < g.ledger.len(),
    ensures
        game_inv(assign_step(g, j)),
{
    let e = g.ledger[j];
    let k = collector_for(e.tile_type);
    if !(e.assigned_robot_id is Some || !(exists|i: int| #[trigger] available(g, i, k))) {
        let i0 = choose|i: int| available(g, i, k);
        lemma_lowest_exists(g, k, i0);
        let i = choose|i: int| lowest_available(g, k, i);
        let g2 = assign_step(g, j);
        assert(lowest_available(g, k, i));
        assert(collects(k, e.tile_type));
        assert(entry_ok(g.map, g.robots, e));
        assert forall|a: int| 0 <= a < g2.robots.len() implies robot_ok(g2.map, #[trigger] g2.robots[a]) by {
            if a != i {
                assert(g2.robots[a] == g.robots[a]);
            }
        }
        assert forall|b: int| 0 <= b < g2.ledger.len() implies entry_ok(g2.map, g2.robots, #[trigger] g2.ledger[b]) by {
            assert(entry_ok(g.map, g.robots, g.ledger[b]));
            if b == j {
                assert(g2.ledger[b].assigned_robot_id == Some(i as usize));
                assert(g2.robots[i].kind == k);
            } else {
                assert(g2.ledger[b] == g.ledger[b]);
                if let Some(id) = g.ledger[b].assigned_robot_id {
                    assert(id != i);
                    assert(g2.robots[id as int] == g.robots[id as int]);
                }
            }
        }
        assert forall|a: int, b: int|
            0 <= a < g2.ledger.len() && 0 <= b < g2.ledger.len() && a != b && (#[trigger] g2.ledger[a]).assigned_robot_id
                is Some implies g2.ledger[a].assigned_robot_id != (#[trigger] g2.ledger[b]).assigned_robot_id by {
            if a == j {
                assert(g.ledger[b].assigned_robot_id != Some(i as usize));
            } else if b == j {
                assert(g.ledger[a].assigned_robot_id != Some(i as usize));
            } else {
                assert(g2.ledger[a] == g.ledger[a] && g2.ledger[b] == g.ledger[b]);
            }
        }
        assert forall|a: int, b: int|
            0 <= a < g2.ledger.len() && 0 <= b < g2.ledger.len() && a != b implies !((#[trigger] g2.ledger[a]).x == (
            #[trigger] g2.ledger[b]).x && g2.ledger[a].y == g2.ledger[b].y) by {
            assert(g.ledger[a].x == g2.ledger[a].x && g.ledger[a].y == g2.ledger[a].y);
            assert(g.ledger[b].x == g2.ledger[b].x && g.ledger[b].y == g2.ledger[b].y);
        }
        assert forall|a: int| 0 <= a < g2.robots.len() implies ((#[trigger] g2.robots[a]).state
            == RobotState::GoingToResource <==> is_claimed(g2.ledger, a)) by {
            if a == i {
                assert(g2.ledger[j].assigned_robot_id == Some(a as usize));
            } else {
                assert(g2.robots[a] == g.robots[a]);
                if is_claimed(g.ledger, a) {
                    let w = choose|w: int| 0 <= w < g.ledger.len() && (#[trigger] g.ledger[w]).assigned_robot_id == Some(a as usize);
                    assert(w != j);
                    assert(g2.ledger[w] == g.ledger[w]);
                }
                if is_claimed(g2.ledger, a) {
                    let w = choose|w: int| 0 <= w < g2.ledger.len() && (#[trigger] g2.ledger[w]).assigned_robot_id == Some(a as usize);
                    assert(w != j);
                    assert(g2.ledger[w] == g.ledger[w]);
                }
            }
        }
        assert forall|w: int| 0 <= w < g2.ledger.len() && (#[trigger] g2.ledger[w]).assigned_robot_id is Some implies g2.robots[(
        g2.ledger[w].assigned_robot_id->Some_0) as int].target == Some((g2.ledger[w].x, g2.ledger[w].y)) by {
            if w != j {
                assert(g2.ledger[w] == g.ledger[w]);
                let id = (g.ledger[w].assigned_robot_id->Some_0) as int;
                assert(entry_ok(g.map, g.robots, g.ledger[w]));
                assert(id != i);
                assert(g2.robots[id] == g.robots[id]);
            }
        }
    }
}

/// The cell of the ledger entry that robot `i` has claimed, if any.
pub open spec fn claim_of(ledger: Seq<DiscoveredResource>, i: int) -> Option<(usize, usize)> {
    if is_claimed(ledger, i) {
        let j = choose|j: int| 0 <= j < ledger.len() && (#[trigger] ledger[j]).assigned_robot_id == Some(i as usize);
        Some((ledger[j].x, ledger[j].y))
    } else {
        None
    }
}

/// What the collector phase does with robot `i` of `g`: it ends as `r2`,
/// gathers the resource on cell `gathered` if any, and hands the base the
/// items `unloaded`. Robots heading for a claimed resource gather it on
/// arrival and turn home, else take a step toward it; robots heading home
/// unload on arrival, else take a step toward the base.
pub open spec fn collector_step(
    g: GameView,
    i: int,
    r2: RobotView,
    gathered: Option<(usize, usize)>,
    unloaded: Seq<Tile>,
) -> bool {
    let r = g.robots[i];
    if r.kind == RobotType::Explorer || r.state == RobotState::Idle {
        r2 == r && gathered is None && unloaded.len() == 0
    } else if r.state == RobotState::GoingToResource {
        unloaded.len() == 0 && match claim_of(g.ledger, i) {
            None => r2 == r && gathered is None,
            Some(c) => if (r.x, r.y) == c {
                let t = tile_at(g.map, c.0 as int, c.1 as int);
                if collects(r.kind, t) {
                    gathered == Some(c) && r2 == (RobotView {
                        inventory: r.inventory.push(t),
                        target: Some(g.base),
                        state: RobotState::ReturningToBase,
                        path: seq![],
                        ..r
                    })
                } else {
                    r2 == r && gathered is None
                }
            } else {
                gathered is None && exists|moved: bool| #[trigger] move_toward_spec(g.map, r, c, r2, moved)
            },
        }
    } else {
        gathered is None && if (r.x, r.y) == g.base {
            unloaded == r.inventory && r2 == (RobotView {
                inventory: seq![],
                state: RobotState::Idle,
                target: None,
                path: seq![],
                stuck: 0,
                ..r
            })
        } else {
            unloaded.len() == 0 && exists|moved: bool| #[trigger] move_toward_spec(g.map, r, g.base, r2, moved)
        }
    }
}

/// The cells among `s`, in order.
pub open spec fn somes(s: Seq<Option<(usize, usize)>>) -> Seq<(usize, usize)>
    decreases s.len(),
{
    if s.len() == 0 {
        seq![]
    } else {
        somes(s.drop_last()) + match s.last() {
            Some(c) => seq![c],
            None => seq![],
        }
    }
}

/// The items of `s`, one list after the other.
pub open spec fn flat(s: Seq<Seq<Tile>>) -> Seq<Tile>
    decreases s.len(),
{
    if s.len() == 0 {
        seq![]
    } else {
        flat(s.drop_last()) + s.last()
    }
}

/// The entries of `l` that satisfy `p`, in order.
pub open spec fn keep_if(l: Seq<DiscoveredResource>, p: spec_fn(DiscoveredResource) -> bool) -> Seq<
    DiscoveredResource,
>
    decreases l.len(),
{
    if l.len() == 0 {
        l
    } else if p(l.last()) {
        keep_if(l.drop_last(), p).push(l.last())
    } else {
        keep_if(l.drop_last(), p)
    }
}

/// `l` without its entries on the cell `(x, y)`.
pub open spec fn without_cell(l: Seq<DiscoveredResource>, x: usize, y: usize) -> Seq<DiscoveredResource> {
    keep_if(l, |e: DiscoveredResource| !(e.x == x && e.y == y))
}

/// `l` without its entries on any of the cells `cs`.
pub open spec fn without_cells(l: Seq<DiscoveredResource>, cs: Seq<(usize, usize)>) -> Seq<DiscoveredResource>
    decreases cs.len(),
{
    if cs.len() == 0 {
        l
    } else {
        without_cell(without_cells(l, cs.drop_last()), cs.last().0, cs.last().1)
    }
}

/// `m2` is `m` with the cells `cs` emptied.
pub open spec fn cleared(m: Seq<Vec<Tile>>, cs: Seq<(usize, usize)>, m2: Seq<Vec<Tile>>) -> bool {
    &&& m2.len() == m.len()
    &&& forall|y: int| 0 <= y < m.len() ==> (#[trigger] m2[y])@.len() == m[y]@.len()
    &&& forall|x: int, y: int|
        0 <= y < m.len() && 0 <= x < m[y]@.len() ==> #[trigger] m2[y]@[x] == if cs.contains((x as usize, y as usize)) {
            Tile::Empty
        } else {
            m[y]@[x]
        }
}

/// The collector phase: every collector acts as `collector_step` says, the
/// base stocks what was unloaded, in robot order, and each gathered cell
/// is emptied and leaves the ledger.
pub open spec fn collect_phase(g: GameView, g2: GameView) -> bool {
    exists|ga: Seq<Option<(usize, usize)>>, un: Seq<Seq<Tile>>|
        {
            &&& ga.len() == g.robots.len()
            &&& un.len() == g.robots.len()
            &&& g2.robots.len() == g.robots.len()
            &&& forall|i: int| 0 <= i < g.robots.len() ==> #[trigger] collector_step(g, i, g2.robots[i], ga[i], un[i])
            &&& g2.resources == counts_plus_all(g.resources, flat(un))
            &&& g2.base == g.base
            &&& cleared(g.map, somes(ga), g2.map)
            &&& g2.ledger == without_cells(g.ledger, somes(ga))
        }
}

/// `l` without the entries whose resource no longer lies on their cell.
pub open spec fn still_there(m: Seq<Vec<Tile>>, l: Seq<DiscoveredResource>) -> Seq<DiscoveredResource> {
    keep_if(
        l,
        |e: DiscoveredResource| in_bounds(m, e.x as int, e.y as int) && tile_at(m, e.x as int, e.y as int) == e.tile_type,
    )
}

/// The cleanup phase: the ledger keeps only the entries whose resource
/// still lies on their cell.
pub open spec fn cleanup_phase(g: GameView) -> GameView {
    GameView { ledger: still_there(g.map, g.ledger), ..g }
}

/// Keeping the entries that satisfy `p` keeps each of them.
proof fn lemma_keep_if_keeps(l: Seq<DiscoveredResource>, p: spec_fn(DiscoveredResource) -> bool)
    ensures
        forall|j: int| 0 <= j < l.len() && p(l[j]) ==> keep_if(l, p).contains(#[trigger] l[j]),
    decreases l.len(),
{
    if l.len() > 0 {
        let d = l.drop_last();
        lemma_keep_if_keeps(d, p);
        assert forall|j: int| 0 <= j < l.len() && p(l[j]) implies keep_if(l, p).contains(#[trigger] l[j]) by {
            if j < l.len() - 1 {
                assert(d[j] == l[j]);
                let w = keep_if(d, p);
                let k = choose|k: int| 0 <= k < w.len() && w[k] == d[j];
                if p(l.last()) {
                    assert(keep_if(l, p)[k] == w[k]);
                }
            } else {
                assert(keep_if(l, p)[keep_if(l, p).len() - 1] == l[j]);
            }
        }
    }
}

/// Keeping the entries that satisfy `p`, when all do, keeps the ledger as it is.
proof fn lemma_keep_all(l: Seq<DiscoveredResource>, p: spec_fn(DiscoveredResource) -> bool)
    requires
        forall|j: int| 0 <= j < l.len() ==> p(#[trigger] l[j]),
    ensures
        keep_if(l, p) == l,
    decreases l.len(),
{
    if l.len() > 0 {
        let d = l.drop_last();
        assert forall|j: int| 0 <= j < d.len() implies p(#[trigger] d[j]) by {
            assert(d[j] == l[j]);
        }
        lemma_keep_all(d, p);
        assert(p(l[l.len() - 1]));
        assert(d.push(l.last()) == l);
    }
}

/// Keeping the entries that satisfy `p` keeps the ledger's entries
/// distinct, and keeps only entries it had.
proof fn lemma_keep_if(l: Seq<DiscoveredResource>, p: spec_fn(DiscoveredResource) -> bool)
    requires
        claims_unique(l),
        cells_unique(l),
    ensures
        claims_unique(keep_if(l, p)),
        cells_unique(keep_if(l, p)),
        forall|k: int| 0 <= k < keep_if(l, p).len() ==> l.contains(#[trigger] keep_if(l, p)[k]),
        forall|k: int| 0 <= k < keep_if(l, p).len() ==> p(#[trigger] keep_if(l, p)[k]),
    decreases l.len(),
{
    if l.len() > 0 {
        let d = l.drop_last();
        assert(claims_unique(d)) by {
            assert forall|a: int, b: int|
                0 <= a < d.len() && 0 <= b < d.len() && a != b && (#[trigger] d[a]).assigned_robot_id is Some implies d[a].assigned_robot_id
                    != (#[trigger] d[b]).assigned_robot_id by {
                assert(d[a] == l[a] && d[b] == l[b]);
            }
        }
        assert(cells_unique(d)) by {
            assert forall|a: int, b: int| 0 <= a < d.len() && 0 <= b < d.len() && a != b implies !((#[trigger] d[a]).x == (
            #[trigger] d[b]).x && d[a].y == d[b].y) by {
                assert(d[a] == l[a] && d[b] == l[b]);
            }
        }
        lemma_keep_if(d, p);
        let w = keep_if(d, p);
        assert forall|k: int| 0 <= k < w.len() implies l.contains(#[trigger] w[k]) by {
            let j = choose|j: int| 0 <= j < d.len() && d[j] == w[k];
            assert(l[j] == w[k]);
        }
        if p(l.last()) {
            let w2 = w.push(l.last());
            assert forall|k: int| 0 <= k < w.len() implies (#[trigger] w[k]).x != l.last().x || w[k].y != l.last().y
                && (w[k].assigned_robot_id is Some ==> w[k].assigned_robot_id != l.last().assigned_robot_id) by {
                let j = choose|j: int| 0 <= j < d.len() && d[j] == w[k];
                assert(l[j] == w[k]);
                assert(j != l.len() - 1);
            }
            assert forall|k: int| 0 <= k < w2.len() implies l.contains(#[trigger] w2[k]) by {
                if k < w.len() {
                    assert(w2[k] == w[k]);
                } else {
                    assert(l[l.len() - 1] == w2[k]);
                }
            }
            assert forall|a: int, b: int|
                0 <= a < w2.len() && 0 <= b < w2.len() && a != b && (#[trigger] w2[a]).assigned_robot_id is Some implies w2[a].assigned_robot_id
                    != (#[trigger] w2[b]).assigned_robot_id by {
                if a < w.len() && b < w.len() {
                    assert(w2[a] == w[a] && w2[b] == w[b]);
                } else if a < w.len() {
                    assert(w2[a] == w[a]);
                    let j = choose|j: int| 0 <= j < d.len() && d[j] == w[a];
                    assert(l[j] == w[a]);
                } else {
                    assert(w2[b] == w[b]);
                    let j = choose|j: int| 0 <= j < d.len() && d[j] == w[b];
                    assert(l[j] == w[b]);
                }
            }
            assert forall|a: int, b: int| 0 <= a < w2.len() && 0 <= b < w2.len() && a != b implies !((#[trigger] w2[a]).x == (
            #[trigger] w2[b]).x && w2[a].y == w2[b].y) by {
                if a < w.len() && b < w.len() {
                    assert(w2[a] == w[a] && w2[b] == w[b]);
                } else if a < w.len() {
                    assert(w2[a] == w[a]);
                } else {
                    assert(w2[b] == w[b]);
                }
            }
        }
    }
}

/// Dropping the entries on several cells keeps the ledger's entries
/// distinct, and keeps only entries it had.
proof fn lemma_without_cells(l: Seq<DiscoveredResource>, cs: Seq<(usize, usize)>)
    requires
        claims_unique(l),
        cells_unique(l),
    ensures
        claims_unique(without_cells(l, cs)),
        cells_unique(without_cells(l, cs)),
        forall|k: int| 0 <= k < without_cells(l, cs).len() ==> l.contains(#[trigger] without_cells(l, cs)[k]),
        forall|k: int|
            0 <= k < without_cells(l, cs).len() ==> !cs.contains(
                ((#[trigger] without_cells(l, cs)[k]).x, without_cells(l, cs)[k].y),
            ),
        forall|j: int|
            0 <= j < l.len() && !cs.contains(((#[trigger] l[j]).x, l[j].y)) ==> without_cells(l, cs).contains(l[j]),
    decreases cs.len(),
{
    if cs.len() > 0 {
        let cs0 = cs.drop_last();
        lemma_without_cells(l, cs0);
        let w = without_cells(l, cs0);
        let p = |e: DiscoveredResource| !(e.x == cs.last().0 && e.y == cs.last().1);
        lemma_keep_if(w, p);
        lemma_keep_if_keeps(w, p);
        let w2 = without_cells(l, cs);
        assert forall|k: int| 0 <= k < w2.len() implies l.contains(#[trigger] w2[k]) by {
            assert(w.contains(w2[k]));
            let j = choose|j: int| 0 <= j < w.len() && w[j] == w2[k];
            assert(l.contains(w[j]));
        }
        assert forall|k: int| 0 <= k < w2.len() implies !cs.contains(((#[trigger] w2[k]).x, w2[k].y)) by {
            assert(w.contains(w2[k]));
            let j = choose|j: int| 0 <= j < w.len() && w[j] == w2[k];
            assert(!cs0.contains((w[j].x, w[j].y)));
            assert(p(w2[k]));
            if cs.contains((w2[k].x, w2[k].y)) {
                let c = choose|c: int| 0 <= c < cs.len() && cs[c] == (w2[k].x, w2[k].y);
                if c < cs.len() - 1 {
                    assert(cs0[c] == cs[c]);
                }
            }
        }
        assert forall|j: int| 0 <= j < l.len() && !cs.contains(((#[trigger] l[j]).x, l[j].y)) implies w2.contains(l[j]) by {
            assert forall|c: int| 0 <= c < cs0.len() implies cs0[c] != (l[j].x, l[j].y) by {
                assert(cs[c] == cs0[c]);
            }
            assert(!cs0.contains((l[j].x, l[j].y)));
            assert(w.contains(l[j]));
            let i = choose|i: int| 0 <= i < w.len() && w[i] == l[j];
            assert(cs[cs.len() - 1] != (l[j].x, l[j].y));
            assert(p(w[i]));
            assert(w2.contains(w[i]));
        }
    }
}

/// Stocking `a` then `b` is stocking `a + b`.
proof fn lemma_counts_append(c: ResourceCounts, a: Seq<Tile>, b: Seq<Tile>)
    ensures
        counts_plus_all(c, a + b) == counts_plus_all(counts_plus_all(c, a), b),
    decreases b.len(),
{
    if b.len() > 0 {
        lemma_counts_append(c, a, b.drop_last());
        assert((a + b).drop_last() == a + b.drop_last());
    } else {
        assert(a + b == a);
    }
}

/// A collector step leaves the robot on the map, of the same kind, with
/// resources only in its hands and in what it unloads.
proof fn lemma_collector_step_ok(
    g: GameView,
    i: int,
    r2: RobotView,
    gathered: Option<(usize, usize)>,
    unloaded: Seq<Tile>,
)
    requires
        game_inv(g),
        0 <= i < g.robots.len(),
        collector_step(g, i, r2, gathered, unloaded),
    ensures
        robot_ok(g.map, r2),
        r2.kind == g.robots[i].kind,
        forall|k: int| 0 <= k < unloaded.len() ==> is_resource_kind(#[trigger] unloaded[k]),
        gathered matches Some(c) ==> in_bounds(g.map, c.0 as int, c.1 as int),
{
    let r = g.robots[i];
    assert(robot_ok(g.map, r));
    if r.kind != RobotType::Explorer && r.state == RobotState::GoingToResource {
        if let Some(c) = claim_of(g.ledger, i) {
            let j = choose|j: int| 0 <= j < g.ledger.len() && (#[trigger] g.ledger[j]).assigned_robot_id == Some(i as usize);
            assert(entry_ok(g.map, g.robots, g.ledger[j]));
            if (r.x, r.y) == c {
                let t = tile_at(g.map, c.0 as int, c.1 as int);
                if collects(r.kind, t) {
                    assert forall|k: int| 0 <= k < r2.inventory.len() implies is_resource_kind(#[trigger] r2.inventory[k]) by {
                        if k < r.inventory.len() {
                            assert(r2.inventory[k] == r.inventory[k]);
                        }
                    }
                }
            }
        }
    }
}

/// The cell of the entry that claims robot `i` is that robot's claimed cell.
proof fn lemma_claim_of(l: Seq<DiscoveredResource>, i: int, w: int)
    requires
        claims_unique(l),
        0 <= w < l.len(),
        l[w].assigned_robot_id == Some(i as usize),
    ensures
        claim_of(l, i) == Some((l[w].x, l[w].y)),
{
    let j = choose|j: int| 0 <= j < l.len() && (#[trigger] l[j]).assigned_robot_id == Some(i as usize);
    if j != w {
        assert(l[j].assigned_robot_id != l[w].assigned_robot_id);
    }
}

/// `somes(ga)` lists exactly the cells that `ga` holds.
proof fn lemma_somes(ga: Seq<Option<(usize, usize)>>)
    ensures
        forall|i: int| 0 <= i < ga.len() && (#[trigger] ga[i]) is Some ==> somes(ga).contains(ga[i]->Some_0),
        forall|k: int|
            0 <= k < somes(ga).len() ==> exists|i: int| 0 <= i < ga.len() && #[trigger] ga[i] == Some(
                #[trigger] somes(ga)[k],
            ),
    decreases ga.len(),
{
    if ga.len() > 0 {
        let d = ga.drop_last();
        lemma_somes(d);
        let sd = somes(d);
        let sg = somes(ga);
        assert forall|i: int| 0 <= i < ga.len() && (#[trigger] ga[i]) is Some implies sg.contains(ga[i]->Some_0) by {
            if i < ga.len() - 1 {
                assert(d[i] == ga[i]);
                let k = choose|k: int| 0 <= k < sd.len() && sd[k] == d[i]->Some_0;
                assert(sg[k] == sd[k]);
            } else {
                assert(sg[sg.len() - 1] == ga[i]->Some_0);
            }
        }
        assert forall|k: int| 0 <= k < sg.len() implies exists|i: int| 0 <= i < ga.len() && #[trigger] ga[i] == Some(
            #[trigger] sg[k],
        ) by {
            if k < sd.len() {
                assert(sg[k] == sd[k]);
                let i = choose|i: int| 0 <= i < d.len() && #[trigger] d[i] == Some(sd[k]);
                assert(ga[i] == d[i]);
            } else {
                assert(ga[ga.len() - 1] == Some(sg[k]));
            }
        }
    }
}

/// How a collector step changes a robot's state: one that gathers has
/// gathered its claimed cell and heads home; one heading for a resource
/// that gathers nothing keeps heading for it; no other robot starts to.
proof fn lemma_collector_step_state(
    g: GameView,
    i: int,
    r2: RobotView,
    gathered: Option<(usize, usize)>,
    unloaded: Seq<Tile>,
)
    requires
        game_inv(g),
        0 <= i < g.robots.len(),
        collector_step(g, i, r2, gathered, unloaded),
    ensures
        gathered matches Some(c) ==> claim_of(g.ledger, i) == Some(c) && r2.state == RobotState::ReturningToBase,
        gathered is None && g.robots[i].state == RobotState::GoingToResource ==> r2.state
            == RobotState::GoingToResource && r2.target == g.robots[i].target,
        g.robots[i].state != RobotState::GoingToResource ==> r2.state != RobotState::GoingToResource,
{
    let r = g.robots[i];
    if r.kind != RobotType::Explorer && r.state == RobotState::GoingToResource {
        if let Some(c) = claim_of(g.ledger, i) {
            if (r.x, r.y) != c {
                let moved = choose|moved: bool| #[trigger] move_toward_spec(g.map, r, c, r2, moved);
            }
        }
    } else if r.kind != RobotType::Explorer && r.state == RobotState::ReturningToBase && (r.x, r.y) != g.base {
        let moved = choose|moved: bool| #[trigger] move_toward_spec(g.map, r, g.base, r2, moved);
    }
}

/// The collector phase keeps the invariant.
proof fn lemma_collect_inv(g: GameView, g2: GameView, ga: Seq<Option<(usize, usize)>>, un: Seq<Seq<Tile>>)
    requires
        game_inv(g),
        ga.len() == g.robots.len(),
        un.len() == g.robots.len(),
        g2.robots.len() == g.robots.len(),
        forall|i: int| 0 <= i < g.robots.len() ==> #[trigger] collector_step(g, i, g2.robots[i], ga[i], un[i]),
        g2.base == g.base,
        cleared(g.map, somes(ga), g2.map),
        g2.ledger == without_cells(g.ledger, somes(ga)),
    ensures
        game_inv(g2),
{
    let cs = somes(ga);
    assert forall|y: int| 0 <= y < g2.map.len() implies (#[trigger] g2.map[y])@.len() == g2.map[0]@.len() by {
        assert(g2.map[y]@.len() == g.map[y]@.len());
        assert(g2.map[0]@.len() == g.map[0]@.len());
    }
    assert forall|i: int| 0 <= i < g2.robots.len() implies robot_ok(g2.map, #[trigger] g2.robots[i]) by {
        assert(collector_step(g, i, g2.robots[i], ga[i], un[i]));
        lemma_collector_step_ok(g, i, g2.robots[i], ga[i], un[i]);
        assert(g2.map[g2.robots[i].y as int]@.len() == g.map[g2.robots[i].y as int]@.len());
    }
    lemma_without_cells(g.ledger, cs);
    lemma_somes(ga);
    assert forall|j: int| 0 <= j < g2.ledger.len() implies entry_ok(g2.map, g2.robots, #[trigger] g2.ledger[j]) by {
        let e = g2.ledger[j];
        assert(g.ledger.contains(e));
        let w = choose|w: int| 0 <= w < g.ledger.len() && g.ledger[w] == e;
        assert(entry_ok(g.map, g.robots, g.ledger[w]));
        assert(g2.map[e.y as int]@.len() == g.map[e.y as int]@.len());
        assert(!cs.contains((e.x, e.y)));
        assert(g2.map[e.y as int]@[e.x as int] == g.map[e.y as int]@[e.x as int]);
        if let Some(id) = e.assigned_robot_id {
            assert(collector_step(g, id as int, g2.robots[id as int], ga[id as int], un[id as int]));
            lemma_collector_step_ok(g, id as int, g2.robots[id as int], ga[id as int], un[id as int]);
        }
    }
    assert(g2.map[g.base.1 as int]@.len() == g.map[g.base.1 as int]@.len());
    assert forall|i: int| 0 <= i < g2.robots.len() implies ((#[trigger] g2.robots[i]).state
        == RobotState::GoingToResource <==> is_claimed(g2.ledger, i)) by {
        assert(collector_step(g, i, g2.robots[i], ga[i], un[i]));
        lemma_collector_step_state(g, i, g2.robots[i], ga[i], un[i]);
        if is_claimed(g2.ledger, i) {
            let w2 = choose|w2: int| 0 <= w2 < g2.ledger.len() && (#[trigger] g2.ledger[w2]).assigned_robot_id == Some(i as usize);
            assert(g.ledger.contains(g2.ledger[w2]));
            let w = choose|w: int| 0 <= w < g.ledger.len() && g.ledger[w] == g2.ledger[w2];
            assert(is_claimed(g.ledger, i));
            assert(g.robots[i].state == RobotState::GoingToResource);
            lemma_claim_of(g.ledger, i, w);
            if let Some(c) = ga[i] {
                assert(cs.contains(c));
                assert(!cs.contains((g2.ledger[w2].x, g2.ledger[w2].y)));
            }
        }
        if g.robots[i].state == RobotState::GoingToResource && ga[i] is None {
            assert(is_claimed(g.ledger, i));
            let w = choose|w: int| 0 <= w < g.ledger.len() && (#[trigger] g.ledger[w]).assigned_robot_id == Some(i as usize);
            let c = (g.ledger[w].x, g.ledger[w].y);
            if cs.contains(c) {
                let k0 = choose|k0: int| 0 <= k0 < cs.len() && cs[k0] == c;
                let k = choose|k: int| 0 <= k < ga.len() && #[trigger] ga[k] == Some(cs[k0]);
                assert(collector_step(g, k, g2.robots[k], ga[k], un[k]));
                lemma_collector_step_state(g, k, g2.robots[k], ga[k], un[k]);
                assert(is_claimed(g.ledger, k));
                let wk = choose|wk: int| 0 <= wk < g.ledger.len() && (#[trigger] g.ledger[wk]).assigned_robot_id == Some(k as usize);
                lemma_claim_of(g.ledger, k, wk);
                assert(g.ledger[wk].x == c.0 && g.ledger[wk].y == c.1);
                assert(wk == w);
                assert(k == i);
            }
            assert(g2.ledger.contains(g.ledger[w]));
            let w2 = choose|w2: int| 0 <= w2 < g2.ledger.len() && g2.ledger[w2] == g.ledger[w];
            assert(g2.ledger[w2].assigned_robot_id == Some(i as usize));
        }
    }
    assert forall|j: int| 0 <= j < g2.ledger.len() && (#[trigger] g2.ledger[j]).assigned_robot_id is Some implies g2.robots[(
    g2.ledger[j].assigned_robot_id->Some_0) as int].target == Some((g2.ledger[j].x, g2.ledger[j].y)) by {
        let e = g2.ledger[j];
        let id = (e.assigned_robot_id->Some_0) as int;
        assert(g.ledger.contains(e));
        let w = choose|w: int| 0 <= w < g.ledger.len() && g.ledger[w] == e;
        assert(entry_ok(g.map, g.robots, g.ledger[w]));
        assert(is_claimed(g.ledger, id));
        assert(g.robots[id].state == RobotState::GoingToResource);
        assert(collector_step(g, id, g2.robots[id], ga[id], un[id]));
        lemma_collector_step_state(g, id, g2.robots[id], ga[id], un[id]);
        if let Some(c) = ga[id] {
            lemma_claim_of(g.ledger, id, w);
            assert(cs.contains(c));
            assert(!cs.contains((e.x, e.y)));
        }
    }
}

/// One tick from `g`, robot `i` exploring in direction `dirs[i]`, ends in
/// `g2`: the explorer, assignment, collector and cleanup phases in turn.
pub open spec fn tick(g: GameView, dirs: Seq<usize>, g2: GameView) -> bool {
    exists|g3: GameView| #[trigger] collect_phase(assign_phase(explore_phase(g, dirs)), g3) && g2 == cleanup_phase(g3)
}

/// Once the collector phase has kept the invariant, the cleanup phase
/// finds nothing to drop.
proof fn lemma_cleanup_identity(g: GameView)
    requires
        game_inv(g),
    ensures
        cleanup_phase(g) == g,
{
    let p = |e: DiscoveredResource| in_bounds(g.map, e.x as int, e.y as int) && tile_at(g.map, e.x as int, e.y as int) == e.tile_type;
    assert forall|j: int| 0 <= j < g.ledger.len() implies p(#[trigger] g.ledger[j]) by {
        assert(entry_ok(g.map, g.robots, g.ledger[j]));
    }
    lemma_keep_all(g.ledger, p);
}

/// Relies on rand's `thread_rng` and `Rng::gen_range`: `gen_range(0..n)`
/// yields a value below `n` (it panics on an empty range).
#[verifier::external_body]
fn random_below(n: usize) -> (r: usize)
    requires
        n > 0,
    ensures
        r < n,
{
    rand::thread_rng().gen_range(0..n)
}

impl View for GameState {
    type V = GameView;

    closed spec fn view(&self) -> GameView {
        GameView {
            map: self.map@,
            robots: robot_views(self.robots@),
            resources: self.resources,
            ledger: self.discovered_resources@,
            base: self.base_position,
        }
    }
}

/// How many robots of each kind a new simulation starts with.
pub open spec fn population() -> Seq<(RobotType, usize)> {
    seq![
        (RobotType::Explorer, 20usize),
        (RobotType::Miner, 10usize),
        (RobotType::EnergyCollector, 10usize),
        (RobotType::Scientist, 5usize),
    ]
}

impl GameState {
    pub closed spec fn inv(&self) -> bool {
        game_inv(self@)
    }

    /// Whether some ledger entry names the cell `(x, y)`.
    fn has_discovery_at(&self, x: usize, y: usize) -> (r: bool)
        ensures
            r == ledger_has_cell(self@.ledger, x as int, y as int),
    {
        let mut j: usize = 0;
        while j < self.discovered_resources.len()
            invariant
                j <= self@.ledger.len(),
                self@.ledger == self.discovered_resources@,
                forall|k: int| 0 <= k < j ==> !((#[trigger] self@.ledger[k]).x == x && self@.ledger[k].y == y),
            decreases self@.ledger.len() - j,
        {
            let e = self.discovered_resources[j];
            if e.x == x && e.y == y {
                return true;
            }
            j = j + 1;
        }
        false
    }

    /// The explorer phase: each explorer, in order, tries a step in its
    /// direction, `directions[i]` being the direction of robot `i`, and
    /// reports each resource it lands on that the ledger does not hold.
    fn update_explorers(&mut self, directions: &Vec<usize>)
        requires
            old(self).inv(),
            directions@.len() == old(self)@.robots.len(),
            forall|i: int| 0 <= i < directions@.len() ==> #[trigger] directions@[i] < 4,
        ensures
            final(self)@ == explore_phase(old(self)@, directions@),
            final(self).inv(),
    {
        let n = self.robots.len();
        let mut i: usize = 0;
        while i < n
            invariant
                i <= n,
                n == self@.robots.len(),
                n == old(self)@.robots.len(),
                directions@.len() == n,
                forall|k: int| 0 <= k < directions@.len() ==> #[trigger] directions@[k] < 4,
                self@ == explore_upto(old(self)@, directions@, i as int),
                self.inv(),
            decreases n - i,
        {
            let d = directions[i];
            let x = self.robots[i].x;
            let y = self.robots[i].y;
            let ghost g0 = self@;
            let ghost rs0 = self.robots@;
            proof {
                lemma_explore_step_inv(g0, i as int, d as int);
            }
            if self.robots[i].robot_type == RobotType::Explorer {
                let target: Option<(usize, usize)> = if d == 0 {
                    if y < usize::MAX { Some((x, y + 1)) } else { None }
                } else if d == 1 {
                    if x < usize::MAX { Some((x + 1, y)) } else { None }
                } else if d == 2 {
                    if y > 0 { Some((x, y - 1)) } else { None }
                } else {
                    if x > 0 { Some((x - 1, y)) } else { None }
                };
                if let Some((nx, ny)) = target {
                    if self.robots[i].can_move_to(nx, ny, self.map.as_slice()) {
                        self.robots[i].move_to(nx, ny);
                        let t = self.map[ny][nx];
                        if t.is_resource() && !self.has_discovery_at(nx, ny) {
                            self.robots[i].record_exploration(nx, ny, t);
                            self.discovered_resources.push(
                                DiscoveredResource { x: nx, y: ny, tile_type: t, assigned_robot_id: None },
                            );
                        }
                        proof {
                            assert(self.robots@ == rs0.update(i as int, self.robots@[i as int]));
                            assert(robot_views(self.robots@) =~= robot_views(rs0).update(i as int, self.robots@[i as int]@));
                        }
                    } else {
                        assert(!passable(g0.map, x + dir4(d as int).0, y + dir4(d as int).1));
                    }
                } else {
                    assert(!passable(g0.map, x + dir4(d as int).0, y + dir4(d as int).1));
                }
            }
            assert(self@ == explore_step(g0, i as int, d as int));
            i = i + 1;
        }
    }

    /// Whether some ledger entry is claimed by robot `id`.
    fn is_assigned(&self, id: usize) -> (r: bool)
        ensures
            r == is_claimed(self@.ledger, id as int),
    {
        let mut j: usize = 0;
        while j < self.discovered_resources.len()
            invariant
                j <= self@.ledger.len(),
                self@.ledger == self.discovered_resources@,
                forall|k: int| 0 <= k < j ==> (#[trigger] self@.ledger[k]).assigned_robot_id != Some(id),
            decreases self@.ledger.len() - j,
        {
            if self.discovered_resources[j].assigned_robot_id == Some(id) {
                return true;
            }
            j = j + 1;
        }
        false
    }

    /// The robots available for kind `robot_type`, lowest number first: idle
    /// collectors of that kind that no ledger entry claims.
    fn get_available_robots_by_type(&self, robot_type: RobotType) -> (ids: Vec<usize>)
        ensures
            forall|k: int| 0 <= k < ids@.len() ==> available(self@, #[trigger] ids@[k] as int, robot_type),
            forall|a: int, b: int| 0 <= a < b < ids@.len() ==> #[trigger] ids@[a] < #[trigger] ids@[b],
            forall|i: int| #[trigger] available(self@, i, robot_type) ==> exists|k: int| 0 <= k < ids@.len() && ids@[k] == i,
    {
        let mut ids: Vec<usize> = Vec::new();
        let mut i: usize = 0;
        while i < self.robots.len()
            invariant
                i <= self@.robots.len(),
                self@.robots == robot_views(self.robots@),
                forall|k: int| 0 <= k < ids@.len() ==> available(self@, #[trigger] ids@[k] as int, robot_type) && ids@[k] < i,
                forall|a: int, b: int| 0 <= a < b < ids@.len() ==> #[trigger] ids@[a] < #[trigger] ids@[b],
                forall|c: int| 0 <= c < i && #[trigger] available(self@, c, robot_type) ==> exists|k: int| 0 <= k < ids@.len() && ids@[k] == c,
            decreases self@.robots.len() - i,
        {
            let r = &self.robots[i];
            assert(self@.robots[i as int] == r@);
            let ghost old_ids = ids@;
            if robot_type != RobotType::Explorer && r.robot_type == robot_type && r.is_idle() && !self.is_assigned(i) {
                ids.push(i);
                assert(ids@[ids@.len() - 1] == i);
            }
            proof {
                assert forall|c: int| 0 <= c < i + 1 && #[trigger] available(self@, c, robot_type) implies exists|k: int|
                    0 <= k < ids@.len() && ids@[k] == c by {
                    if c < i {
                        let k = choose|k: int| 0 <= k < old_ids.len() && old_ids[k] == c;
                        assert(ids@[k] == c);
                    } else {
                        assert(ids@[ids@.len() - 1] == c);
                    }
                }
            }
            i = i + 1;
        }
        ids
    }

    /// The assignment phase: each unclaimed ledger entry, in order, is
    /// claimed by the lowest-numbered robot available for its kind, which
    /// heads for it.
    fn assign_resources_to_collectors(&mut self)
        requires
            old(self).inv(),
        ensures
            final(self)@ == assign_phase(old(self)@),
            final(self).inv(),
    {
        let m = self.discovered_resources.len();
        let mut j: usize = 0;
        while j < m
            invariant
                j <= m,
                m == old(self)@.ledger.len(),
                self@ == assign_upto(old(self)@, j as int),
                self.inv(),
            decreases m - j,
        {
            proof {
                lemma_assign_len(old(self)@, j as int);
                lemma_assign_step_inv(self@, j as int);
            }
            assert(self@.ledger == self.discovered_resources@);
            let ghost g0 = self@;
            let ghost rs0 = self.robots@;
            let e = self.discovered_resources[j];
            if e.assigned_robot_id.is_none() {
                let kind = match e.tile_type {
                    Tile::Mineral => RobotType::Miner,
                    Tile::Energy => RobotType::EnergyCollector,
                    _ => RobotType::Scientist,
                };
                let ids = self.get_available_robots_by_type(kind);
                if ids.len() > 0 {
                    let i = ids[0];
                    proof {
                        assert forall|c: int| 0 <= c < i implies !#[trigger] available(g0, c, kind) by {
                            if available(g0, c, kind) {
                                let k = choose|k: int| 0 <= k < ids@.len() && ids@[k] == c;
                                if k > 0 {
                                    assert(ids@[0] < ids@[k]);
                                }
                            }
                        }
                        assert(lowest_available(g0, kind, i as int));
                        let c = choose|c: int| lowest_available(g0, kind, c);
                        assert(c == i) by {
                            if c < i {
                                assert(!available(g0, c, kind));
                            } else if c > i {
                                assert(!available(g0, i as int, kind));
                            }
                        }
                    }
                    self.discovered_resources.set(j, DiscoveredResource { assigned_robot_id: Some(i), ..e });
                    self.robots[i].set_target(e.x, e.y);
                    proof {
                        assert(self.robots@ == rs0.update(i as int, self.robots@[i as int]));
                        assert(robot_views(self.robots@) =~= robot_views(rs0).update(i as int, self.robots@[i as int]@));
                    }
                } else {
                    assert forall|c: int| !#[trigger] available(g0, c, kind) by {
                        if available(g0, c, kind) {
                            let k = choose|k: int| 0 <= k < ids@.len() && ids@[k] == c;
                        }
                    }
                }
            }
            assert(self@ == assign_step(g0, j as int));
            j = j + 1;
        }
        proof {
            lemma_assign_len(old(self)@, j as int);
        }
    }

    /// The cell of the ledger entry that robot `id` has claimed, if any.
    fn claimed_cell(&self, id: usize) -> (r: Option<(usize, usize)>)
        requires
            claims_unique(self@.ledger),
        ensures
            r == claim_of(self@.ledger, id as int),
    {
        let mut j: usize = 0;
        while j < self.discovered_resources.len()
            invariant
                j <= self@.ledger.len(),
                self@.ledger == self.discovered_resources@,
                claims_unique(self@.ledger),
                forall|k: int| 0 <= k < j ==> (#[trigger] self@.ledger[k]).assigned_robot_id != Some(id),
            decreases self@.ledger.len() - j,
        {
            let e = self.discovered_resources[j];
            if e.assigned_robot_id == Some(id) {
                proof {
                    let l = self@.ledger;
                    let c = choose|c: int| 0 <= c < l.len() && (#[trigger] l[c]).assigned_robot_id == Some(id);
                    if c != j {
                        assert(l[j as int].assigned_robot_id != l[c].assigned_robot_id);
                    }
                }
                return Some((e.x, e.y));
            }
            j = j + 1;
        }
        None
    }

    /// Drops from the ledger every entry on the cell `(x, y)`.
    fn cleanup_resource_at(&mut self, x: usize, y: usize)
        ensures
            final(self)@ == (GameView { ledger: without_cell(old(self)@.ledger, x, y), ..old(self)@ }),
    {
        let ghost p = |e: DiscoveredResource| !(e.x == x && e.y == y);
        let mut kept: Vec<DiscoveredResource> = Vec::new();
        let mut j: usize = 0;
        while j < self.discovered_resources.len()
            invariant
                j <= self@.ledger.len(),
                self@ == old(self)@,
                self@.ledger == self.discovered_resources@,
                p == (|e: DiscoveredResource| !(e.x == x && e.y == y)),
                kept@ == keep_if(self@.ledger.take(j as int), p),
            decreases self@.ledger.len() - j,
        {
            let e = self.discovered_resources[j];
            proof {
                assert(self@.ledger.take(j + 1).drop_last() == self@.ledger.take(j as int));
            }
            if !(e.x == x && e.y == y) {
                kept.push(e);
            }
            j = j + 1;
        }
        proof {
            assert(self@.ledger.take(j as int) == self@.ledger);
        }
        self.discovered_resources = kept;
    }

    /// The cleanup phase: drops from the ledger every entry whose resource
    /// no longer lies on its cell.
    fn cleanup_collected_resources(&mut self)
        ensures
            final(self)@ == cleanup_phase(old(self)@),
    {
        let ghost p = |e: DiscoveredResource|
            in_bounds(self@.map, e.x as int, e.y as int) && tile_at(self@.map, e.x as int, e.y as int) == e.tile_type;
        let mut kept: Vec<DiscoveredResource> = Vec::new();
        let mut j: usize = 0;
        while j < self.discovered_resources.len()
            invariant
                j <= self@.ledger.len(),
                self@ == old(self)@,
                self@.ledger == self.discovered_resources@,
                self@.map == self.map@,
                p == (|e: DiscoveredResource|
                    in_bounds(self@.map, e.x as int, e.y as int) && tile_at(self@.map, e.x as int, e.y as int)
                        == e.tile_type),
                kept@ == keep_if(self@.ledger.take(j as int), p),
            decreases self@.ledger.len() - j,
        {
            let e = self.discovered_resources[j];
            proof {
                assert(self@.ledger.take(j + 1).drop_last() == self@.ledger.take(j as int));
            }
            let here = if e.y < self.map.len() && e.x < self.map[e.y].len() {
                self.map[e.y][e.x] == e.tile_type
            } else {
                false
            };
            assert(here == p(e));
            if here {
                kept.push(e);
            }
            j = j + 1;
        }
        proof {
            assert(self@.ledger.take(j as int) == self@.ledger);
        }
        self.discovered_resources = kept;
    }

    /// The collector phase: each collector, in order, acts on its state.
    /// One heading for a resource gathers it when standing on it, and turns
    /// home; else it steps toward it. One heading home unloads into the
    /// base's stock when standing on the base cell; else it steps toward it.
    /// Gathered cells are then emptied and leave the ledger.
    fn update_collectors(&mut self)
        requires
            old(self).inv(),
        ensures
            collect_phase(old(self)@, final(self)@),
            final(self).inv(),
    {
        let n = self.robots.len();
        let base = self.base_position;
        let mut resources_to_remove: Vec<(usize, usize)> = Vec::new();
        let ghost mut ga: Seq<Option<(usize, usize)>> = seq![];
        let ghost mut un: Seq<Seq<Tile>> = seq![];
        let ghost g = old(self)@;
        let mut i: usize = 0;
        while i < n
            invariant
                i <= n,
                g == old(self)@,
                game_inv(g),
                n == g.robots.len(),
                self@.map == g.map,
                self.map@ == g.map,
                self@.ledger == g.ledger,
                self.discovered_resources@ == g.ledger,
                self@.base == g.base,
                base == g.base,
                self@.robots == robot_views(self.robots@),
                self@.robots.len() == n,
                forall|k: int| i <= k < n ==> #[trigger] self@.robots[k] == g.robots[k],
                ga.len() == i,
                un.len() == i,
                forall|k: int| 0 <= k < i ==> #[trigger] collector_step(g, k, self@.robots[k], ga[k], un[k]),
                self@.resources == counts_plus_all(g.resources, flat(un)),
                resources_to_remove@ == somes(ga),
                forall|c: int|
                    0 <= c < resources_to_remove@.len() ==> in_bounds(
                        g.map,
                        (#[trigger] resources_to_remove@[c]).0 as int,
                        resources_to_remove@[c].1 as int,
                    ),
            decreases n - i,
        {
            let ghost rs0 = self.robots@;
            let ghost res0 = self.resources;
            let ghost mut gi: Option<(usize, usize)> = None;
            let ghost mut ui: Seq<Tile> = seq![];
            assert(self@.robots[i as int] == g.robots[i as int]);
            assert(robot_views(self.robots@)[i as int] == self.robots@[i as int]@);
            assert(robot_ok(g.map, g.robots[i as int]));
            let kind = self.robots[i].robot_type;
            let state = self.robots[i].state;
            if kind != RobotType::Explorer {
                match state {
                    RobotState::Idle => {},
                    RobotState::GoingToResource => {
                        if let Some((tx, ty)) = self.claimed_cell(i) {
                            if self.robots[i].x == tx && self.robots[i].y == ty {
                                let tile = self.map[ty][tx];
                                if self.robots[i].can_collect(tile) {
                                    self.robots[i].collect(tile);
                                    let ghost rtr0 = resources_to_remove@;
                                    resources_to_remove.push((tx, ty));
                                    assert(forall|c: int| 0 <= c < rtr0.len() ==> resources_to_remove@[c] == rtr0[c]);
                                    self.robots[i].set_returning_to_base(base.0, base.1);
                                    proof {
                                        gi = Some((tx, ty));
                                    }
                                }
                            } else {
                                let moved = self.robots[i].move_toward(tx, ty, self.map.as_slice());
                                assert(move_toward_spec(g.map, g.robots[i as int], (tx, ty), self.robots@[i as int]@, moved));
                            }
                        }
                    },
                    RobotState::ReturningToBase => {
                        if self.robots[i].x == base.0 && self.robots[i].y == base.1 {
                            let items = self.robots[i].unload_inventory();
                            let ghost unloaded_robots = self.robots@;
                            let mut t: usize = 0;
                            while t < items.len()
                                invariant
                                    self.robots@ == unloaded_robots,
                                    self.map@ == g.map,
                                    self.discovered_resources@ == g.ledger,
                                    self.base_position == g.base,
                                    t <= items@.len(),
                                    items@ == g.robots[i as int].inventory,
                                    robot_ok(g.map, g.robots[i as int]),
                                    self.resources == counts_plus_all(res0, items@.take(t as int)),
                                decreases items@.len() - t,
                            {
                                proof {
                                    assert(items@.take(t + 1).drop_last() == items@.take(t as int));
                                }
                                self.resources.add(items[t]);
                                t = t + 1;
                            }
                            proof {
                                assert(items@.take(t as int) == items@);
                                ui = items@;
                            }
                        } else {
                            let moved = self.robots[i].move_toward(base.0, base.1, self.map.as_slice());
                            assert(move_toward_spec(g.map, g.robots[i as int], base, self.robots@[i as int]@, moved));
                        }
                    },
                }
            }
            proof {
                assert(self.robots@ =~= rs0.update(i as int, self.robots@[i as int]));
                assert(robot_views(self.robots@) =~= robot_views(rs0).update(i as int, self.robots@[i as int]@));
                assert(collector_step(g, i as int, self@.robots[i as int], gi, ui));
                assert(ga.push(gi).drop_last() == ga);
                assert(un.push(ui).drop_last() == un);
                lemma_counts_append(g.resources, flat(un), ui);
                if ui.len() == 0 {
                    assert(flat(un) + ui == flat(un));
                }
                ga = ga.push(gi);
                un = un.push(ui);
                assert forall|k: int| 0 <= k < i + 1 implies #[trigger] collector_step(g, k, self@.robots[k], ga[k], un[k]) by {
                    if k < i {
                        assert(self@.robots[k] == robot_views(rs0)[k]);
                    }
                }
            }
            i = i + 1;
        }
        let ghost before_clear = self@;
        let mut k: usize = 0;
        while k < resources_to_remove.len()
            invariant
                k <= resources_to_remove@.len(),
                resources_to_remove@ == somes(ga),
                game_inv(g),
                self@ == (GameView { map: self.map@, ..before_clear }),
                cleared(g.map, resources_to_remove@.take(k as int), self.map@),
                forall|c: int| 0 <= c < resources_to_remove@.len() ==> in_bounds(g.map, (#[trigger] resources_to_remove@[c]).0 as int, resources_to_remove@[c].1 as int),
            decreases resources_to_remove@.len() - k,
        {
            let (x, y) = resources_to_remove[k];
            let ghost m0 = self.map@;
            Self::set_tile(&mut self.map, x, y, Tile::Empty);
            proof {
                let cs = resources_to_remove@.take(k + 1);
                assert(cs.drop_last() == resources_to_remove@.take(k as int));
                let prev = resources_to_remove@.take(k as int);
                assert(cs[k as int] == (x, y));
                assert forall|cx: int, cy: int| 0 <= cy < g.map.len() && 0 <= cx < g.map[cy]@.len() implies #[trigger] self.map@[cy]@[cx] == if cs.contains((cx as usize, cy as usize)) {
                    Tile::Empty
                } else {
                    g.map[cy]@[cx]
                } by {
                    let pt = (cx as usize, cy as usize);
                    if pt == (x, y) {
                        assert(cs.contains(pt));
                    } else {
                        if cy != y {
                            assert(self.map@[cy] == m0[cy]);
                        }
                        assert(self.map@[cy]@[cx] == m0[cy]@[cx]);
                        if cs.contains(pt) {
                            let w = choose|w: int| 0 <= w < cs.len() && cs[w] == pt;
                            assert(w != k);
                            assert(prev[w] == pt);
                            assert(prev.contains(pt));
                        }
                        if prev.contains(pt) {
                            let w = choose|w: int| 0 <= w < prev.len() && prev[w] == pt;
                            assert(cs[w] == pt);
                        }
                    }
                }
            }
            k = k + 1;
        }
        proof {
            assert(resources_to_remove@.take(k as int) == resources_to_remove@);
        }
        let ghost before_ledger = self@;
        let mut k: usize = 0;
        while k < resources_to_remove.len()
            invariant
                k <= resources_to_remove@.len(),
                self@ == (GameView { ledger: self@.ledger, ..before_ledger }),
                self@.ledger == without_cells(g.ledger, resources_to_remove@.take(k as int)),
            decreases resources_to_remove@.len() - k,
        {
            let (x, y) = resources_to_remove[k];
            self.cleanup_resource_at(x, y);
            proof {
                assert(resources_to_remove@.take(k + 1).drop_last() == resources_to_remove@.take(k as int));
            }
            k = k + 1;
        }
        proof {
            assert(resources_to_remove@.take(k as int) == resources_to_remove@);
            assert(collect_phase(g, self@));
            lemma_collect_inv(g, self@, ga, un);
        }
    }

    /// Writes `t` on the cell `(x, y)` of `map`.
    fn set_tile(map: &mut Vec<Vec<Tile>>, x: usize, y: usize, t: Tile)
        requires
            y < old(map)@.len(),
            x < old(map)@[y as int]@.len(),
        ensures
            final(map)@.len() == old(map)@.len(),
            forall|r: int| 0 <= r < old(map)@.len() && r != y ==> final(map)@[r] == old(map)@[r],
            final(map)@[y as int]@ == old(map)@[y as int]@.update(x as int, t),
    {
        let mut row: Vec<Tile> = Vec::new();
        std::mem::swap(&mut row, &mut map[y]);
        row[x] = t;
        std::mem::swap(&mut row, &mut map[y]);
    }

    /// Advances the simulation by one tick, robot `i` exploring in
    /// direction `directions[i]` (0 down, 1 right, 2 up, 3 left; only
    /// explorers use theirs).
    pub fn update_with_directions(&mut self, directions: &Vec<usize>)
        requires
            old(self).inv(),
            directions@.len() == old(self)@.robots.len(),
            forall|i: int| 0 <= i < directions@.len() ==> #[trigger] directions@[i] < 4,
        ensures
            final(self).inv(),
            tick(old(self)@, directions@, final(self)@),
            claims_unique(final(self)@.ledger),
    {
        self.update_explorers(directions);
        self.assign_resources_to_collectors();
        self.update_collectors();
        let ghost g3 = self@;
        self.cleanup_collected_resources();
        proof {
            lemma_cleanup_identity(g3);
            assert(collect_phase(assign_phase(explore_phase(old(self)@, directions@)), g3));
        }
    }

    /// Advances the simulation by one tick, each explorer taking a direction
    /// drawn at random.
    pub fn update(&mut self)
        requires
            old(self).inv(),
        ensures
            final(self).inv(),
            exists|dirs: Seq<usize>|
                #[trigger] tick(old(self)@, dirs, final(self)@) && dirs.len() == old(self)@.robots.len() && forall|i: int|
                    0 <= i < dirs.len() ==> #[trigger] dirs[i] < 4,
            claims_unique(final(self)@.ledger),
    {
        let n = self.robots.len();
        let mut directions: Vec<usize> = Vec::new();
        let mut i: usize = 0;
        while i < n
            invariant
                i <= n,
                directions@.len() == i,
                forall|k: int| 0 <= k < i ==> #[trigger] directions@[k] < 4,
            decreases n - i,
        {
            directions.push(random_below(4));
            i = i + 1;
        }
        self.update_with_directions(&directions);
        assert(tick(old(self)@, directions@, self@));
    }

    /// A simulation on `map` with the robots `robots`, no discovery yet, no
    /// stock, and its home on `base_position`.
    pub fn from_parts(map: Vec<Vec<Tile>>, robots: Vec<Robot>, base_position: (usize, usize)) -> (g: GameState)
        requires
            is_rect(map@),
            in_bounds(map@, base_position.0 as int, base_position.1 as int),
            forall|i: int| 0 <= i < robots@.len() ==> robot_ok(map@, #[trigger] robots@[i]@),
            forall|i: int| 0 <= i < robots@.len() ==> (#[trigger] robots@[i]).state != RobotState::GoingToResource,
        ensures
            g.inv(),
            g@ == (GameView {
                map: map@,
                robots: robot_views(robots@),
                resources: ResourceCounts { mineral: 0, energy: 0, science: 0 },
                ledger: seq![],
                base: base_position,
            }),
    {
        let g = GameState {
            map,
            robots,
            resources: ResourceCounts::new(),
            discovered_resources: Vec::new(),
            base_position,
        };
        assert(g.map@.len() == g.map.len());
        assert(g.map@[0]@.len() == g.map@[0].len());
        assert(g.robots@.len() == g.robots.len());
        assert forall|i: int| 0 <= i < g@.robots.len() implies robot_ok(g@.map, #[trigger] g@.robots[i]) && g@.robots[i].state
            != RobotState::GoingToResource by {
            assert(g@.robots[i] == g.robots@[i]@);
        }
        g
    }

    /// The map as it stands.
    pub fn get_map(&self) -> (m: &[Vec<Tile>])
        ensures
            m@ == self@.map,
    {
        self.map.as_slice()
    }

    /// The robots, in order.
    pub fn get_robots(&self) -> (rs: &[Robot])
        ensures
            rs@.len() == self@.robots.len(),
            forall|i: int| 0 <= i < rs@.len() ==> (#[trigger] rs@[i])@ == self@.robots[i],
    {
        self.robots.as_slice()
    }

    /// The resources stocked at the base.
    pub fn get_base_resources(&self) -> (r: &ResourceCounts)
        ensures
            *r == self@.resources,
    {
        &self.resources
    }

    /// The ledger of discovered resources not gathered yet.
    pub fn get_discoveries(&self) -> (l: &[DiscoveredResource])
        ensures
            l@ == self@.ledger,
    {
        self.discovered_resources.as_slice()
    }

    /// The base cell the collectors bring their load to.
    pub fn get_base_position(&self) -> (p: (usize, usize))
        ensures
            p == self@.base,
    {
        self.base_position
    }

    /// A simulation on the map generated from `width`, `height`, `seed` and
    /// the noise bands `bands`, with its robots spread over the base cells
    /// in turn and its home on the first base cell; an error when the map
    /// has no base cell.
    pub fn new(width: usize, height: usize, seed: u32, bands: &Vec<Vec<NoiseBand>>) -> (r: Result<GameState, SetupError>)
        requires
            bands@.len() == height,
            forall|y: int| 0 <= y < height ==> (#[trigger] bands@[y])@.len() == width,
            width * height <= usize::MAX,
        ensures
            r matches Ok(g) ==> {
                &&& g.inv()
                &&& is_generated(g@.map, width as int, height as int, seed, bands@)
                &&& base_cells(g@.map).len() > 0
                &&& g@.base == base_cells(g@.map)[0]
                &&& g@.ledger.len() == 0
                &&& g@.resources == (ResourceCounts { mineral: 0, energy: 0, science: 0 })
                &&& g@.robots.len() == spawn_kinds(population()).len()
                &&& forall|i: int| 0 <= i < g@.robots.len() ==> #[trigger] g@.robots[i] == fresh_robot(
                    base_cells(g@.map)[i % (base_cells(g@.map).len() as int)].0,
                    base_cells(g@.map)[i % (base_cells(g@.map).len() as int)].1,
                    spawn_kinds(population())[i],
                )
            },
            r is Err ==> exists|m: Seq<Vec<Tile>>|
                is_generated(m, width as int, height as int, seed, bands@) && base_cells(m).len() == 0,
    {
        let map = generate_map(width, height, seed, bands);
        let found = find_all_base_positions(map.as_slice());
        match found {
            Err(e) => Err(e),
            Ok(positions) => {
                let counts = vec![
                    (RobotType::Explorer, 20),
                    (RobotType::Miner, 10),
                    (RobotType::EnergyCollector, 10),
                    (RobotType::Scientist, 5),
                ];
                assert(counts@ == population());
                let robots = spawn_robots_in_base(positions.as_slice(), counts.as_slice());
                let base_position = positions[0];
                assert(robots@.len() == robots.len());
                proof {
                    lemma_base_cells(map@);
                }
                let g = GameState {
                    map,
                    robots,
                    resources: ResourceCounts::new(),
                    discovered_resources: Vec::new(),
                    base_position,
                };
                Ok(g)
            },
        }
    }
}

} // verus!

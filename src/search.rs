//! Shortest routes on the grid, by breadth-first search, and the proof that
//! the search finds one whenever a route exists.

use vstd::prelude::*;
use crate::tile::Tile;
use crate::grid::{
    in_bounds, passable, is_rect, width, adjacent4, is_step, step_from, is_route,
    is_route_to, cells, lemma_cells_bound,
};
use crate::robot::Robot;

verus! {

/// The neighbour of `(x, y)` in direction `d` (down, right, up, left), when it
/// lies in a `w` by `h` grid.
pub open spec fn neighbor_spec(x: usize, y: usize, d: int, w: int, h: int) -> Option<(usize, usize)> {
    if d == 0 {
        if y + 1 < h { Some((x, (y + 1) as usize)) } else { None }
    } else if d == 1 {
        if x + 1 < w { Some(((x + 1) as usize, y)) } else { None }
    } else if d == 2 {
        if y > 0 { Some((x, (y - 1) as usize)) } else { None }
    } else {
        if x > 0 { Some(((x - 1) as usize, y)) } else { None }
    }
}

/// `p` is a route from `from` to `to` and no route between them is shorter.
pub open spec fn is_shortest_route(
    map: Seq<Vec<Tile>>,
    from: (usize, usize),
    to: (usize, usize),
    p: Seq<(usize, usize)>,
) -> bool {
    &&& is_route_to(map, from, to, p)
    &&& forall|q: Seq<(usize, usize)>| #[trigger] is_route_to(map, from, to, q) ==> p.len() <= q.len()
}

/// Some route leads from `from` to `to`.
pub open spec fn reachable(map: Seq<Vec<Tile>>, from: (usize, usize), to: (usize, usize)) -> bool {
    exists|q: Seq<(usize, usize)>| #[trigger] is_route_to(map, from, to, q)
}

/// What a breadth-first search from `from` to `to` yields: nothing when the
/// two cells are the same or no route joins them, else a shortest route.
pub open spec fn search_result(
    map: Seq<Vec<Tile>>,
    from: (usize, usize),
    to: (usize, usize),
    p: Seq<(usize, usize)>,
) -> bool {
    if from == to || !reachable(map, from, to) {
        p.len() == 0
    } else {
        is_shortest_route(map, from, to, p)
    }
}

/// What the search knows of a cell: its distance from the start and the
/// cell it was first reached from.
type Visit = Option<(usize, usize, usize)>;

spec fn seen_at(info: Seq<Vec<Visit>>, c: (usize, usize)) -> Visit {
    info[c.1 as int]@[c.0 as int]
}

spec fn dist_at(info: Seq<Vec<Visit>>, c: (usize, usize)) -> int {
    (seen_at(info, c)->Some_0).0 as int
}

spec fn in_box(c: (usize, usize), w: int, h: int) -> bool {
    c.0 < w && c.1 < h
}

/// The facts that the search keeps about its queue `q` and its cell records
/// `info`; the first `head` cells of `q` have been expanded.
#[verifier::opaque]
spec fn queue_facts(
    map: Seq<Vec<Tile>>,
    info: Seq<Vec<Visit>>,
    q: Seq<(usize, usize)>,
    qpos: Map<(usize, usize), int>,
    head: int,
    w: int,
    h: int,
) -> bool {
    &&& is_rect(map) && h == map.len() && w == width(map)
    &&& info.len() == h
    &&& forall|y: int| 0 <= y < h ==> (#[trigger] info[y])@.len() == w
    &&& 0 <= head <= q.len()
    &&& forall|c: (usize, usize)|
        in_box(c, w, h) && (#[trigger] seen_at(info, c)) is Some ==> qpos.contains_key(c) && 0 <= qpos[c]
            < q.len() && q[qpos[c]] == c
    &&& forall|i: int|
        0 <= i < q.len() ==> in_box(#[trigger] q[i], w, h) && seen_at(info, q[i]) is Some
    &&& forall|i: int, j: int|
        0 <= i <= j < q.len() ==> dist_at(info, #[trigger] q[i]) <= dist_at(info, #[trigger] q[j])
    &&& forall|i: int, nb: (usize, usize)|
        0 <= i < head && #[trigger] is_step(map, #[trigger] q[i], nb) ==> seen_at(info, nb) is Some
            && dist_at(info, nb) <= dist_at(info, q[i]) + 1
}

/// Along a route from `s`, each cell has been reached no later than the route
/// does, unless the cell under expansion is already as far.
proof fn lemma_route_prefix(
    map: Seq<Vec<Tile>>,
    info: Seq<Vec<Visit>>,
    q: Seq<(usize, usize)>,
    qpos: Map<(usize, usize), int>,
    head: int,
    w: int,
    h: int,
    s: (usize, usize),
    p: Seq<(usize, usize)>,
    k: int,
)
    requires
        queue_facts(map, info, q, qpos, head, w, h),
        in_box(s, w, h),
        seen_at(info, s) is Some,
        dist_at(info, s) == 0,
        is_route(map, s, p),
        0 <= k <= p.len(),
    ensures
        ({
            let c = step_from(s, p, k);
            (in_box(c, w, h) && seen_at(info, c) is Some && dist_at(info, c) <= k) || (head < q.len()
                && dist_at(info, q[head]) <= k)
        }),
    decreases k,
{
    reveal(queue_facts);
    if k > 0 {
        lemma_route_prefix(map, info, q, qpos, head, w, h, s, p, k - 1);
        let prev = step_from(s, p, k - 1);
        let c = step_from(s, p, k);
        assert(c == p[k - 1]);
        assert(is_step(map, prev, c));
        assert(map[c.1 as int]@.len() == w);
        if in_box(prev, w, h) && seen_at(info, prev) is Some && dist_at(info, prev) <= k - 1 {
            let i = qpos[prev];
            assert(q[i] == prev);
            if i < head {
                assert(is_step(map, q[i], c));
            } else {
                assert(dist_at(info, q[head]) <= dist_at(info, q[i]));
            }
        }
    }
}

/// A route from `s` to `t` is at least as long as the distance the search
/// recorded for `t`, once `t` is next to expand or everything is expanded.
proof fn lemma_route_bound(
    map: Seq<Vec<Tile>>,
    info: Seq<Vec<Visit>>,
    q: Seq<(usize, usize)>,
    qpos: Map<(usize, usize), int>,
    seen: Set<(int, int)>,
    head: int,
    w: int,
    h: int,
    s: (usize, usize),
    t: (usize, usize),
    p: Seq<(usize, usize)>,
)
    requires
        search_inv(map, info, q, qpos, seen, head, s, w, h),
        head == q.len() || q[head] == t,
        is_route_to(map, s, t, p),
    ensures
        in_box(t, w, h),
        seen_at(info, t) is Some,
        dist_at(info, t) <= p.len(),
{
    reveal(search_inv);
    reveal(queue_facts);
    lemma_route_prefix(map, info, q, qpos, head, w, h, s, p, p.len() as int);
    assert(step_from(s, p, p.len() as int) == t);
    assert(is_step(map, step_from(s, p, p.len() - 1), p[p.len() - 1]));
    assert(map[t.1 as int]@.len() == w);
}

/// Every reached cell other than `s` names, as the cell it was reached from,
/// a reached cell one closer to `s` from which one move leads to it.
spec fn parent_facts(map: Seq<Vec<Tile>>, info: Seq<Vec<Visit>>, s: (usize, usize), w: int, h: int) -> bool {
    forall|c: (usize, usize)|
        in_box(c, w, h) && (#[trigger] seen_at(info, c)) is Some && c != s ==> ({
            let v = seen_at(info, c)->Some_0;
            &&& v.0 > 0
            &&& in_box((v.1, v.2), w, h)
            &&& seen_at(info, (v.1, v.2)) is Some
            &&& dist_at(info, (v.1, v.2)) + 1 == v.0
            &&& is_step(map, (v.1, v.2), c)
        })
}

/// Everything the search keeps true between two expansions.
#[verifier::opaque]
spec fn search_inv(
    map: Seq<Vec<Tile>>,
    info: Seq<Vec<Visit>>,
    q: Seq<(usize, usize)>,
    qpos: Map<(usize, usize), int>,
    seen: Set<(int, int)>,
    head: int,
    s: (usize, usize),
    w: int,
    h: int,
) -> bool {
    &&& queue_facts(map, info, q, qpos, head, w, h)
    &&& in_box(s, w, h)
    &&& seen_at(info, s) is Some
    &&& dist_at(info, s) == 0
    &&& q.len() == seen.len()
    &&& seen.subset_of(cells(w, h))
    &&& forall|c: (usize, usize)|
        in_box(c, w, h) ==> ((#[trigger] seen_at(info, c)) is Some <==> seen.contains(
            (c.0 as int, c.1 as int),
        ))
    &&& forall|i: int| 0 <= i < q.len() ==> dist_at(info, #[trigger] q[i]) <= i
    &&& parent_facts(map, info, s, w, h)
}

/// The plain facts that the search's code reads off its invariant.
proof fn lemma_inv_basic(
    map: Seq<Vec<Tile>>,
    info: Seq<Vec<Visit>>,
    q: Seq<(usize, usize)>,
    qpos: Map<(usize, usize), int>,
    seen: Set<(int, int)>,
    head: int,
    s: (usize, usize),
    w: int,
    h: int,
)
    requires
        search_inv(map, info, q, qpos, seen, head, s, w, h),
    ensures
        is_rect(map),
        h == map.len(),
        w == width(map),
        info.len() == h,
        forall|y: int| 0 <= y < h ==> (#[trigger] info[y])@.len() == w,
        forall|y: int| 0 <= y < h ==> (#[trigger] map[y])@.len() == w,
        forall|i: int|
            0 <= i < q.len() ==> in_box(#[trigger] q[i], w, h) && dist_at(info, q[i]) <= i && seen_at(
                info,
                q[i],
            ) is Some,
        q.len() <= w * h,
        0 <= head <= q.len(),
        in_box(s, w, h),
        seen_at(info, s) is Some,
        dist_at(info, s) == 0,
        parent_facts(map, info, s, w, h),
        forall|c: (usize, usize)|
            in_box(c, w, h) && (#[trigger] seen_at(info, c)) is Some ==> qpos.contains_key(c) && 0 <= qpos[c]
                < q.len() && q[qpos[c]] == c,
{
    reveal(search_inv);
    reveal(queue_facts);
    lemma_cells_bound(seen, w, h);
}

/// The sizes that the search's code reads off its invariant.
proof fn lemma_inv_dims(
    map: Seq<Vec<Tile>>,
    info: Seq<Vec<Visit>>,
    q: Seq<(usize, usize)>,
    qpos: Map<(usize, usize), int>,
    seen: Set<(int, int)>,
    head: int,
    s: (usize, usize),
    w: int,
    h: int,
)
    requires
        search_inv(map, info, q, qpos, seen, head, s, w, h),
    ensures
        info.len() == h,
        forall|y: int| 0 <= y < h ==> (#[trigger] info[y])@.len() == w,
        forall|y: int| 0 <= y < h ==> (#[trigger] map[y])@.len() == w,
{
    reveal(search_inv);
    reveal(queue_facts);
}

/// Every reached cell is at most one further than the cell under expansion.
proof fn lemma_seen_close(
    map: Seq<Vec<Tile>>,
    info: Seq<Vec<Visit>>,
    q: Seq<(usize, usize)>,
    qpos: Map<(usize, usize), int>,
    seen: Set<(int, int)>,
    head: int,
    s: (usize, usize),
    w: int,
    h: int,
    du: int,
)
    requires
        search_inv(map, info, q, qpos, seen, head, s, w, h),
        q.len() > 0,
        dist_at(info, q[q.len() - 1]) <= du + 1,
    ensures
        forall|c: (usize, usize)|
            in_box(c, w, h) && (#[trigger] seen_at(info, c)) is Some ==> dist_at(info, c) <= du + 1,
{
    reveal(search_inv);
    reveal(queue_facts);
    assert forall|c: (usize, usize)| in_box(c, w, h) && (#[trigger] seen_at(info, c)) is Some implies dist_at(info, c)
        <= du + 1 by {
        let j = qpos[c];
        assert(dist_at(info, q[j]) <= dist_at(info, q[q.len() - 1]));
    }
}

/// Reaching the unseen cell `nb` from `u`, the cell under expansion, keeps
/// the search's facts and changes no other cell's record.
#[verifier::rlimit(100)]
proof fn lemma_visit(
    map: Seq<Vec<Tile>>,
    info0: Seq<Vec<Visit>>,
    info1: Seq<Vec<Visit>>,
    q: Seq<(usize, usize)>,
    qpos: Map<(usize, usize), int>,
    seen: Set<(int, int)>,
    head: int,
    s: (usize, usize),
    w: int,
    h: int,
    u: (usize, usize),
    du: int,
    nb: (usize, usize),
)
    requires
        search_inv(map, info0, q, qpos, seen, head, s, w, h),
        head < q.len(),
        q[head] == u,
        dist_at(info0, u) == du,
        dist_at(info0, q[q.len() - 1]) <= du + 1,
        in_box(nb, w, h),
        seen_at(info0, nb) is None,
        is_step(map, u, nb),
        info1.len() == info0.len(),
        forall|y: int| 0 <= y < info0.len() && y != nb.1 ==> info1[y] == info0[y],
        info1[nb.1 as int]@ == info0[nb.1 as int]@.update(nb.0 as int, Some(((du + 1) as usize, u.0, u.1))),
        du + 1 <= usize::MAX,
    ensures
        search_inv(
            map,
            info1,
            q.push(nb),
            qpos.insert(nb, q.len() as int),
            seen.insert((nb.0 as int, nb.1 as int)),
            head,
            s,
            w,
            h,
        ),
        forall|c: (usize, usize)| in_box(c, w, h) && c != nb ==> seen_at(info1, c) == seen_at(info0, c),
        seen_at(info1, nb) == Some(((du + 1) as usize, u.0, u.1)),
        dist_at(info1, q.push(nb)[q.len() as int]) <= du + 1,
{
    reveal(search_inv);
    reveal(queue_facts);
    lemma_cells_bound(seen, w, h);
    assert(!seen.contains((nb.0 as int, nb.1 as int)));
    let q1 = q.push(nb);
    let qpos1 = qpos.insert(nb, q.len() as int);
    let seen1 = seen.insert((nb.0 as int, nb.1 as int));
    assert forall|c: (usize, usize)| in_box(c, w, h) && c != nb implies seen_at(info1, c) == seen_at(info0, c) by {
        if c.1 == nb.1 {
            assert(info1[c.1 as int]@[c.0 as int] == info0[c.1 as int]@[c.0 as int]);
        }
    }
    assert(seen_at(info1, nb) == Some(((du + 1) as usize, u.0, u.1)));
    assert forall|y: int| 0 <= y < h implies (#[trigger] info1[y])@.len() == w by {}
    assert forall|c: (usize, usize)|
        in_box(c, w, h) && (#[trigger] seen_at(info1, c)) is Some implies qpos1.contains_key(c) && 0
            <= qpos1[c] < q1.len() && q1[qpos1[c]] == c by {
        if c != nb {
            assert(q1[qpos[c]] == q[qpos[c]]);
        }
    }
    assert forall|i: int| 0 <= i < q1.len() implies in_box(#[trigger] q1[i], w, h) && seen_at(info1, q1[i]) is Some by {
        if i < q.len() {
            assert(q1[i] == q[i]);
        }
    }
    assert forall|i: int, j: int|
        0 <= i <= j < q1.len() implies dist_at(info1, #[trigger] q1[i]) <= dist_at(info1, #[trigger] q1[j]) by {
        if j < q.len() {
            assert(q1[i] == q[i] && q1[j] == q[j]);
        } else if i < q.len() {
            assert(q1[i] == q[i]);
            assert(dist_at(info0, q[i]) <= dist_at(info0, q[q.len() - 1]));
        }
    }
    assert forall|i: int, c: (usize, usize)|
        0 <= i < head && #[trigger] is_step(map, #[trigger] q1[i], c) implies seen_at(info1, c) is Some
            && dist_at(info1, c) <= dist_at(info1, q1[i]) + 1 by {
        assert(q1[i] == q[i]);
        assert(is_step(map, q[i], c));
    }
    assert(queue_facts(map, info1, q1, qpos1, head, w, h));
    assert forall|c: (usize, usize)|
        in_box(c, w, h) implies ((#[trigger] seen_at(info1, c)) is Some <==> seen1.contains(
            (c.0 as int, c.1 as int),
        )) by {}
    assert(seen1.len() == seen.len() + 1);
    assert forall|i: int| 0 <= i < q1.len() implies dist_at(info1, #[trigger] q1[i]) <= i by {
        if i < q.len() {
            assert(q1[i] == q[i]);
        } else {
            assert(du <= head);
        }
    }
    assert forall|c: (usize, usize)|
        in_box(c, w, h) && (#[trigger] seen_at(info1, c)) is Some && c != s implies ({
            let v = seen_at(info1, c)->Some_0;
            &&& v.0 > 0
            &&& in_box((v.1, v.2), w, h)
            &&& seen_at(info1, (v.1, v.2)) is Some
            &&& dist_at(info1, (v.1, v.2)) + 1 == v.0
            &&& is_step(map, (v.1, v.2), c)
        }) by {
        if c != nb {
            let v = seen_at(info0, c)->Some_0;
            assert(in_box((v.1, v.2), w, h));
            if (v.1, v.2) == nb {
                assert(false);
            }
        } else {
            assert(in_box(u, w, h));
            assert(u != nb);
        }
    }
}

/// A move from `u` leads to one of its four neighbours on the grid.
proof fn lemma_step_is_neighbor(map: Seq<Vec<Tile>>, u: (usize, usize), nb: (usize, usize), w: int, h: int) -> (e: int)
    requires
        is_rect(map),
        h == map.len(),
        w == width(map),
        is_step(map, u, nb),
    ensures
        0 <= e < 4,
        neighbor_spec(u.0, u.1, e, w, h) == Some(nb),
{
    assert(map[nb.1 as int]@.len() == w);
    if nb.1 == u.1 + 1 && nb.0 == u.0 {
        0
    } else if nb.0 == u.0 + 1 && nb.1 == u.1 {
        1
    } else if nb.1 + 1 == u.1 && nb.0 == u.0 {
        2
    } else {
        3
    }
}

/// Once all four neighbours of the cell under expansion are handled, the
/// cell counts as expanded.
proof fn lemma_expanded(
    map: Seq<Vec<Tile>>,
    info: Seq<Vec<Visit>>,
    q: Seq<(usize, usize)>,
    qpos: Map<(usize, usize), int>,
    seen: Set<(int, int)>,
    head: int,
    s: (usize, usize),
    w: int,
    h: int,
    u: (usize, usize),
    du: int,
)
    requires
        search_inv(map, info, q, qpos, seen, head, s, w, h),
        head < q.len(),
        q[head] == u,
        dist_at(info, u) == du,
        dist_at(info, q[q.len() - 1]) <= du + 1,
        forall|c: (usize, usize)|
            in_box(c, w, h) && (#[trigger] seen_at(info, c)) is Some ==> dist_at(info, c) <= du + 1,
        forall|e: int|
            0 <= e < 4 ==> match #[trigger] neighbor_spec(u.0, u.1, e, w, h) {
                Some(nb) => passable(map, nb.0 as int, nb.1 as int) ==> seen_at(info, nb) is Some,
                None => true,
            },
    ensures
        search_inv(map, info, q, qpos, seen, head + 1, s, w, h),
        head + 1 < q.len() ==> dist_at(info, q[q.len() - 1]) <= dist_at(info, q[head + 1]) + 1,
{
    reveal(search_inv);
    reveal(queue_facts);
    assert forall|nb: (usize, usize)| #[trigger] is_step(map, u, nb) implies seen_at(info, nb) is Some
        && dist_at(info, nb) <= du + 1 by {
        let e = lemma_step_is_neighbor(map, u, nb, w, h);
        assert(passable(map, nb.0 as int, nb.1 as int));
    }
    assert forall|i: int, c: (usize, usize)|
        0 <= i < head + 1 && #[trigger] is_step(map, #[trigger] q[i], c) implies seen_at(info, c) is Some
            && dist_at(info, c) <= dist_at(info, q[i]) + 1 by {
        if i == head {
            assert(is_step(map, u, c));
        }
    }
    if head + 1 < q.len() {
        assert(dist_at(info, q[head]) <= dist_at(info, q[head + 1]));
    }
}

impl Robot {
    /// The neighbour of `(x, y)` in direction `d`, when it lies in a `w` by `h` grid.
    fn neighbor4(x: usize, y: usize, d: usize, w: usize, h: usize) -> (r: Option<(usize, usize)>)
        requires
            x < w,
            y < h,
        ensures
            r == neighbor_spec(x, y, d as int, w as int, h as int),
            r matches Some(nb) ==> in_box(nb, w as int, h as int) && adjacent4((x, y), nb),
    {
        if d == 0 {
            if y < h && h - y > 1 { Some((x, y + 1)) } else { None }
        } else if d == 1 {
            if x < w && w - x > 1 { Some((x + 1, y)) } else { None }
        } else if d == 2 {
            if y > 0 { Some((x, y - 1)) } else { None }
        } else {
            if x > 0 { Some((x - 1, y)) } else { None }
        }
    }

    /// A shortest route from the robot's cell to `(target_x, target_y)`, by a
    /// breadth-first search over the four directions; empty when the robot
    /// already stands there or no route exists.
    pub(crate) fn find_path_to(&self, target_x: usize, target_y: usize, map: &[Vec<Tile>]) -> (path: Vec<
        (usize, usize),
    >)
        requires
            is_rect(map@),
            in_bounds(map@, self.x as int, self.y as int),
        ensures
            search_result(map@, (self.x, self.y), (target_x, target_y), path@),
    {
        let h = map.len();
        let w = map[0].len();
        let start = (self.x, self.y);
        let target = (target_x, target_y);
        assert(map@[self.y as int]@.len() == w);
        let mut info = Self::unvisited(w, h);
        let ghost info0 = info@;
        Self::set_visit(&mut info, self.x, self.y, Some((0, self.x, self.y)));
        let mut queue: Vec<(usize, usize)> = Vec::new();
        queue.push(start);
        let ghost mut seen: Set<(int, int)> = set![(self.x as int, self.y as int)];
        let ghost mut qpos: Map<(usize, usize), int> = map![start => 0int];
        let mut head: usize = 0;
        proof {
            assert forall|c: (usize, usize)| in_box(c, w as int, h as int) && c != start implies seen_at(info@, c)
                is None by {
                assert(seen_at(info0, c) is None);
                if c.1 == start.1 {
                    assert(info@[c.1 as int]@[c.0 as int] == info0[c.1 as int]@[c.0 as int]);
                } else {
                    assert(info@[c.1 as int] == info0[c.1 as int]);
                }
            }
            assert(seen_at(info@, start) == Some((0usize, self.x, self.y)));
            assert(queue@[0] == start);
            reveal(queue_facts);
            assert(queue_facts(map@, info@, queue@, qpos, head as int, w as int, h as int));
            reveal(search_inv);
            assert(search_inv(map@, info@, queue@, qpos, seen, head as int, start, w as int, h as int));
        }
        while head < queue.len() && !Self::queued_at(&queue, head, target)
            invariant
                search_inv(map@, info@, queue@, qpos, seen, head as int, start, w as int, h as int),
                head < queue@.len() ==> dist_at(info@, queue@[queue@.len() - 1]) <= dist_at(
                    info@,
                    queue@[head as int],
                ) + 1,
                forall|i: int| 0 <= i < head ==> #[trigger] queue@[i] != target,
                h == map@.len(),
                w == width(map@),
            decreases w * h - head,
        {
            proof {
                lemma_inv_basic(map@, info@, queue@, qpos, seen, head as int, start, w as int, h as int);
            }
            let ghost q_before = queue@;
            assert(q_before[head as int] != target);
            let Ghost(next) = Self::expand(map, &mut info, &mut queue, head, start, w, h, Ghost(qpos), Ghost(seen));
            proof {
                qpos = next.0;
                seen = next.1;
                assert forall|i: int| 0 <= i < head + 1 implies #[trigger] queue@[i] != target by {
                    assert(queue@[i] == q_before[i]);
                }
            }
            head = head + 1;
        }
        proof {
            lemma_inv_basic(map@, info@, queue@, qpos, seen, head as int, start, w as int, h as int);
        }
        if head == queue.len() {
            proof {
                assert forall|p: Seq<(usize, usize)>| !is_route_to(map@, start, target, p) by {
                    if is_route_to(map@, start, target, p) {
                        lemma_route_bound(map@, info@, queue@, qpos, seen, head as int, w as int, h as int, start,
                            target, p);
                        let i = qpos[target];
                        assert(queue@[i] == target);
                    }
                }
            }
            return Vec::new();
        }
        proof {
            assert forall|p: Seq<(usize, usize)>| #[trigger] is_route_to(map@, start, target, p) implies dist_at(info@, target)
                <= p.len() by {
                lemma_route_bound(map@, info@, queue@, qpos, seen, head as int, w as int, h as int, start, target, p);
            }
        }
        Self::trace_back(map, &info, start, target, w, h, Ghost(queue@), Ghost(qpos), Ghost(seen), Ghost(head as int))
    }

    /// Expands the cell at position `head` of the queue: each passable
    /// neighbour not reached yet is reached from it and queued.
    fn expand(
        map: &[Vec<Tile>],
        info: &mut Vec<Vec<Visit>>,
        queue: &mut Vec<(usize, usize)>,
        head: usize,
        start: (usize, usize),
        w: usize,
        h: usize,
        Ghost(qpos0): Ghost<Map<(usize, usize), int>>,
        Ghost(seen0): Ghost<Set<(int, int)>>,
    ) -> (r: Ghost<(Map<(usize, usize), int>, Set<(int, int)>)>)
        requires
            search_inv(map@, old(info)@, old(queue)@, qpos0, seen0, head as int, start, w as int, h as int),
            head < old(queue)@.len(),
            dist_at(old(info)@, old(queue)@[old(queue)@.len() - 1]) <= dist_at(
                old(info)@,
                old(queue)@[head as int],
            ) + 1,
        ensures
            search_inv(map@, final(info)@, final(queue)@, r@.0, r@.1, head + 1, start, w as int, h as int),
            head + 1 < final(queue)@.len() ==> dist_at(final(info)@, final(queue)@[final(queue)@.len() - 1])
                <= dist_at(final(info)@, final(queue)@[head + 1]) + 1,
            final(queue)@.len() >= old(queue)@.len(),
            forall|i: int| 0 <= i < old(queue)@.len() ==> #[trigger] final(queue)@[i] == old(queue)@[i],
    {
        let ghost mut qpos = qpos0;
        let ghost mut seen = seen0;
        proof {
            lemma_inv_basic(map@, info@, queue@, qpos, seen, head as int, start, w as int, h as int);
        }
        let u = queue[head];
        let du = match info[u.1][u.0] {
            Some(v) => v.0,
            None => 0,
        };
        let qlen = queue.len();
        assert(du < qlen);
        proof {
            lemma_seen_close(map@, info@, queue@, qpos, seen, head as int, start, w as int, h as int, du as int);
        }
        let mut d: usize = 0;
        while d < 4
            invariant
                0 <= d <= 4,
                head < queue@.len(),
                queue@[head as int] == u,
                dist_at(info@, u) == du,
                du < queue@.len(),
                du < usize::MAX,
                in_box(u, w as int, h as int),
                search_inv(map@, info@, queue@, qpos, seen, head as int, start, w as int, h as int),
                dist_at(info@, queue@[queue@.len() - 1]) <= du + 1,
                h == map@.len(),
                w == width(map@),
                queue@.len() >= old(queue)@.len(),
                forall|i: int| 0 <= i < old(queue)@.len() ==> #[trigger] queue@[i] == old(queue)@[i],
                forall|c: (usize, usize)|
                    in_box(c, w as int, h as int) && (#[trigger] seen_at(info@, c)) is Some ==> dist_at(info@, c)
                        <= du + 1,
                forall|e: int|
                    0 <= e < d ==> match #[trigger] neighbor_spec(u.0, u.1, e, w as int, h as int) {
                        Some(nb) => passable(map@, nb.0 as int, nb.1 as int) ==> seen_at(info@, nb) is Some,
                        None => true,
                    },
            decreases 4 - d,
        {
            proof {
                lemma_inv_dims(map@, info@, queue@, qpos, seen, head as int, start, w as int, h as int);
            }
            let ghost info_start = info@;
            if let Some(nb) = Self::neighbor4(u.0, u.1, d, w, h) {
                assert(map@[nb.1 as int]@.len() == w);
                if info[nb.1][nb.0].is_none() && Self::passable_cell(nb.0, nb.1, map) {
                    let ghost info_before = info@;
                    let ghost q_before = queue@;
                    Self::set_visit(info, nb.0, nb.1, Some((du + 1, u.0, u.1)));
                    queue.push(nb);
                    proof {
                        lemma_visit(map@, info_before, info@, q_before, qpos, seen, head as int, start, w as int,
                            h as int, u, du as int, nb);
                        seen = seen.insert((nb.0 as int, nb.1 as int));
                        qpos = qpos.insert(nb, q_before.len() as int);
                    }
                }
            }
            proof {
                assert forall|c: (usize, usize)| in_box(c, w as int, h as int) && #[trigger] seen_at(info_start, c)
                    is Some implies seen_at(info@, c) is Some by {}
                assert forall|e: int| 0 <= e < d + 1 implies match #[trigger] neighbor_spec(
                    u.0,
                    u.1,
                    e,
                    w as int,
                    h as int,
                ) {
                    Some(nb) => passable(map@, nb.0 as int, nb.1 as int) ==> seen_at(info@, nb) is Some,
                    None => true,
                } by {
                    if let Some(nb) = neighbor_spec(u.0, u.1, e, w as int, h as int) {
                        if passable(map@, nb.0 as int, nb.1 as int) && e < d {
                            assert(seen_at(info_start, nb) is Some);
                        }
                    }
                }
            }
            d = d + 1;
        }
        proof {
            lemma_expanded(map@, info@, queue@, qpos, seen, head as int, start, w as int, h as int, u, du as int);
        }
        Ghost((qpos, seen))
    }

    /// Follows the recorded predecessors from `target` back to `start` and
    /// returns the cells on the way, in walking order.
    fn trace_back(
        map: &[Vec<Tile>],
        info: &Vec<Vec<Visit>>,
        start: (usize, usize),
        target: (usize, usize),
        w: usize,
        h: usize,
        Ghost(queue): Ghost<Seq<(usize, usize)>>,
        Ghost(qpos): Ghost<Map<(usize, usize), int>>,
        Ghost(seen): Ghost<Set<(int, int)>>,
        Ghost(head): Ghost<int>,
    ) -> (path: Vec<(usize, usize)>)
        requires
            search_inv(map@, info@, queue, qpos, seen, head, start, w as int, h as int),
            in_box(target, w as int, h as int),
            seen_at(info@, target) is Some,
            forall|p: Seq<(usize, usize)>| #[trigger] is_route_to(map@, start, target, p) ==> dist_at(info@, target)
                <= p.len(),
        ensures
            search_result(map@, start, target, path@),
    {
        proof {
            lemma_inv_basic(map@, info@, queue, qpos, seen, head, start, w as int, h as int);
        }
        let ghost dt = dist_at(info@, target);
        let mut rev: Vec<(usize, usize)> = Vec::new();
        let mut cur = target;
        while cur.0 != start.0 || cur.1 != start.1
            invariant
                info@.len() == h,
                forall|y: int| 0 <= y < h ==> (#[trigger] info@[y])@.len() == w,
                parent_facts(map@, info@, start, w as int, h as int),
                dist_at(info@, start) == 0,
                in_box(cur, w as int, h as int),
                seen_at(info@, cur) is Some,
                dist_at(info@, cur) + rev@.len() == dt,
                rev@.len() == 0 ==> cur == target,
                rev@.len() > 0 ==> rev@[0] == target && is_step(map@, cur, rev@[rev@.len() - 1]),
                forall|k: int|
                    0 <= k < rev@.len() - 1 ==> is_step(map@, rev@[k + 1], #[trigger] rev@[k]),
            decreases dist_at(info@, cur),
        {
            rev.push(cur);
            let prev = match info[cur.1][cur.0] {
                Some(v) => (v.1, v.2),
                None => start,
            };
            cur = prev;
        }
        let mut path: Vec<(usize, usize)> = Vec::new();
        let mut k: usize = rev.len();
        while k > 0
            invariant
                k <= rev@.len(),
                path@.len() + k == rev@.len(),
                forall|i: int| 0 <= i < path@.len() ==> #[trigger] path@[i] == rev@[rev@.len() - 1 - i],
            decreases k,
        {
            k = k - 1;
            path.push(rev[k]);
        }
        proof {
            let n = rev@.len() as int;
            assert(dt == n);
            assert forall|i: int| 0 <= i < path@.len() implies is_step(
                map@,
                step_from(start, path@, i),
                #[trigger] path@[i],
            ) by {
                if i > 0 {
                    assert(path@[i - 1] == rev@[n - i]);
                    assert(rev@[(n - 1 - i) + 1] == rev@[n - i]);
                }
            }
            if target != start {
                assert(n > 0);
                assert(path@[n - 1] == rev@[0]);
                assert(is_route_to(map@, start, target, path@));
            }
        }
        path
    }

    /// Whether `t` stands at position `i` of the queue.
    fn queued_at(queue: &Vec<(usize, usize)>, i: usize, t: (usize, usize)) -> (r: bool)
        requires
            i < queue@.len(),
        ensures
            r == (queue@[i as int] == t),
    {
        queue[i].0 == t.0 && queue[i].1 == t.1
    }

    /// Whether a robot may stand on `(x, y)`.
    pub(crate) fn passable_cell(x: usize, y: usize, map: &[Vec<Tile>]) -> (r: bool)
        ensures
            r == passable(map@, x as int, y as int),
    {
        if y >= map.len() || x >= map[y].len() {
            return false;
        }
        match map[y][x] {
            Tile::Empty | Tile::Energy | Tile::Mineral | Tile::Science | Tile::Base => true,
            _ => false,
        }
    }

    /// A `w` by `h` grid of empty search records.
    fn unvisited(w: usize, h: usize) -> (info: Vec<Vec<Visit>>)
        ensures
            info@.len() == h,
            forall|y: int| 0 <= y < h ==> (#[trigger] info@[y])@.len() == w,
            forall|c: (usize, usize)| in_box(c, w as int, h as int) ==> (#[trigger] seen_at(info@, c)) is None,
    {
        let mut info: Vec<Vec<Visit>> = Vec::new();
        let mut yy: usize = 0;
        while yy < h
            invariant
                info@.len() == yy,
                yy <= h,
                forall|y: int| 0 <= y < yy ==> (#[trigger] info@[y])@.len() == w,
                forall|c: (usize, usize)| c.1 < yy && c.0 < w ==> (#[trigger] seen_at(info@, c)) is None,
            decreases h - yy,
        {
            let mut row: Vec<Visit> = Vec::new();
            let mut xx: usize = 0;
            let ghost y0 = yy;
            while xx < w
                invariant
                    row@.len() == xx,
                    xx <= w,
                    forall|x: int| 0 <= x < xx ==> (#[trigger] row@[x]) is None,
                decreases w - xx,
            {
                row.push(None);
                xx = xx + 1;
            }
            let ghost before = info@;
            let ghost new_row = row@;
            info.push(row);
            assert(info@[yy as int]@ == new_row);
            assert forall|c: (usize, usize)| c.1 < yy + 1 && c.0 < w implies (#[trigger] seen_at(info@, c)) is None by {
                if c.1 < yy {
                    assert(info@[c.1 as int] == before[c.1 as int]);
                    assert(seen_at(before, c) is None);
                } else {
                    assert(new_row[c.0 as int] is None);
                    assert(seen_at(info@, c) == new_row[c.0 as int]);
                }
            }
            yy = yy + 1;
        }
        info
    }

    /// Writes `v` as the record of cell `(x, y)`.
    fn set_visit(info: &mut Vec<Vec<Visit>>, x: usize, y: usize, v: Visit)
        requires
            y < old(info)@.len(),
            x < old(info)@[y as int]@.len(),
        ensures
            final(info)@.len() == old(info)@.len(),
            forall|r: int| 0 <= r < old(info)@.len() && r != y ==> final(info)@[r] == old(info)@[r],
            final(info)@[y as int]@ == old(info)@[y as int]@.update(x as int, v),
    {
        let mut row: Vec<Visit> = Vec::new();
        std::mem::swap(&mut row, &mut info[y]);
        row[x] = v;
        std::mem::swap(&mut row, &mut info[y]);
    }
}

} // verus!

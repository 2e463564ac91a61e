//! The grid seen as a sequence of rows: cells, bounds, and routes of
//! side-by-side moves.

use vstd::prelude::*;
use vstd::set_lib::{lemma_set_disjoint_lens, lemma_len_subset};
use crate::tile::{Tile, is_walkable};

verus! {

/// The tile at column `x` of row `y`.
pub open spec fn tile_at(map: Seq<Vec<Tile>>, x: int, y: int) -> Tile {
    map[y]@[x]
}

/// Whether `(x, y)` names a cell of the grid.
pub open spec fn in_bounds(map: Seq<Vec<Tile>>, x: int, y: int) -> bool {
    0 <= y < map.len() && 0 <= x < map[y]@.len()
}

/// Whether a robot may stand on `(x, y)`.
pub open spec fn passable(map: Seq<Vec<Tile>>, x: int, y: int) -> bool {
    in_bounds(map, x, y) && is_walkable(tile_at(map, x, y))
}

pub open spec fn width(map: Seq<Vec<Tile>>) -> int {
    map[0]@.len() as int
}

/// A non-empty rectangular grid: every row is as long as the first.
pub open spec fn is_rect(map: Seq<Vec<Tile>>) -> bool {
    &&& map.len() > 0
    &&& map[0]@.len() > 0
    &&& forall|y: int| 0 <= y < map.len() ==> (#[trigger] map[y])@.len() == map[0]@.len()
}

/// Two cells that share a side.
pub open spec fn adjacent4(a: (usize, usize), b: (usize, usize)) -> bool {
    ||| a.0 == b.0 && (a.1 + 1 == b.1 || b.1 + 1 == a.1)
    ||| a.1 == b.1 && (a.0 + 1 == b.0 || b.0 + 1 == a.0)
}

/// One move of a route: to a passable cell that shares a side with `a`.
pub open spec fn is_step(map: Seq<Vec<Tile>>, a: (usize, usize), b: (usize, usize)) -> bool {
    adjacent4(a, b) && passable(map, b.0 as int, b.1 as int)
}

/// The cell a route stands on before its `i`-th move.
pub open spec fn step_from(from: (usize, usize), p: Seq<(usize, usize)>, i: int) -> (usize, usize) {
    if i == 0 {
        from
    } else {
        p[i - 1]
    }
}

/// `p` lists the cells entered, one move at a time, on a walk that starts on `from`.
pub open spec fn is_route(map: Seq<Vec<Tile>>, from: (usize, usize), p: Seq<(usize, usize)>) -> bool {
    forall|i: int| 0 <= i < p.len() ==> is_step(map, step_from(from, p, i), #[trigger] p[i])
}

/// A route from `from` that ends on `to`, using at least one move.
pub open spec fn is_route_to(
    map: Seq<Vec<Tile>>,
    from: (usize, usize),
    to: (usize, usize),
    p: Seq<(usize, usize)>,
) -> bool {
    is_route(map, from, p) && p.len() > 0 && p.last() == to
}

/// The cells of a `w` by `h` grid.
pub open spec fn cells(w: int, h: int) -> Set<(int, int)> {
    Set::new(|c: (int, int)| 0 <= c.0 < w && 0 <= c.1 < h)
}

pub open spec fn row_cells(w: int, y: int) -> Set<(int, int)> {
    Set::new(|c: (int, int)| 0 <= c.0 < w && c.1 == y)
}

proof fn lemma_row_cells(w: int, y: int)
    requires
        w >= 0,
    ensures
        row_cells(w, y).finite(),
        row_cells(w, y).len() == w,
    decreases w,
{
    if w == 0 {
        assert(row_cells(w, y) =~= Set::empty());
    } else {
        lemma_row_cells(w - 1, y);
        assert(row_cells(w - 1, y).insert((w - 1, y)) =~= row_cells(w, y));
    }
}

/// A `w` by `h` grid has `w * h` cells.
pub proof fn lemma_cells(w: int, h: int)
    requires
        w >= 0,
        h >= 0,
    ensures
        cells(w, h).finite(),
        cells(w, h).len() == w * h,
    decreases h,
{
    if h == 0 {
        assert(cells(w, h) =~= Set::empty());
    } else {
        lemma_cells(w, h - 1);
        lemma_row_cells(w, h - 1);
        assert(cells(w, h - 1) + row_cells(w, h - 1) =~= cells(w, h));
        assert(cells(w, h - 1).disjoint(row_cells(w, h - 1)));
        lemma_set_disjoint_lens(cells(w, h - 1), row_cells(w, h - 1));
        assert(w * (h - 1) + w == w * h) by (nonlinear_arith);
    }
}

/// A set of cells of a `w` by `h` grid holds at most `w * h` of them.
pub proof fn lemma_cells_bound(s: Set<(int, int)>, w: int, h: int)
    requires
        w >= 0,
        h >= 0,
        s.subset_of(cells(w, h)),
    ensures
        s.finite(),
        s.len() <= w * h,
{
    lemma_cells(w, h);
    lemma_len_subset(s, cells(w, h));
}

} // verus!

//! Map generation from noise bands and a seeded random generator.

use vstd::prelude::*;
use rand::{Rng, SeedableRng};
use rand::rngs::StdRng;
use crate::tile::Tile;
use crate::base::{base_side, base_size};

verus! {

/// Where the terrain noise at a cell falls: at most 0.2, above 0.2 up to
/// 0.45, or above 0.45.
#[derive(Clone, Copy, Debug, PartialEq, Eq, Structural)]
pub enum NoiseBand {
    Low,
    Mid,
    High,
}

/// The `i`-th value, counting from zero, that rand's `StdRng` seeded with
/// `seed` yields when asked for integers in `0..bound`.
pub uninterp spec fn seeded_draw(seed: u64, bound: i32, i: nat) -> i32;

/// Relies on rand's `StdRng::seed_from_u64` and `Rng::gen_range`: the
/// generator (ChaCha with 12 rounds in the rand version this crate builds
/// with) is deterministic for a given seed, so the `i`-th value drawn does not
/// depend on how many are drawn after it; `gen_range(0..bound)` yields a
/// value in `0..bound` and panics on an empty range.
#[verifier::external_body]
fn draw_seeded(seed: u64, bound: i32, count: usize) -> (r: Vec<i32>)
    requires
        bound > 0,
    ensures
        r@.len() == count,
        forall|i: int| 0 <= i < count ==> #[trigger] r@[i] == seeded_draw(seed, bound, i as nat),
        forall|i: int| 0 <= i < count ==> 0 <= #[trigger] r@[i] < bound,
{
    let mut rng = StdRng::seed_from_u64(seed);
    (0..count).map(|_| rng.gen_range(0..bound)).collect()
}

/// Whether `(x, y)` lies in the base square of a `w` by `h` map: the square
/// of side `base_side(w, h)` centred on the map.
pub open spec fn in_base_square(w: int, h: int, x: int, y: int) -> bool {
    let s = base_side(w, h);
    let x0 = (w - s) / 2;
    let y0 = (h - s) / 2;
    x0 <= x < x0 + s && y0 <= y < y0 + s
}

/// Whether generating the cell `(x, y)` of a row with bands `row` takes a
/// random draw: a middle band outside the base square.
pub open spec fn takes_draw(row: Seq<NoiseBand>, w: int, h: int, x: int, y: int) -> bool {
    row[x] == NoiseBand::Mid && !in_base_square(w, h, x, y)
}

/// How many of the first `x` cells of row `y` take a draw.
pub open spec fn draws_in_row(row: Seq<NoiseBand>, w: int, h: int, y: int, x: int) -> nat
    decreases x,
{
    if x <= 0 {
        0
    } else {
        draws_in_row(row, w, h, y, x - 1) + if takes_draw(row, w, h, x - 1, y) {
            1nat
        } else {
            0nat
        }
    }
}

/// How many cells of the first `y` rows take a draw.
pub open spec fn draws_before_row(bands: Seq<Vec<NoiseBand>>, w: int, h: int, y: int) -> nat
    decreases y,
{
    if y <= 0 {
        0
    } else {
        draws_before_row(bands, w, h, y - 1) + draws_in_row(bands[y - 1]@, w, h, y - 1, w)
    }
}

/// The tile that a draw `d` out of a hundred gives a middle-band cell.
pub open spec fn draw_tile(d: int) -> Tile {
    if 0 <= d <= 4 {
        Tile::Energy
    } else if 5 <= d <= 9 {
        Tile::Mineral
    } else if 10 <= d <= 12 {
        Tile::Science
    } else {
        Tile::Empty
    }
}

/// The tile that generation puts on `(x, y)` of a `w` by `h` map with noise
/// bands `bands` and seed `seed`. Cells are visited row by row, and each
/// middle-band cell outside the base square takes the next draw.
pub open spec fn generated_tile(w: int, h: int, seed: u32, bands: Seq<Vec<NoiseBand>>, x: int, y: int) -> Tile {
    if in_base_square(w, h, x, y) {
        Tile::Base
    } else {
        match bands[y]@[x] {
            NoiseBand::High => Tile::Obstacle,
            NoiseBand::Mid => draw_tile(
                seeded_draw(
                    seed as u64,
                    100,
                    draws_before_row(bands, w, h, y) + draws_in_row(bands[y]@, w, h, y, x),
                ) as int,
            ),
            NoiseBand::Low => Tile::Empty,
        }
    }
}

/// `map` is the grid that generation makes from these arguments.
pub open spec fn is_generated(
    map: Seq<Vec<Tile>>,
    w: int,
    h: int,
    seed: u32,
    bands: Seq<Vec<NoiseBand>>,
) -> bool {
    &&& map.len() == h
    &&& forall|y: int| 0 <= y < h ==> (#[trigger] map[y])@.len() == w
    &&& forall|x: int, y: int|
        0 <= x < w && 0 <= y < h ==> #[trigger] map[y]@[x] == generated_tile(w, h, seed, bands, x, y)
}

proof fn lemma_draws_in_row_bound(row: Seq<NoiseBand>, w: int, h: int, y: int, x: int)
    requires
        x >= 0,
    ensures
        draws_in_row(row, w, h, y, x) <= x,
    decreases x,
{
    if x > 0 {
        lemma_draws_in_row_bound(row, w, h, y, x - 1);
    }
}

proof fn lemma_draws_before_row_bound(bands: Seq<Vec<NoiseBand>>, w: int, h: int, y: int)
    requires
        y >= 0,
        w >= 0,
    ensures
        draws_before_row(bands, w, h, y) <= y * w,
    decreases y,
{
    if y > 0 {
        lemma_draws_before_row_bound(bands, w, h, y - 1);
        lemma_draws_in_row_bound(bands[y - 1]@, w, h, y - 1, w);
        assert((y - 1) * w + w == y * w) by (nonlinear_arith);
    }
}

/// The tile for a middle-band cell that drew `d`.
fn tile_for_draw(d: i32) -> (t: Tile)
    ensures
        t == draw_tile(d as int),
{
    if 0 <= d && d <= 4 {
        Tile::Energy
    } else if 5 <= d && d <= 9 {
        Tile::Mineral
    } else if 10 <= d && d <= 12 {
        Tile::Science
    } else {
        Tile::Empty
    }
}

/// Builds the `width` by `height` map: the centred base square of side
/// `min(10, min(width, height) / 5)` is all base; elsewhere high noise is an
/// obstacle, low noise is empty, and each middle-noise cell, row by row,
/// takes the next draw of a generator seeded with `seed`, out of a hundred:
/// 0 to 4 give energy, 5 to 9 minerals, 10 to 12 science, the rest nothing.
pub fn generate_map(width: usize, height: usize, seed: u32, bands: &Vec<Vec<NoiseBand>>) -> (map: Vec<Vec<Tile>>)
    requires
        bands@.len() == height,
        forall|y: int| 0 <= y < height ==> (#[trigger] bands@[y])@.len() == width,
        width * height <= usize::MAX,
    ensures
        is_generated(map@, width as int, height as int, seed, bands@),
{
    let side = base_size(width, height);
    let x0 = (width - side) / 2;
    let y0 = (height - side) / 2;
    let ghost w = width as int;
    let ghost h = height as int;

    let mut total: usize = 0;
    let mut y: usize = 0;
    while y < height
        invariant
            y <= height,
            bands@.len() == height,
            forall|r: int| 0 <= r < height ==> (#[trigger] bands@[r])@.len() == width,
            width * height <= usize::MAX,
            side == base_side(w, h),
                w == width as int,
                h == height as int,
                x0 + side <= width,
                y0 + side <= height,
            x0 == (w - side) / 2,
            y0 == (h - side) / 2,
            total == draws_before_row(bands@, w, h, y as int),
        decreases height - y,
    {
        let row = &bands[y];
        let mut x: usize = 0;
        while x < width
            invariant
                x <= width,
                y < height,
                row@.len() == width,
                row == bands@[y as int],
                width * height <= usize::MAX,
                side == base_side(w, h),
                w == width as int,
                h == height as int,
                x0 + side <= width,
                y0 + side <= height,
                x0 == (w - side) / 2,
                y0 == (h - side) / 2,
                total == draws_before_row(bands@, w, h, y as int) + draws_in_row(row@, w, h, y as int, x as int),
            decreases width - x,
        {
            proof {
                lemma_draws_before_row_bound(bands@, w, h, y as int);
                lemma_draws_in_row_bound(row@, w, h, y as int, x as int);
                assert(y * w + x < w * h) by (nonlinear_arith)
                    requires
                        y < h,
                        x < w,
                ;
            }
            let inside = x0 <= x && x < x0 + side && y0 <= y && y < y0 + side;
            if row[x] == NoiseBand::Mid && !inside {
                total = total + 1;
            }
            x = x + 1;
        }
        proof {
            assert(draws_before_row(bands@, w, h, y + 1) == draws_before_row(bands@, w, h, y as int) + draws_in_row(
                bands@[y as int]@,
                w,
                h,
                y as int,
                w,
            ));
        }
        y = y + 1;
    }

    let draws = draw_seeded(seed as u64, 100, total);
    let mut map: Vec<Vec<Tile>> = Vec::new();
    let mut k: usize = 0;
    let mut y: usize = 0;
    while y < height
        invariant
            y <= height,
            bands@.len() == height,
            forall|r: int| 0 <= r < height ==> (#[trigger] bands@[r])@.len() == width,
            side == base_side(w, h),
                w == width as int,
                h == height as int,
                x0 + side <= width,
                y0 + side <= height,
            x0 == (w - side) / 2,
            y0 == (h - side) / 2,
            draws@.len() == total,
            total == draws_before_row(bands@, w, h, h),
            forall|i: int| 0 <= i < total ==> #[trigger] draws@[i] == seeded_draw(seed as u64, 100, i as nat),
            k == draws_before_row(bands@, w, h, y as int),
            map@.len() == y,
            forall|r: int| 0 <= r < y ==> (#[trigger] map@[r])@.len() == width,
            forall|c: int, r: int|
                0 <= c < width && 0 <= r < y ==> #[trigger] map@[r]@[c] == generated_tile(w, h, seed, bands@, c, r),
        decreases height - y,
    {
        let brow = &bands[y];
        let mut row: Vec<Tile> = Vec::new();
        let mut x: usize = 0;
        proof {
            lemma_draws_prefix(bands@, w, h, y as int, 0);
        }
        while x < width
            invariant
                x <= width,
                y < height,
                brow@.len() == width,
                brow == bands@[y as int],
                bands@.len() == height,
                side == base_side(w, h),
                w == width as int,
                h == height as int,
                x0 + side <= width,
                y0 + side <= height,
                x0 == (w - side) / 2,
                y0 == (h - side) / 2,
                draws@.len() == total,
                total == draws_before_row(bands@, w, h, h),
                forall|i: int| 0 <= i < total ==> #[trigger] draws@[i] == seeded_draw(seed as u64, 100, i as nat),
                k == draws_before_row(bands@, w, h, y as int) + draws_in_row(brow@, w, h, y as int, x as int),
                row@.len() == x,
                forall|c: int| 0 <= c < x ==> #[trigger] row@[c] == generated_tile(w, h, seed, bands@, c, y as int),
            decreases width - x,
        {
            let inside = x0 <= x && x < x0 + side && y0 <= y && y < y0 + side;
            let tile = if inside {
                Tile::Base
            } else {
                match brow[x] {
                    NoiseBand::High => Tile::Obstacle,
                    NoiseBand::Mid => {
                        proof {
                            lemma_draws_prefix(bands@, w, h, y as int, x as int + 1);
                        }
                        let t = tile_for_draw(draws[k]);
                        k = k + 1;
                        t
                    },
                    NoiseBand::Low => Tile::Empty,
                }
            };
            row.push(tile);
            x = x + 1;
        }
        proof {
            lemma_draws_prefix(bands@, w, h, y as int, w);
        }
        let ghost before = map@;
        map.push(row);
        proof {
            assert forall|c: int, r: int| 0 <= c < width && 0 <= r < y + 1 implies #[trigger] map@[r]@[c]
                == generated_tile(w, h, seed, bands@, c, r) by {
                if r < y {
                    assert(map@[r] == before[r]);
                }
            }
        }
        y = y + 1;
    }
    map
}

/// Generation depends on its arguments alone: two maps generated from the
/// same width, height, seed and noise bands are the same map.
pub proof fn lemma_generation_deterministic(
    w: int,
    h: int,
    seed: u32,
    bands: Seq<Vec<NoiseBand>>,
    m1: Seq<Vec<Tile>>,
    m2: Seq<Vec<Tile>>,
)
    requires
        is_generated(m1, w, h, seed, bands),
        is_generated(m2, w, h, seed, bands),
    ensures
        m1.len() == m2.len(),
        forall|y: int| 0 <= y < m1.len() ==> (#[trigger] m1[y])@ == m2[y]@,
{
    assert forall|y: int| 0 <= y < m1.len() implies (#[trigger] m1[y])@ == m2[y]@ by {
        assert forall|x: int| 0 <= x < w implies m1[y]@[x] == m2[y]@[x] by {
            assert(m1[y]@[x] == generated_tile(w, h, seed, bands, x, y));
            assert(m2[y]@[x] == generated_tile(w, h, seed, bands, x, y));
        }
        assert(m1[y]@ =~= m2[y]@);
    }
}

/// The base region of a generated map: the square of side
/// `min(10, min(w, h) / 5)` centred on the map lies within it, and a cell
/// holds a base tile exactly when it lies in that square, whatever the
/// noise beneath.
pub proof fn lemma_base_region(map: Seq<Vec<Tile>>, w: int, h: int, seed: u32, bands: Seq<Vec<NoiseBand>>)
    requires
        w >= 0,
        h >= 0,
        is_generated(map, w, h, seed, bands),
    ensures
        forall|x: int, y: int| #[trigger] in_base_square(w, h, x, y) ==> 0 <= x < w && 0 <= y < h,
        forall|x: int, y: int|
            0 <= x < w && 0 <= y < h ==> (#[trigger] map[y]@[x] == Tile::Base <==> in_base_square(w, h, x, y)),
{
    assert forall|x: int, y: int| 0 <= x < w && 0 <= y < h implies (#[trigger] map[y]@[x] == Tile::Base
        <==> in_base_square(w, h, x, y)) by {
        assert(map[y]@[x] == generated_tile(w, h, seed, bands, x, y));
    }
}

/// The draws taken up to cell `x` of row `y` are among all the draws taken.
proof fn lemma_draws_prefix(bands: Seq<Vec<NoiseBand>>, w: int, h: int, y: int, x: int)
    requires
        0 <= y < h,
        0 <= x <= w,
        bands.len() == h,
    ensures
        draws_before_row(bands, w, h, y) + draws_in_row(bands[y]@, w, h, y, x) <= draws_before_row(bands, w, h, h),
        draws_before_row(bands, w, h, y) + draws_in_row(bands[y]@, w, h, y, w) == draws_before_row(bands, w, h, y + 1),
{
    lemma_draws_in_row_mono(bands[y]@, w, h, y, x, w);
    lemma_draws_before_row_mono(bands, w, h, y + 1, h);
}

proof fn lemma_draws_in_row_mono(row: Seq<NoiseBand>, w: int, h: int, y: int, a: int, b: int)
    requires
        0 <= a <= b,
    ensures
        draws_in_row(row, w, h, y, a) <= draws_in_row(row, w, h, y, b),
    decreases b - a,
{
    if a < b {
        lemma_draws_in_row_mono(row, w, h, y, a, b - 1);
    }
}

proof fn lemma_draws_before_row_mono(bands: Seq<Vec<NoiseBand>>, w: int, h: int, a: int, b: int)
    requires
        0 <= a <= b,
    ensures
        draws_before_row(bands, w, h, a) <= draws_before_row(bands, w, h, b),
    decreases b - a,
{
    if a < b {
        lemma_draws_before_row_mono(bands, w, h, a, b - 1);
    }
}

} // verus!

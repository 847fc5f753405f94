use vstd::prelude::*;

use rand::RngExt;
use rand_chacha::ChaCha8Rng;

verus! {

/// The terrain generator's seeded random number generator.
#[verifier::external_type_specification]
#[verifier::external_body]
pub struct ExChaCha8Rng(ChaCha8Rng);

/// The terrain generator's random number generator, with a record of the indices
/// drawn from it.
pub struct TerrainRng {
    pub rng: ChaCha8Rng,
    /// Each index drawn, as (the largest index asked for, the index returned), in
    /// order.
    pub draws: Ghost<Seq<(usize, usize)>>,
}

impl TerrainRng {
    /// Wraps a seeded generator; nothing is drawn yet.
    pub fn new(rng: ChaCha8Rng) -> (r: Self)
        ensures
            r.draws@ == Seq::<(usize, usize)>::empty(),
    {
        TerrainRng { rng, draws: Ghost(Seq::empty()) }
    }

    /// A random index in `0..=upper` from the generator, recorded in `draws`.
    ///
    /// Calls `RngExt::random_range(0..=upper)` of rand, which samples uniformly from a
    /// non-empty range. The contract claims only that the index lies in the range,
    /// and records the request and the index drawn.
    #[verifier::external_body]
    fn random_index(&mut self, upper: usize) -> (r: usize)
        ensures
            r <= upper,
            final(self).draws@ == old(self).draws@.push((upper, r)),
    {
        self.rng.random_range(0..=upper)
    }
}

/// `p` lists each index of `0..n` exactly once.
pub open spec fn is_index_permutation(p: Seq<int>, n: int) -> bool {
    &&& p.len() == n
    &&& forall|i: int| 0 <= i < n ==> 0 <= #[trigger] p[i] < n
    &&& forall|i: int, j: int| 0 <= i < n && 0 <= j < n && i != j ==> #[trigger] p[i] != #[trigger] p[j]
}

/// `a` holds the elements of `b` in some order.
pub open spec fn is_permutation_of<T>(a: Seq<T>, b: Seq<T>) -> bool {
    &&& a.len() == b.len()
    &&& exists|p: Seq<int>|
        is_index_permutation(p, a.len() as int) && forall|i: int| 0 <= i < a.len() ==> a[i] == b[#[trigger] p[i]]
}

/// `s` with the elements at `i` and `j` exchanged.
pub open spec fn swap_at<T>(s: Seq<T>, i: int, j: int) -> Seq<T> {
    s.update(i, s[j]).update(j, s[i])
}

/// Number of swaps a Fisher-Yates shuffle of `n` elements makes: one for each index
/// from `n - 1` down to 1.
pub open spec fn shuffle_steps(n: int) -> int {
    if n > 1 {
        n - 1
    } else {
        0
    }
}

/// Valid random choices for shuffling `n` elements: the `k`-th swap, which moves
/// index `n - 1 - k`, picks an index at or before it.
pub open spec fn valid_picks(picks: Seq<usize>, n: int) -> bool {
    &&& picks.len() == shuffle_steps(n)
    &&& forall|k: int| 0 <= k < picks.len() ==> #[trigger] picks[k] <= n - 1 - k
}

/// `s` after the first `k` swaps of a Fisher-Yates shuffle with the choices `picks`:
/// swap `k` exchanges index `n - 1 - k` with index `picks[k]`.
pub open spec fn shuffled<T>(s: Seq<T>, picks: Seq<usize>, k: int) -> Seq<T>
    decreases k,
{
    if k <= 0 {
        s
    } else {
        swap_at(shuffled(s, picks, k - 1), s.len() - k, picks[k - 1] as int)
    }
}

/// Fisher-Yates shuffle with given choices: for `i` from the last index down to 1,
/// swaps element `i` with element `picks[len - 1 - i]`. The result holds the same
/// elements.
pub fn apply_shuffle_picks<T: Copy>(v: &mut Vec<T>, picks: &Vec<usize>)
    requires
        valid_picks(picks@, old(v)@.len() as int),
    ensures
        final(v)@ == shuffled(old(v)@, picks@, picks@.len() as int),
        is_permutation_of(final(v)@, old(v)@),
{
    let ghost v0 = v@;
    let ghost mut p: Seq<int> = Seq::new(v0.len(), |i: int| i);
    let n = v.len();
    let mut k: usize = 0;
    while k < picks.len()
        invariant
            n == v0.len(),
            v@.len() == n,
            valid_picks(picks@, n as int),
            k <= picks@.len(),
            v@ == shuffled(v0, picks@, k as int),
            is_index_permutation(p, v0.len() as int),
            forall|m: int| 0 <= m < v0.len() ==> v@[m] == v0[#[trigger] p[m]],
        decreases picks@.len() - k,
    {
        let i = n - 1 - k;
        let j = picks[k];
        let a = v[i];
        let b = v[j];
        v.set(i, b);
        v.set(j, a);
        proof {
            assert(v@ == swap_at(shuffled(v0, picks@, k as int), i as int, j as int));
            let p0 = p;
            p = p0.update(i as int, p0[j as int]).update(j as int, p0[i as int]);
            assert forall|x: int, y: int|
                0 <= x < v0.len() && 0 <= y < v0.len() && x != y implies #[trigger] p[x] != #[trigger] p[y] by {
                let sx = if x == j { i as int } else if x == i { j as int } else { x };
                let sy = if y == j { i as int } else if y == i { j as int } else { y };
                assert(p[x] == p0[sx]);
                assert(p[y] == p0[sy]);
            }
            assert forall|m: int| 0 <= m < v0.len() implies v@[m] == v0[#[trigger] p[m]] by {
                if m == j {
                } else if m == i {
                } else {
                }
            }
        }
        k = k + 1;
    }
    proof {
        assert(is_index_permutation(p, v@.len() as int) && forall|m: int| 0 <= m < v@.len() ==> v@[m] == v0[#[trigger] p[m]]);
    }
}

/// The draws of one shuffle of `n` elements: one per index from `n - 1` down to 1,
/// each asking for an index at or before it.
pub open spec fn shuffle_draws(log: Seq<(usize, usize)>, n: int) -> bool {
    &&& log.len() == shuffle_steps(n)
    &&& forall|k: int| 0 <= k < log.len() ==> (#[trigger] log[k]).0 == n - 1 - k
}

/// The indices returned by the draws of `log`.
pub open spec fn drawn_indices(log: Seq<(usize, usize)>) -> Seq<usize> {
    Seq::new(log.len(), |k: int| log[k].1)
}

/// Fisher-Yates shuffle: for `i` from the last index down to 1, draws an index in
/// `0..=i` from the generator and swaps element `i` with that element. The result
/// is the shuffle by exactly the indices drawn, and holds the same elements.
pub fn shuffle<T: Copy>(v: &mut Vec<T>, rng: &mut TerrainRng)
    ensures
        final(rng).draws@.len() >= old(rng).draws@.len(),
        final(rng).draws@.take(old(rng).draws@.len() as int) == old(rng).draws@,
        shuffle_draws(final(rng).draws@.skip(old(rng).draws@.len() as int), old(v)@.len() as int),
        final(v)@ == shuffled(
            old(v)@,
            drawn_indices(final(rng).draws@.skip(old(rng).draws@.len() as int)),
            shuffle_steps(old(v)@.len() as int),
        ),
        is_permutation_of(final(v)@, old(v)@),
{
    let ghost d0 = rng.draws@;
    let n = v.len();
    let mut picks: Vec<usize> = Vec::new();
    let mut i = n;
    while i > 1
        invariant
            i <= n,
            n <= 1 ==> i == n,
            n > 1 ==> i >= 1,
            picks@.len() == (if n > 1 { n - i } else { 0 }),
            rng.draws@.len() == d0.len() + picks@.len(),
            rng.draws@.take(d0.len() as int) == d0,
            forall|k: int|
                0 <= k < picks@.len() ==> #[trigger] picks@[k] <= n - 1 - k && rng.draws@[d0.len() + k] == (
                (n - 1 - k) as usize,
                picks@[k],
            ),
        decreases i,
    {
        i = i - 1;
        let ghost before = rng.draws@;
        let j = rng.random_index(i);
        picks.push(j);
        proof {
            assert(rng.draws@.take(d0.len() as int) =~= before.take(d0.len() as int));
        }
    }
    let ghost v0 = v@;
    let ghost log = rng.draws@.skip(d0.len() as int);
    proof {
        assert forall|k: int| 0 <= k < log.len() implies (#[trigger] log[k]).0 == n - 1 - k && log[k].1 == picks@[k] by {
            assert(picks@[k] <= n - 1 - k);
            assert(log[k] == rng.draws@[d0.len() + k]);
        }
        assert(log.len() == shuffle_steps(n as int));
        assert(drawn_indices(log) =~= picks@);
    }
    apply_shuffle_picks(v, &picks);
}

/// River sources closer than this squared distance (about 63 tiles) to an earlier
/// source are skipped.
pub const MIN_SOURCE_DIST_SQ: i64 = 4000;

/// Squared distance between cells (y1, x1) and (y2, x2).
pub open spec fn sq_dist(y1: int, x1: int, y2: int, x2: int) -> int {
    (y1 - y2) * (y1 - y2) + (x1 - x2) * (x1 - x2)
}

/// Whether a new river source at (sy, sx) is at least `MIN_SOURCE_DIST_SQ` (squared)
/// away from every earlier source.
pub fn far_from_sources(sources: &Vec<(usize, usize)>, sy: usize, sx: usize) -> (r: bool)
    requires
        sy <= i32::MAX,
        sx <= i32::MAX,
        forall|k: int| 0 <= k < sources@.len() ==> (#[trigger] sources@[k]).0 <= i32::MAX && sources@[k].1 <= i32::MAX,
    ensures
        r == forall|k: int|
            0 <= k < sources@.len() ==> sq_dist(sy as int, sx as int, (#[trigger] sources@[k]).0 as int, sources@[k].1 as int)
                >= MIN_SOURCE_DIST_SQ,
{
    let mut i: usize = 0;
    while i < sources.len()
        invariant
            i <= sources@.len(),
            sy <= i32::MAX,
            sx <= i32::MAX,
            forall|k: int| 0 <= k < sources@.len() ==> (#[trigger] sources@[k]).0 <= i32::MAX && sources@[k].1 <= i32::MAX,
            forall|k: int|
                0 <= k < i ==> sq_dist(sy as int, sx as int, (#[trigger] sources@[k]).0 as int, sources@[k].1 as int)
                    >= MIN_SOURCE_DIST_SQ,
        decreases sources@.len() - i,
    {
        let (oy, ox) = sources[i];
        let dy = sy as i64 - oy as i64;
        let dx = sx as i64 - ox as i64;
        proof {
            assert(dy * dy <= 0x3fff_ffff_0000_0001) by (nonlinear_arith)
                requires
                    -0x7fff_ffff <= dy <= 0x7fff_ffff,
            ;
            assert(dx * dx <= 0x3fff_ffff_0000_0001) by (nonlinear_arith)
                requires
                    -0x7fff_ffff <= dx <= 0x7fff_ffff,
            ;
            assert(0 <= dy * dy && 0 <= dx * dx) by (nonlinear_arith);
        }
        if dy * dy + dx * dx < MIN_SOURCE_DIST_SQ {
            return false;
        }
        i = i + 1;
    }
    true
}

/// How the water a shore cell borders is classified.
#[derive(Clone, Copy, PartialEq, Eq, Debug, Structural)]
pub enum ShoreWater {
    /// No labelled water nearby, or the ocean.
    Open,
    /// A water body of fewer than 40 cells.
    Pond,
    /// A water body of 40 to 149 cells.
    SmallLake,
    /// A water body of at least 150 cells.
    Lake,
}

/// Classifies the largest nearby water body (label `label`, `size` cells).
pub fn shore_water(label: u32, size: u32, ocean_label: u32) -> (r: ShoreWater)
    ensures
        r == (if label == 0 || label == ocean_label {
            ShoreWater::Open
        } else if size < 40 {
            ShoreWater::Pond
        } else if size < 150 {
            ShoreWater::SmallLake
        } else {
            ShoreWater::Lake
        }),
{
    if label == 0 || label == ocean_label {
        ShoreWater::Open
    } else if size < 40 {
        ShoreWater::Pond
    } else if size < 150 {
        ShoreWater::SmallLake
    } else {
        ShoreWater::Lake
    }
}

/// Size of water body `l`, 0 when `sizes` has no entry for it.
pub open spec fn size_of_label(sizes: Seq<u32>, l: int) -> u32 {
    if 0 <= l < sizes.len() {
        sizes[l]
    } else {
        0
    }
}

/// The (label, size) of the largest water body among the first `k` cells of the 5x5
/// window centred on (x, y), scanned row by row (dy, then dx, from -2 to 2), the
/// first strictly largest winning; (0, 0) when none of them is labelled water of
/// positive size.
pub open spec fn window_best(labels: Seq<u32>, sizes: Seq<u32>, w: int, h: int, x: int, y: int, k: int) -> (u32, u32)
    decreases k,
{
    if k <= 0 {
        (0u32, 0u32)
    } else {
        let prev = window_best(labels, sizes, w, h, x, y, k - 1);
        let ny = y + (k - 1) / 5 - 2;
        let nx = x + (k - 1) % 5 - 2;
        if 0 <= ny < h && 0 <= nx < w {
            let nl = labels[ny * w + nx];
            let ns = size_of_label(sizes, nl as int);
            if nl != 0 && ns > prev.1 {
                (nl, ns)
            } else {
                prev
            }
        } else {
            prev
        }
    }
}

/// The largest water body within two cells (Chebyshev) of (x, y): its label and
/// size, the first one met in row-by-row order on ties; (0, 0) when there is none.
pub fn dominant_water_label(labels: &Vec<u32>, sizes: &Vec<u32>, w: usize, h: usize, x: usize, y: usize) -> (r: (u32, u32))
    requires
        labels@.len() == w * h,
        x < w,
        y < h,
        w <= i32::MAX,
        h <= i32::MAX,
    ensures
        r == window_best(labels@, sizes@, w as int, h as int, x as int, y as int, 25),
{
    let n = labels.len();
    let mut best_label: u32 = 0;
    let mut best_size: u32 = 0;
    let mut k: usize = 0;
    while k < 25
        invariant
            k <= 25,
            n == w * h,
            labels@.len() == w * h,
            x < w,
            y < h,
            w <= i32::MAX,
            h <= i32::MAX,
            (best_label, best_size) == window_best(labels@, sizes@, w as int, h as int, x as int, y as int, k as int),
        decreases 25 - k,
    {
        let ny = y as i64 + (k / 5) as i64 - 2;
        let nx = x as i64 + (k % 5) as i64 - 2;
        if ny >= 0 && ny < h as i64 && nx >= 0 && nx < w as i64 {
            proof {
                crate::arith::lemma_cell_index(w as int, h as int, ny as int, nx as int);
            }
            let nl = labels[ny as usize * w + nx as usize];
            if nl != 0 {
                let ns = if (nl as usize) < sizes.len() { sizes[nl as usize] } else { 0 };
                if ns > best_size {
                    best_size = ns;
                    best_label = nl;
                }
            }
        }
        k = k + 1;
    }
    (best_label, best_size)
}

/// Whether a river cell at (ry, rx) of width class `width` (1 = one cell, 2 = plus
/// its four side neighbours, 3 = plus its diagonal neighbours too) covers (y, x).
pub open spec fn river_reaches(width: u8, ry: int, rx: int, y: int, x: int) -> bool {
    let dy = if y >= ry { y - ry } else { ry - y };
    let dx = if x >= rx { x - rx } else { rx - x };
    ||| dy == 0 && dx == 0
    ||| width >= 2 && dy + dx == 1
    ||| width >= 3 && dy == 1 && dx == 1
}

/// Cell (y, x) of a `w`-wide grid is covered by some river cell given its width class.
pub open spec fn widened(is_river: Seq<bool>, widths: Seq<u8>, w: int, h: int, y: int, x: int) -> bool {
    exists|ry: int, rx: int|
        0 <= ry < h && 0 <= rx < w && #[trigger] is_river[ry * w + rx] && river_reaches(widths[ry * w + rx], ry, rx, y, x)
}

/// Window position `k` (0..9) of the 3x3 block around (y, x): row offset `k / 3 - 1`,
/// column offset `k % 3 - 1`.
pub open spec fn covered_from_window(is_river: Seq<bool>, widths: Seq<u8>, w: int, h: int, y: int, x: int, k: int) -> bool {
    let ry = y + k / 3 - 1;
    let rx = x + k % 3 - 1;
    &&& 0 <= ry < h
    &&& 0 <= rx < w
    &&& is_river[ry * w + rx]
    &&& river_reaches(widths[ry * w + rx], ry, rx, y, x)
}

/// Widens rivers by their flow: every river cell stays water; one of width class 2
/// also floods its four side neighbours, one of class 3 its eight neighbours.
pub fn expand_rivers(is_river: &Vec<bool>, widths: &Vec<u8>, w: usize, h: usize) -> (r: Vec<bool>)
    requires
        is_river@.len() == w * h,
        widths@.len() == w * h,
        w <= i32::MAX,
        h <= i32::MAX,
    ensures
        r@.len() == w * h,
        forall|y: int, x: int|
            0 <= y < h && 0 <= x < w ==> r@[#[trigger] (y * w + x)] == widened(is_river@, widths@, w as int, h as int, y, x),
{
    let n = is_river.len();
    let mut r: Vec<bool> = Vec::new();
    let mut y: usize = 0;
    while y < h
        invariant
            y <= h,
            n == w * h,
            is_river@.len() == w * h,
            widths@.len() == w * h,
            w <= i32::MAX,
            h <= i32::MAX,
            r@.len() == y * w,
            forall|yy: int, xx: int|
                0 <= yy < h && 0 <= xx < w && yy * w + xx < y * w ==> r@[#[trigger] (yy * w + xx)] == widened(
                    is_river@,
                    widths@,
                    w as int,
                    h as int,
                    yy,
                    xx,
                ),
        decreases h - y,
    {
        let mut x: usize = 0;
        while x < w
            invariant
                y < h,
                x <= w,
                n == w * h,
                is_river@.len() == w * h,
                widths@.len() == w * h,
                w <= i32::MAX,
                h <= i32::MAX,
                r@.len() == y * w + x,
                forall|yy: int, xx: int|
                    0 <= yy < h && 0 <= xx < w && yy * w + xx < y * w + x ==> r@[#[trigger] (yy * w + xx)] == widened(
                        is_river@,
                        widths@,
                        w as int,
                        h as int,
                        yy,
                        xx,
                    ),
            decreases w - x,
        {
            let mut found = false;
            let mut k: usize = 0;
            while k < 9
                invariant
                    k <= 9,
                    y < h,
                    x < w,
                    n == w * h,
                    is_river@.len() == w * h,
                    widths@.len() == w * h,
                    w <= i32::MAX,
                    h <= i32::MAX,
                    found == exists|kk: int|
                        0 <= kk < k && #[trigger] covered_from_window(
                            is_river@,
                            widths@,
                            w as int,
                            h as int,
                            y as int,
                            x as int,
                            kk,
                        ),
                decreases 9 - k,
            {
                let ry = y as i64 + (k / 3) as i64 - 1;
                let rx = x as i64 + (k % 3) as i64 - 1;
                if ry >= 0 && ry < h as i64 && rx >= 0 && rx < w as i64 {
                    proof {
                        crate::arith::lemma_cell_index(w as int, h as int, ry as int, rx as int);
                    }
                    let ri = ry as usize * w + rx as usize;
                    if is_river[ri] {
                        let width = widths[ri];
                        let dy = if ry >= y as i64 { ry - y as i64 } else { y as i64 - ry };
                        let dx = if rx >= x as i64 { rx - x as i64 } else { x as i64 - rx };
                        if (dy == 0 && dx == 0) || (width >= 2 && dy + dx == 1) || (width >= 3 && dy == 1 && dx == 1) {
                            found = true;
                            proof {
                                assert(covered_from_window(
                                    is_river@,
                                    widths@,
                                    w as int,
                                    h as int,
                                    y as int,
                                    x as int,
                                    k as int,
                                ));
                            }
                        }
                    }
                }
                k = k + 1;
            }
            proof {
                let wi = w as int;
                let hi = h as int;
                if found {
                    let kk = choose|kk: int|
                        0 <= kk < 9 && #[trigger] covered_from_window(is_river@, widths@, wi, hi, y as int, x as int, kk);
                    let ry = y + kk / 3 - 1;
                    let rx = x + kk % 3 - 1;
                    assert(is_river@[ry * wi + rx] && river_reaches(widths@[ry * wi + rx], ry, rx, y as int, x as int));
                } else {
                    assert forall|ry: int, rx: int|
                        0 <= ry < hi && 0 <= rx < wi && #[trigger] is_river@[ry * wi + rx] implies !river_reaches(
                        widths@[ry * wi + rx],
                        ry,
                        rx,
                        y as int,
                        x as int,
                    ) by {
                        if river_reaches(widths@[ry * wi + rx], ry, rx, y as int, x as int) {
                            let kk = (ry - y + 1) * 3 + (rx - x + 1);
                            assert(kk / 3 == ry - y + 1 && kk % 3 == rx - x + 1);
                            assert(covered_from_window(is_river@, widths@, wi, hi, y as int, x as int, kk));
                        }
                    }
                }
                crate::arith::lemma_cell_index(wi, hi, y as int, x as int);
            }
            r.push(found);
            proof {
                assert forall|yy: int, xx: int|
                    0 <= yy < h && 0 <= xx < w && yy * w + xx < y * w + x + 1 implies r@[#[trigger] (yy * w + xx)]
                    == widened(is_river@, widths@, w as int, h as int, yy, xx) by {
                    if yy * w + xx == y * w + x {
                        crate::arith::lemma_cell_coords(w as int, yy, xx);
                        crate::arith::lemma_cell_coords(w as int, y as int, x as int);
                    }
                }
            }
            x = x + 1;
        }
        proof {
            assert((y + 1) * w == y * w + w) by (nonlinear_arith);
        }
        y = y + 1;
    }
    proof {
        assert(h * w == w * h) by (nonlinear_arith);
        assert forall|yy: int, xx: int| 0 <= yy < h && 0 <= xx < w implies r@[#[trigger] (yy * w + xx)] == widened(
            is_river@,
            widths@,
            w as int,
            h as int,
            yy,
            xx,
        ) by {
            assert(yy * w + xx < h * w) by (nonlinear_arith)
                requires
                    yy < h,
                    xx < w,
            ;
        }
    }
    r
}

/// The cell reached from `start` after following `prev` links `k` times.
pub open spec fn chain(prev: Seq<usize>, start: int, k: nat) -> int
    decreases k,
{
    if k == 0 {
        start
    } else {
        prev[chain(prev, start, (k - 1) as nat)] as int
    }
}

/// The walk back from `start` stops at its `k`-th cell: that cell links to itself,
/// or it is the search's source `source` (reached after at least one step).
pub open spec fn walk_stops(prev: Seq<usize>, start: int, source: int, k: nat) -> bool {
    ||| prev[chain(prev, start, k)] as int == chain(prev, start, k)
    ||| (k > 0 && chain(prev, start, k) == source)
}

/// The walk back from `start` stops within `m` steps, every cell on the way being
/// an index of `prev`.
pub open spec fn walk_ends_within(prev: Seq<usize>, start: int, source: int, m: nat) -> bool {
    &&& walk_stops(prev, start, source, m)
    &&& forall|k: nat| k <= m ==> 0 <= #[trigger] chain(prev, start, k) < prev.len()
}

/// Rebuilds a search path from its `prev` links: walks back from `target` until a
/// cell that links to itself or the search's `source`, and returns the cells from
/// that end to `target`.
pub fn trace_path(prev: &Vec<usize>, target: usize, source: usize) -> (path: Vec<usize>)
    requires
        exists|m: nat| walk_ends_within(prev@, target as int, source as int, m),
    ensures
        path@.len() >= 1,
        walk_stops(prev@, target as int, source as int, (path@.len() - 1) as nat),
        forall|k: nat| k < path@.len() - 1 ==> !#[trigger] walk_stops(prev@, target as int, source as int, k),
        forall|i: int|
            0 <= i < path@.len() ==> #[trigger] path@[i] as int == chain(
                prev@,
                target as int,
                (path@.len() - 1 - i) as nat,
            ),
{
    let ghost m = choose|m: nat| walk_ends_within(prev@, target as int, source as int, m);
    let ghost t = target as int;
    let ghost s = source as int;
    let mut back: Vec<usize> = Vec::new();
    back.push(target);
    let mut cur = target;
    proof {
        assert(chain(prev@, t, 0) == t);
    }
    loop
        invariant_except_break
            t == target as int,
            s == source as int,
            back@.len() >= 1,
            back@.len() - 1 <= m,
            walk_ends_within(prev@, t, s, m),
            cur as int == chain(prev@, t, (back@.len() - 1) as nat),
            back@.len() > 1 ==> cur != source,
            forall|k: nat| k < back@.len() - 1 ==> !#[trigger] walk_stops(prev@, t, s, k),
            forall|i: int| 0 <= i < back@.len() ==> #[trigger] back@[i] as int == chain(prev@, t, i as nat),
        ensures
            back@.len() >= 1,
            walk_stops(prev@, t, s, (back@.len() - 1) as nat),
            forall|k: nat| k < back@.len() - 1 ==> !#[trigger] walk_stops(prev@, t, s, k),
            forall|i: int| 0 <= i < back@.len() ==> #[trigger] back@[i] as int == chain(prev@, t, i as nat),
        decreases m - (back@.len() - 1),
    {
        let ghost k = (back@.len() - 1) as nat;
        proof {
            assert(0 <= chain(prev@, t, k) < prev@.len());
        }
        let p = prev[cur];
        if p == cur {
            break;
        }
        proof {
            assert(!walk_stops(prev@, t, s, k));
            assert(k < m);
        }
        cur = p;
        back.push(cur);
        proof {
            assert(chain(prev@, t, (k + 1) as nat) == p);
        }
        if cur == source {
            break;
        }
    }
    let mut path: Vec<usize> = Vec::new();
    let mut i = back.len();
    while i > 0
        invariant
            i <= back@.len(),
            path@.len() == back@.len() - i,
            forall|j: int| 0 <= j < path@.len() ==> #[trigger] path@[j] == back@[back@.len() - 1 - j],
        decreases i,
    {
        i = i - 1;
        path.push(back[i]);
    }
    path
}

/// Cells `a` and `b` of a `w`-wide grid are diagonal neighbours.
pub open spec fn diagonal_step(a: int, b: int, w: int) -> bool {
    let dy = a / w - b / w;
    let dx = a % w - b % w;
    (dy == 1 || dy == -1) && (dx == 1 || dx == -1)
}

/// The cells a river along the first `k` steps of `path` turns into water: each
/// step's starting cell, then, for a diagonal step, the two cells at the corners it
/// cuts (same row as the start and column of the end, then the reverse), so that
/// the river stays 4-connected.
pub open spec fn river_cells_spec(path: Seq<usize>, w: int, k: int) -> Seq<usize>
    decreases k,
{
    if k <= 0 {
        Seq::empty()
    } else {
        let prev = river_cells_spec(path, w, k - 1);
        let a = path[k - 1] as int;
        let b = path[k] as int;
        let with_start = prev.push(a as usize);
        if diagonal_step(a, b, w) {
            with_start.push(((a / w) * w + b % w) as usize).push(((b / w) * w + a % w) as usize)
        } else {
            with_start
        }
    }
}

/// Row of cell `c` in a `w`-wide row-major grid.
pub open spec fn row_of(c: usize, w: int) -> int {
    c as int / w
}

/// Column of cell `c` in a `w`-wide row-major grid.
pub open spec fn col_of(c: usize, w: int) -> int {
    c as int % w
}

/// What the river cells of the first `k` steps of `path` hold: each step's start
/// cell and, for a step whose row and column both change by one, both corner cells
/// (start row, end column) and (end row, start column); and nothing else.
proof fn lemma_river_cells_prefix(path: Seq<usize>, w: int, k: int)
    requires
        0 <= k < path.len(),
        0 < w,
    ensures
        forall|i: int| 0 <= i < k ==> river_cells_spec(path, w, k).contains(#[trigger] path[i]),
        forall|i: int|
            0 <= i < k && (row_of(path[i], w) - row_of(path[i + 1], w) == 1 || row_of(path[i], w) - row_of(path[i + 1], w) == -1) && (col_of(path[i], w) - col_of(path[i + 1], w) == 1 || col_of(path[i], w) - col_of(path[i + 1], w) == -1) ==> river_cells_spec(
                path,
                w,
                k,
            ).contains(((row_of(#[trigger] path[i], w)) * w + col_of(path[i + 1], w)) as usize) && river_cells_spec(
                path,
                w,
                k,
            ).contains(((row_of(path[i + 1], w)) * w + col_of(path[i], w)) as usize),
        forall|c: usize|
            #[trigger] river_cells_spec(path, w, k).contains(c) ==> exists|i: int|
                0 <= i < k && (c == #[trigger] path[i] || ((row_of(path[i], w) - row_of(path[i + 1], w) == 1 || row_of(path[i], w)
                    - row_of(path[i + 1], w) == -1) && (col_of(path[i], w) - col_of(path[i + 1], w) == 1 || col_of(path[i], w) - col_of(path[i + 1], w) == -1) && (c == ((row_of(path[i], w)) * w + col_of(path[i + 1], w)) as usize || c == ((row_of(path[i + 1], w))
                    * w + col_of(path[i], w)) as usize))),
    decreases k,
{
    if k > 0 {
        lemma_river_cells_prefix(path, w, k - 1);
        let prev = river_cells_spec(path, w, k - 1);
        let cur = river_cells_spec(path, w, k);
        let a = path[k - 1] as int;
        let b = path[k] as int;
        let with_start = prev.push(a as usize);
        let c1 = ((a / w) * w + b % w) as usize;
        let c2 = ((b / w) * w + a % w) as usize;
        // `cur` extends `prev`, and its new entries are `a` and, on a diagonal step, the corners.
        assert(cur.len() >= prev.len() + 1);
        assert forall|j: int| 0 <= j < prev.len() implies #[trigger] cur[j] == prev[j] by {
            if diagonal_step(a, b, w) {
                assert(cur == with_start.push(c1).push(c2));
            }
        }
        assert(cur[prev.len() as int] == a as usize);
        if diagonal_step(a, b, w) {
            assert(cur == with_start.push(c1).push(c2));
            assert(cur[prev.len() as int + 1] == c1);
            assert(cur[prev.len() as int + 2] == c2);
            assert(cur.len() == prev.len() + 3);
        } else {
            assert(cur.len() == prev.len() + 1);
        }
        assert forall|i: int| 0 <= i < k implies cur.contains(#[trigger] path[i]) by {
            if i < k - 1 {
                assert(prev.contains(path[i]));
                let j = choose|j: int| 0 <= j < prev.len() && prev[j] == path[i];
                assert(cur[j] == path[i]);
            } else {
                assert(cur[prev.len() as int] == path[i]);
            }
        }
        assert forall|i: int|
            0 <= i < k && (row_of(path[i], w) - row_of(path[i + 1], w) == 1 || row_of(path[i], w) - row_of(path[i + 1], w) == -1) && (col_of(path[i], w) - col_of(path[i + 1], w) == 1 || col_of(path[i], w) - col_of(path[i + 1], w) == -1) implies cur.contains(
            ((row_of(#[trigger] path[i], w)) * w + col_of(path[i + 1], w)) as usize,
        ) && cur.contains(((row_of(path[i + 1], w)) * w + col_of(path[i], w)) as usize) by {
            let d1 = ((row_of(path[i], w)) * w + col_of(path[i + 1], w)) as usize;
            let d2 = ((row_of(path[i + 1], w)) * w + col_of(path[i], w)) as usize;
            if i < k - 1 {
                assert(prev.contains(d1) && prev.contains(d2));
                let j1 = choose|j: int| 0 <= j < prev.len() && prev[j] == d1;
                let j2 = choose|j: int| 0 <= j < prev.len() && prev[j] == d2;
                assert(cur[j1] == d1);
                assert(cur[j2] == d2);
            } else {
                assert(diagonal_step(a, b, w));
                assert(cur[prev.len() as int + 1] == d1);
                assert(cur[prev.len() as int + 2] == d2);
            }
        }
        assert forall|c: usize| #[trigger] cur.contains(c) implies exists|i: int|
            0 <= i < k && (c == #[trigger] path[i] || ((row_of(path[i], w) - row_of(path[i + 1], w) == 1 || row_of(path[i], w)
                - row_of(path[i + 1], w) == -1) && (col_of(path[i], w) - col_of(path[i + 1], w) == 1 || col_of(path[i], w) - col_of(path[i + 1], w) == -1) && (c == ((row_of(path[i], w)) * w + col_of(path[i + 1], w)) as usize || c == ((row_of(path[i + 1], w))
                * w + col_of(path[i], w)) as usize))) by {
            let j = choose|j: int| 0 <= j < cur.len() && cur[j] == c;
            if j < prev.len() {
                assert(prev[j] == c);
                assert(prev.contains(c));
            } else {
                assert(path[k - 1] == a as usize);
                if j == prev.len() {
                    assert(c == path[k - 1]);
                } else {
                    assert(diagonal_step(a, b, w));
                    assert(c == c1 || c == c2);
                    assert(row_of(path[k - 1], w) - row_of(path[k], w) == 1 || row_of(path[k - 1], w) - row_of(path[k], w) == -1);
                }
            }
        }
    }
}

/// A river is a 4-connected walk: the cells that `river_cells` gives hold every cell
/// of the path but the last and, for each step whose row and column both change by
/// one (in either direction), both corner cells (start row, end column) and (end
/// row, start column), so consecutive cells share a side; and they hold no other cell.
pub proof fn law_river_is_four_connected(path: Seq<usize>, w: int)
    requires
        path.len() >= 1,
        0 < w,
    ensures
        forall|i: int|
            0 <= i < path.len() - 1 ==> river_cells_spec(path, w, path.len() - 1).contains(#[trigger] path[i]),
        forall|i: int|
            0 <= i < path.len() - 1 && (row_of(path[i], w) - row_of(path[i + 1], w) == 1 || row_of(path[i], w) - row_of(path[i + 1], w) == -1)
                && (col_of(path[i], w) - col_of(path[i + 1], w) == 1 || col_of(path[i], w) - col_of(path[i + 1], w) == -1) ==> river_cells_spec(
                path,
                w,
                path.len() - 1,
            ).contains(((row_of(#[trigger] path[i], w)) * w + col_of(path[i + 1], w)) as usize) && river_cells_spec(
                path,
                w,
                path.len() - 1,
            ).contains(((row_of(path[i + 1], w)) * w + col_of(path[i], w)) as usize),
        forall|c: usize|
            #[trigger] river_cells_spec(path, w, path.len() - 1).contains(c) ==> exists|i: int|
                0 <= i < path.len() - 1 && (c == #[trigger] path[i] || ((row_of(path[i], w) - row_of(path[i + 1], w) == 1
                    || row_of(path[i], w) - row_of(path[i + 1], w) == -1) && (col_of(path[i], w) - col_of(path[i + 1], w) == 1 || col_of(path[i], w)
                    - col_of(path[i + 1], w) == -1) && (c == ((row_of(path[i], w)) * w + col_of(path[i + 1], w)) as usize || c == ((row_of(path[i
                    + 1], w)) * w + col_of(path[i], w)) as usize))),
{
    lemma_river_cells_prefix(path, w, path.len() - 1);
}

/// The cells to turn into river along `path` (cell indices of a `w` by `h` grid):
/// every cell but the last, plus the two corner cells of each diagonal step.
pub fn river_cells(path: &Vec<usize>, w: usize, h: usize) -> (cells: Vec<usize>)
    requires
        path@.len() >= 1,
        0 < w <= i32::MAX,
        h <= i32::MAX,
        w * h <= usize::MAX,
        forall|i: int| 0 <= i < path@.len() ==> #[trigger] path@[i] < w * h,
    ensures
        cells@ == river_cells_spec(path@, w as int, path@.len() - 1),
        forall|i: int| 0 <= i < cells@.len() ==> #[trigger] cells@[i] < w * h,
{
    let mut cells: Vec<usize> = Vec::new();
    let steps = path.len() - 1;
    let mut i: usize = 0;
    while i < steps
        invariant
            steps == path@.len() - 1,
            i <= steps,
            0 < w <= i32::MAX,
            h <= i32::MAX,
            w * h <= usize::MAX,
            forall|j: int| 0 <= j < path@.len() ==> #[trigger] path@[j] < w * h,
            cells@ == river_cells_spec(path@, w as int, i as int),
            forall|j: int| 0 <= j < cells@.len() ==> #[trigger] cells@[j] < w * h,
        decreases path@.len() - i,
    {
        let a = path[i];
        let b = path[i + 1];
        cells.push(a);
        proof {
            crate::arith::lemma_index_split(w as int, h as int, a as int);
            crate::arith::lemma_index_split(w as int, h as int, b as int);
        }
        let ry = a / w;
        let rx = a % w;
        let ny = b / w;
        let nx = b % w;
        let dy = ry as i64 - ny as i64;
        let dx = rx as i64 - nx as i64;
        if (dy == 1 || dy == -1) && (dx == 1 || dx == -1) {
            proof {
                crate::arith::lemma_cell_index(w as int, h as int, ry as int, nx as int);
                crate::arith::lemma_cell_index(w as int, h as int, ny as int, rx as int);
            }
            cells.push(ry * w + nx);
            cells.push(ny * w + rx);
        }
        i = i + 1;
    }
    cells
}

/// The cells among the first `k` whose label is `l`, in increasing order.
pub open spec fn cells_labelled(labels: Seq<u32>, l: int, k: int) -> Seq<usize>
    decreases k,
{
    if k <= 0 {
        Seq::empty()
    } else {
        let prev = cells_labelled(labels, l, k - 1);
        if labels[k - 1] as int == l {
            prev.push((k - 1) as usize)
        } else {
            prev
        }
    }
}

/// Groups the cells of each lake by label: entry `l` (for each of the `num_labels`
/// labels) lists, in increasing order, the cells labelled `l`, for every label but
/// 0 (land) and the ocean's; those two entries stay empty.
pub fn lake_cells(labels: &Vec<u32>, num_labels: usize, ocean_label: u32) -> (lists: Vec<Vec<usize>>)
    ensures
        lists@.len() == num_labels,
        forall|l: int|
            0 <= l < num_labels ==> (#[trigger] lists@[l])@ == (if l != 0 && l != ocean_label {
                cells_labelled(labels@, l, labels@.len() as int)
            } else {
                Seq::empty()
            }),
{
    let mut lists: Vec<Vec<usize>> = Vec::new();
    let mut l: usize = 0;
    while l < num_labels
        invariant
            l <= num_labels,
            lists@.len() == l,
            forall|j: int| 0 <= j < l ==> (#[trigger] lists@[j])@ == Seq::<usize>::empty(),
        decreases num_labels - l,
    {
        lists.push(Vec::new());
        l = l + 1;
    }
    let mut i: usize = 0;
    while i < labels.len()
        invariant
            i <= labels@.len(),
            lists@.len() == num_labels,
            forall|j: int|
                0 <= j < num_labels ==> (#[trigger] lists@[j])@ == (if j != 0 && j != ocean_label {
                    cells_labelled(labels@, j, i as int)
                } else {
                    Seq::empty()
                }),
        decreases labels@.len() - i,
    {
        let lb = labels[i];
        if lb > 0 && lb != ocean_label && (lb as usize) < lists.len() {
            lists[lb as usize].push(i);
        }
        i = i + 1;
    }
    lists
}

} // verus!

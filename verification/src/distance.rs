use vstd::prelude::*;

use crate::arith::{lemma_cell_coords, lemma_cell_index, lemma_cell_shift, lemma_index_split};

verus! {

/// Distance given to cells from which no masked cell can be reached.
pub const UNREACHED: u32 = 0xffff_ffff;

/// The value of row-major grid `s` (width `w`) at row `y`, column `x`.
pub open spec fn grid_at<T>(s: Seq<T>, w: int, y: int, x: int) -> T {
    s[y * w + x]
}

pub open spec fn abs_diff(a: int, b: int) -> int {
    if a >= b { a - b } else { b - a }
}

/// Chebyshev (chessboard) distance between cells (ay, ax) and (by, bx).
pub open spec fn cheb(ay: int, ax: int, by: int, bx: int) -> int {
    let dy = abs_diff(ay, by);
    let dx = abs_diff(ax, bx);
    if dy >= dx { dy } else { dx }
}

/// `dist` holds, for every cell of the w-by-h grid, the Chebyshev distance to the
/// nearest masked cell, and `UNREACHED` for every cell when no cell is masked.
pub open spec fn is_distance_map(mask: Seq<bool>, w: int, h: int, dist: Seq<u32>) -> bool {
    &&& dist.len() == w * h
    &&& forall|py: int, px: int, qy: int, qx: int|
        0 <= py < h && 0 <= px < w && 0 <= qy < h && 0 <= qx < w && #[trigger] grid_at(mask, w, qy, qx)
            ==> #[trigger] grid_at(dist, w, py, px) <= cheb(py, px, qy, qx)
    &&& forall|py: int, px: int|
        0 <= py < h && 0 <= px < w ==> #[trigger] grid_at(dist, w, py, px) == UNREACHED || exists|qy: int, qx: int|
            0 <= qy < h && 0 <= qx < w && #[trigger] grid_at(mask, w, qy, qx) && grid_at(dist, w, py, px)
                == cheb(py, px, qy, qx)
}

/// `v + 1`, staying at `UNREACHED` once there.
fn sat_inc(v: u32) -> (r: u32)
    ensures
        r == (if v == UNREACHED { v as int } else { v + 1 }),
{
    if v == UNREACHED {
        v
    } else {
        v + 1
    }
}

// ----- local conditions left behind by the two sweeps -----

/// After the forward sweep: a cell is at most one more than each neighbour that the
/// sweep visits before it (up-left, up, up-right, left), and masked cells hold 0.
spec fn forward_ok(mask: Seq<bool>, d: Seq<u32>, w: int, i: int) -> bool {
    let y = i / w;
    let x = i % w;
    &&& (mask[i] ==> d[i] == 0)
    &&& (y > 0 && x > 0 ==> d[i] <= d[i - w - 1] + 1)
    &&& (y > 0 ==> d[i] <= d[i - w] + 1)
    &&& (y > 0 && x + 1 < w ==> d[i] <= d[i - w + 1] + 1)
    &&& (x > 0 ==> d[i] <= d[i - 1] + 1)
}

/// After the backward sweep: a cell is at most its forward value and at most one more
/// than each neighbour that the backward sweep visits before it.
spec fn backward_ok(d1: Seq<u32>, d: Seq<u32>, w: int, h: int, i: int) -> bool {
    let y = i / w;
    let x = i % w;
    &&& d[i] <= d1[i]
    &&& (y + 1 < h && x > 0 ==> d[i] <= d[i + w - 1] + 1)
    &&& (y + 1 < h ==> d[i] <= d[i + w] + 1)
    &&& (y + 1 < h && x + 1 < w ==> d[i] <= d[i + w + 1] + 1)
    &&& (x + 1 < w ==> d[i] <= d[i + 1] + 1)
}

/// A finite value is at least the distance to some masked cell.
spec fn sound_at(mask: Seq<bool>, d: Seq<u32>, w: int, h: int, i: int) -> bool {
    d[i] == UNREACHED || exists|qy: int, qx: int|
        0 <= qy < h && 0 <= qx < w && #[trigger] grid_at(mask, w, qy, qx) && cheb(i / w, i % w, qy, qx) <= d[i]
}

/// `q` can be reached from `p` by steps of the forward sweep.
spec fn forward_reach(py: int, px: int, qy: int, qx: int) -> bool {
    let dy = py - qy;
    let dx = px - qx;
    (dy > 0 && -dx <= dy) || (dy == 0 && dx >= 0)
}

spec fn max2(a: int, b: int) -> int {
    if a >= b { a } else { b }
}

// ----- step lemmas -----

/// Taking the smaller of a sound value and one more than a neighbour's sound value
/// keeps the value sound.
proof fn lemma_min_step_sound(mask: Seq<bool>, w: int, h: int, y: int, x: int, cur: u32, v: u32, ny: int, nx: int, r: u32)
    requires
        0 <= ny < h && 0 <= nx < w,
        abs_diff(y, ny) <= 1 && abs_diff(x, nx) <= 1,
        cur == UNREACHED || exists|qy: int, qx: int|
            0 <= qy < h && 0 <= qx < w && #[trigger] grid_at(mask, w, qy, qx) && cheb(y, x, qy, qx) <= cur,
        v == UNREACHED || exists|qy: int, qx: int|
            0 <= qy < h && 0 <= qx < w && #[trigger] grid_at(mask, w, qy, qx) && cheb(ny, nx, qy, qx) <= v,
        r == (if cur <= (if v == UNREACHED { v as int } else { v + 1 }) { cur as int } else { if v == UNREACHED { v as int } else { v + 1 } }),
    ensures
        r == UNREACHED || exists|qy: int, qx: int|
            0 <= qy < h && 0 <= qx < w && #[trigger] grid_at(mask, w, qy, qx) && cheb(y, x, qy, qx) <= r,
{
    if r != cur && v != UNREACHED {
        let (qy, qx) = choose|qy: int, qx: int|
            0 <= qy < h && 0 <= qx < w && #[trigger] grid_at(mask, w, qy, qx) && cheb(ny, nx, qy, qx) <= v;
        assert(cheb(y, x, qy, qx) <= cheb(ny, nx, qy, qx) + 1);
    }
}

/// Coordinates of the row-major index `y * w + x`.
proof fn lemma_coords(w: int, h: int, y: int, x: int)
    requires
        0 <= y < h,
        0 <= x < w,
    ensures
        (y * w + x) / w == y,
        (y * w + x) % w == x,
        0 <= y * w + x < w * h,
{
    lemma_cell_coords(w, y, x);
    lemma_cell_index(w, h, y, x);
}

/// Index facts for the eight neighbours of cell (y, x).
proof fn lemma_neighbourhood(w: int, h: int, y: int, x: int)
    requires
        0 <= y < h,
        0 <= x < w,
    ensures
        (y * w + x) / w == y,
        (y * w + x) % w == x,
        0 <= y * w + x < w * h,
        y > 0 ==> 0 <= y * w + x - w < w * h && (y - 1) * w + x == y * w + x - w,
        y + 1 < h ==> 0 <= y * w + x + w < w * h && (y + 1) * w + x == y * w + x + w,
        y > 0 && x > 0 ==> 0 <= y * w + x - w - 1,
        y > 0 && x + 1 < w ==> 0 <= y * w + x - w + 1,
        y + 1 < h && x > 0 ==> y * w + x + w - 1 < w * h,
        y + 1 < h && x + 1 < w ==> y * w + x + w + 1 < w * h,
        x + 1 < w ==> y * w + x + 1 < w * h,
{
    lemma_coords(w, h, y, x);
    lemma_cell_shift(w, y, x);
    if y > 0 {
        lemma_coords(w, h, y - 1, x);
        if x > 0 {
            lemma_coords(w, h, y - 1, x - 1);
        }
        if x + 1 < w {
            lemma_coords(w, h, y - 1, x + 1);
        }
    }
    if y + 1 < h {
        lemma_coords(w, h, y + 1, x);
        if x > 0 {
            lemma_coords(w, h, y + 1, x - 1);
        }
        if x + 1 < w {
            lemma_coords(w, h, y + 1, x + 1);
        }
    }
    if x + 1 < w {
        lemma_coords(w, h, y, x + 1);
    }
}

// ----- the two sweeps -----

/// The forward-sweep value of cell (y, x): the smallest of its current value and one
/// more than each already-visited neighbour.
fn forward_cell(mask: &[bool], dist: &Vec<u32>, w: usize, h: usize, y: usize, x: usize) -> (d: u32)
    requires
        mask@.len() == w * h,
        dist@.len() == w * h,
        y < h,
        x < w,
        forall|i: int| 0 <= i < w * h ==> #[trigger] sound_at(mask@, dist@, w as int, h as int, i),
    ensures
        ({
            let i = y * w + x;
            &&& d <= dist@[i]
            &&& (y > 0 && x > 0 ==> d <= dist@[i - w - 1] + 1)
            &&& (y > 0 ==> d <= dist@[i - w] + 1)
            &&& (y > 0 && x + 1 < w ==> d <= dist@[i - w + 1] + 1)
            &&& (x > 0 ==> d <= dist@[i - 1] + 1)
        }),
        d == UNREACHED || exists|qy: int, qx: int|
            0 <= qy < h && 0 <= qx < w && #[trigger] grid_at(mask@, w as int, qy, qx) && cheb(y as int, x as int, qy, qx) <= d,
{
    let ghost m = mask@;
    let ghost wi = w as int;
    let ghost hi = h as int;
    let n = mask.len();
    proof {
        lemma_coords(wi, hi, y as int, x as int);
        lemma_cell_shift(wi, y as int, x as int);
    }
    let i = y * w + x;
    let mut d = dist[i];
    proof {
        assert(sound_at(m, dist@, wi, hi, i as int));
    }
    if y > 0 {
        proof {
            lemma_coords(wi, hi, y - 1, x as int);
        }
        if x > 0 {
            let v = dist[i - w - 1];
            let s = sat_inc(v);
            let ghost dold = d;
            d = if d <= s { d } else { s };
            proof {
                lemma_coords(wi, hi, y - 1, x - 1);
                assert(sound_at(m, dist@, wi, hi, i - w - 1));
                lemma_min_step_sound(m, wi, hi, y as int, x as int, dold, v, y - 1, x - 1, d);
            }
        }
        let v = dist[i - w];
        let s = sat_inc(v);
        let ghost dold = d;
        d = if d <= s { d } else { s };
        proof {
            assert(sound_at(m, dist@, wi, hi, i - w));
            lemma_min_step_sound(m, wi, hi, y as int, x as int, dold, v, y - 1, x as int, d);
        }
        if x + 1 < w {
            let v = dist[i - w + 1];
            let s = sat_inc(v);
            let ghost dold = d;
            d = if d <= s { d } else { s };
            proof {
                lemma_coords(wi, hi, y - 1, x + 1);
                assert(sound_at(m, dist@, wi, hi, i - w + 1));
                lemma_min_step_sound(m, wi, hi, y as int, x as int, dold, v, y - 1, x + 1, d);
            }
        }
    }
    if x > 0 {
        let v = dist[i - 1];
        let s = sat_inc(v);
        let ghost dold = d;
        d = if d <= s { d } else { s };
        proof {
            lemma_coords(wi, hi, y as int, x - 1);
            assert(sound_at(m, dist@, wi, hi, i - 1));
            lemma_min_step_sound(m, wi, hi, y as int, x as int, dold, v, y as int, x - 1, d);
        }
    }
    d
}

/// Initial distances (0 on masked cells, `UNREACHED` elsewhere) followed by the
/// forward sweep in row-major order.
fn forward_sweep(mask: &[bool], w: usize, h: usize) -> (d: Vec<u32>)
    requires
        mask@.len() == w * h,
    ensures
        d@.len() == w * h,
        forall|i: int| 0 <= i < w * h ==> #[trigger] forward_ok(mask@, d@, w as int, i),
        forall|i: int| 0 <= i < w * h ==> #[trigger] sound_at(mask@, d@, w as int, h as int, i),
{
    let n = mask.len();
    let ghost m = mask@;
    let ghost wi = w as int;
    let ghost hi = h as int;
    let mut dist: Vec<u32> = Vec::new();
    let mut k: usize = 0;
    while k < n
        invariant
            k <= n,
            n == mask@.len(),
            dist@.len() == k,
            forall|i: int| 0 <= i < k ==> dist@[i] == (if mask@[i] { 0u32 } else { UNREACHED }),
        decreases n - k,
    {
        dist.push(if mask[k] { 0 } else { UNREACHED });
        k = k + 1;
    }
    proof {
        assert forall|i: int| 0 <= i < n implies #[trigger] sound_at(m, dist@, wi, hi, i) by {
            if m[i] {
                assert(w > 0) by (nonlinear_arith)
                    requires
                        0 <= i < w * h,
                ;
                lemma_index_split(wi, hi, i);
                assert(grid_at(m, wi, i / wi, i % wi));
            }
        }
    }
    let mut y: usize = 0;
    while y < h
        invariant
            y <= h,
            n == mask@.len(),
            n == w * h,
            m == mask@,
            wi == w,
            hi == h,
            dist@.len() == n,
            forall|i: int| 0 <= i < y * w ==> #[trigger] forward_ok(m, dist@, wi, i),
            forall|i: int| y * w <= i < n ==> dist@[i] == (if m[i] { 0u32 } else { UNREACHED }),
            forall|i: int| 0 <= i < n ==> #[trigger] sound_at(m, dist@, wi, hi, i),
        decreases h - y,
    {
        let mut x: usize = 0;
        proof {
            assert(y * w + w <= w * h) by (nonlinear_arith)
                requires
                    y < h,
            ;
        }
        while x < w
            invariant
                y < h,
                x <= w,
                n == mask@.len(),
                n == w * h,
                m == mask@,
                wi == w,
                hi == h,
                dist@.len() == n,
                y * w + w <= n,
                forall|i: int| 0 <= i < y * w + x ==> #[trigger] forward_ok(m, dist@, wi, i),
                forall|i: int| y * w + x <= i < n ==> dist@[i] == (if m[i] { 0u32 } else { UNREACHED }),
                forall|i: int| 0 <= i < n ==> #[trigger] sound_at(m, dist@, wi, hi, i),
            decreases w - x,
        {
            let d = forward_cell(mask, &dist, w, h, y, x);
            let i = y * w + x;
            let ghost d0 = dist@;
            dist.set(i, d);
            proof {
                lemma_forward_update(m, d0, dist@, wi, hi, y as int, x as int, d);
            }
            x = x + 1;
        }
        proof {
            assert((y + 1) * w == y * w + w) by (nonlinear_arith);
        }
        y = y + 1;
    }
    dist
}

/// Writing the forward value of cell (y, x) extends the forward-sweep conditions to it
/// and keeps every cell sound.
proof fn lemma_forward_update(m: Seq<bool>, d0: Seq<u32>, d1: Seq<u32>, w: int, h: int, y: int, x: int, d: u32)
    requires
        0 <= y < h,
        0 <= x < w,
        m.len() == w * h,
        d0.len() == w * h,
        d1 == d0.update(y * w + x, d),
        forall|i: int| 0 <= i < y * w + x ==> #[trigger] forward_ok(m, d0, w, i),
        forall|i: int| y * w + x <= i < w * h ==> d0[i] == (if m[i] { 0u32 } else { UNREACHED }),
        forall|i: int| 0 <= i < w * h ==> #[trigger] sound_at(m, d0, w, h, i),
        ({
            let i = y * w + x;
            &&& d <= d0[i]
            &&& (y > 0 && x > 0 ==> d <= d0[i - w - 1] + 1)
            &&& (y > 0 ==> d <= d0[i - w] + 1)
            &&& (y > 0 && x + 1 < w ==> d <= d0[i - w + 1] + 1)
            &&& (x > 0 ==> d <= d0[i - 1] + 1)
        }),
        d == UNREACHED || exists|qy: int, qx: int|
            0 <= qy < h && 0 <= qx < w && #[trigger] grid_at(m, w, qy, qx) && cheb(y, x, qy, qx) <= d,
    ensures
        forall|i: int| 0 <= i < y * w + x + 1 ==> #[trigger] forward_ok(m, d1, w, i),
        forall|i: int| y * w + x + 1 <= i < w * h ==> d1[i] == (if m[i] { 0u32 } else { UNREACHED }),
        forall|i: int| 0 <= i < w * h ==> #[trigger] sound_at(m, d1, w, h, i),
{
    let i = y * w + x;
    lemma_coords(w, h, y, x);
    lemma_cell_shift(w, y, x);
    if y > 0 {
        lemma_coords(w, h, y - 1, x);
    }
    assert(forward_ok(m, d1, w, i));
    assert forall|j: int| 0 <= j < i + 1 implies #[trigger] forward_ok(m, d1, w, j) by {
        if j < i {
            assert(forward_ok(m, d0, w, j));
            lemma_index_split(w, h, j);
            lemma_cell_shift(w, j / w, j % w);
            if j / w > 0 {
                lemma_coords(w, h, j / w - 1, j % w);
            }
        }
    }
    assert forall|j: int| 0 <= j < w * h implies #[trigger] sound_at(m, d1, w, h, j) by {
        if j != i {
            assert(sound_at(m, d0, w, h, j));
        }
    }
}

/// The backward-sweep value of cell (y, x): the smallest of its current value and one
/// more than each neighbour the backward sweep has already visited.
fn backward_cell(mask: &[bool], dist: &Vec<u32>, w: usize, h: usize, y: usize, x: usize) -> (d: u32)
    requires
        mask@.len() == w * h,
        dist@.len() == w * h,
        y < h,
        x < w,
        forall|i: int| 0 <= i < w * h ==> #[trigger] sound_at(mask@, dist@, w as int, h as int, i),
    ensures
        ({
            let i = y * w + x;
            &&& d <= dist@[i]
            &&& (y + 1 < h && x > 0 ==> d <= dist@[i + w - 1] + 1)
            &&& (y + 1 < h ==> d <= dist@[i + w] + 1)
            &&& (y + 1 < h && x + 1 < w ==> d <= dist@[i + w + 1] + 1)
            &&& (x + 1 < w ==> d <= dist@[i + 1] + 1)
        }),
        d == UNREACHED || exists|qy: int, qx: int|
            0 <= qy < h && 0 <= qx < w && #[trigger] grid_at(mask@, w as int, qy, qx) && cheb(y as int, x as int, qy, qx) <= d,
{
    let ghost m = mask@;
    let ghost wi = w as int;
    let ghost hi = h as int;
    let n = mask.len();
    proof {
        lemma_neighbourhood(wi, hi, y as int, x as int);
    }
    let i = y * w + x;
    let mut d = dist[i];
    proof {
        assert(sound_at(m, dist@, wi, hi, i as int));
    }
    if y + 1 < h {
        proof {
            lemma_coords(wi, hi, y + 1, x as int);
        }
        if x > 0 {
            let v = dist[i + w - 1];
            let s = sat_inc(v);
            let ghost dold = d;
            d = if d <= s { d } else { s };
            proof {
                lemma_coords(wi, hi, y + 1, x - 1);
                assert(sound_at(m, dist@, wi, hi, i + w - 1));
                lemma_min_step_sound(m, wi, hi, y as int, x as int, dold, v, y + 1, x - 1, d);
            }
        }
        let v = dist[i + w];
        let s = sat_inc(v);
        let ghost dold = d;
        d = if d <= s { d } else { s };
        proof {
            assert(sound_at(m, dist@, wi, hi, i + w));
            lemma_min_step_sound(m, wi, hi, y as int, x as int, dold, v, y + 1, x as int, d);
        }
        if x + 1 < w {
            let v = dist[i + w + 1];
            let s = sat_inc(v);
            let ghost dold = d;
            d = if d <= s { d } else { s };
            proof {
                lemma_coords(wi, hi, y + 1, x + 1);
                assert(sound_at(m, dist@, wi, hi, i + w + 1));
                lemma_min_step_sound(m, wi, hi, y as int, x as int, dold, v, y + 1, x + 1, d);
            }
        }
    }
    if x + 1 < w {
        let v = dist[i + 1];
        let s = sat_inc(v);
        let ghost dold = d;
        d = if d <= s { d } else { s };
        proof {
            lemma_coords(wi, hi, y as int, x + 1);
            assert(sound_at(m, dist@, wi, hi, i + 1));
            lemma_min_step_sound(m, wi, hi, y as int, x as int, dold, v, y as int, x + 1, d);
        }
    }
    d
}

/// Writing the backward value of cell (y, x) extends the backward-sweep conditions to
/// it and keeps every cell sound.
proof fn lemma_backward_update(
    m: Seq<bool>,
    f: Seq<u32>,
    d0: Seq<u32>,
    d1: Seq<u32>,
    w: int,
    h: int,
    y: int,
    x: int,
    d: u32,
)
    requires
        0 <= y < h,
        0 <= x < w,
        m.len() == w * h,
        f.len() == w * h,
        d0.len() == w * h,
        d1 == d0.update(y * w + x, d),
        forall|i: int| y * w + x < i < w * h ==> #[trigger] backward_ok(f, d0, w, h, i),
        forall|i: int| 0 <= i <= y * w + x ==> d0[i] == f[i],
        forall|i: int| 0 <= i < w * h ==> #[trigger] sound_at(m, d0, w, h, i),
        ({
            let i = y * w + x;
            &&& d <= d0[i]
            &&& (y + 1 < h && x > 0 ==> d <= d0[i + w - 1] + 1)
            &&& (y + 1 < h ==> d <= d0[i + w] + 1)
            &&& (y + 1 < h && x + 1 < w ==> d <= d0[i + w + 1] + 1)
            &&& (x + 1 < w ==> d <= d0[i + 1] + 1)
        }),
        d == UNREACHED || exists|qy: int, qx: int|
            0 <= qy < h && 0 <= qx < w && #[trigger] grid_at(m, w, qy, qx) && cheb(y, x, qy, qx) <= d,
    ensures
        forall|i: int| y * w + x <= i < w * h ==> #[trigger] backward_ok(f, d1, w, h, i),
        forall|i: int| 0 <= i < y * w + x ==> d1[i] == f[i],
        forall|i: int| 0 <= i < w * h ==> #[trigger] sound_at(m, d1, w, h, i),
{
    let i = y * w + x;
    lemma_neighbourhood(w, h, y, x);
    assert(backward_ok(f, d1, w, h, i));
    assert forall|j: int| i <= j < w * h implies #[trigger] backward_ok(f, d1, w, h, j) by {
        if j > i {
            assert(backward_ok(f, d0, w, h, j));
            lemma_index_split(w, h, j);
            lemma_neighbourhood(w, h, j / w, j % w);
        }
    }
    assert forall|j: int| 0 <= j < w * h implies #[trigger] sound_at(m, d1, w, h, j) by {
        if j != i {
            assert(sound_at(m, d0, w, h, j));
        }
    }
}

/// The backward sweep, in reverse row-major order, over the result of the forward sweep.
fn backward_sweep(mask: &[bool], f: Vec<u32>, w: usize, h: usize) -> (d: Vec<u32>)
    requires
        mask@.len() == w * h,
        f@.len() == w * h,
        forall|i: int| 0 <= i < w * h ==> #[trigger] sound_at(mask@, f@, w as int, h as int, i),
    ensures
        d@.len() == w * h,
        forall|i: int| 0 <= i < w * h ==> #[trigger] backward_ok(f@, d@, w as int, h as int, i),
        forall|i: int| 0 <= i < w * h ==> #[trigger] sound_at(mask@, d@, w as int, h as int, i),
{
    let n = mask.len();
    let ghost m = mask@;
    let ghost wi = w as int;
    let ghost hi = h as int;
    let ghost fw = f@;
    let mut dist = f;
    let mut yy: usize = h;
    proof {
        assert(h * w == w * h) by (nonlinear_arith);
    }
    while yy > 0
        invariant
            yy <= h,
            n == mask@.len(),
            n == w * h,
            m == mask@,
            wi == w,
            hi == h,
            fw.len() == n,
            dist@.len() == n,
            yy * w <= n,
            forall|i: int| yy * w <= i < n ==> #[trigger] backward_ok(fw, dist@, wi, hi, i),
            forall|i: int| 0 <= i < yy * w ==> dist@[i] == fw[i],
            forall|i: int| 0 <= i < n ==> #[trigger] sound_at(m, dist@, wi, hi, i),
        decreases yy,
    {
        let y = yy - 1;
        let mut xx: usize = w;
        proof {
            assert(y * w + w == yy * w) by (nonlinear_arith)
                requires
                    y == yy - 1,
            ;
        }
        while xx > 0
            invariant
                y < h,
                y == yy - 1,
                xx <= w,
                n == mask@.len(),
                n == w * h,
                m == mask@,
                wi == w,
                hi == h,
                fw.len() == n,
                dist@.len() == n,
                y * w + w == yy * w,
                yy * w <= n,
                forall|i: int| y * w + xx <= i < n ==> #[trigger] backward_ok(fw, dist@, wi, hi, i),
                forall|i: int| 0 <= i < y * w + xx ==> dist@[i] == fw[i],
                forall|i: int| 0 <= i < n ==> #[trigger] sound_at(m, dist@, wi, hi, i),
            decreases xx,
        {
            let x = xx - 1;
            let d = backward_cell(mask, &dist, w, h, y, x);
            proof {
                lemma_coords(wi, hi, y as int, x as int);
            }
            let i = y * w + x;
            let ghost d0 = dist@;
            dist.set(i, d);
            proof {
                lemma_backward_update(m, fw, d0, dist@, wi, hi, y as int, x as int, d);
            }
            xx = x;
        }
        proof {
            assert(y * w >= 0) by (nonlinear_arith)
                requires
                    y >= 0,
                    w >= 0,
            ;
        }
        yy = y;
    }
    dist
}

// ----- from local conditions to exact distances -----

/// A cell reachable by forward steps from a masked cell is, after the forward sweep,
/// at most the number of steps away.
proof fn lemma_forward_chain(m: Seq<bool>, f: Seq<u32>, w: int, h: int, py: int, px: int, qy: int, qx: int)
    requires
        0 <= py < h,
        0 <= px < w,
        0 <= qy < h,
        0 <= qx < w,
        m.len() == w * h,
        f.len() == w * h,
        forall|i: int| 0 <= i < w * h ==> #[trigger] forward_ok(m, f, w, i),
        grid_at(m, w, qy, qx),
        forward_reach(py, px, qy, qx),
    ensures
        grid_at(f, w, py, px) <= max2(py - qy, px - qx),
    decreases py - qy, px - qx + w,
{
    let dy = py - qy;
    let dx = px - qx;
    lemma_neighbourhood(w, h, py, px);
    let i = py * w + px;
    assert(forward_ok(m, f, w, i));
    if dy == 0 && dx == 0 {
    } else if dy == 0 || dx > dy {
        lemma_forward_chain(m, f, w, h, py, px - 1, qy, qx);
    } else if dx == dy {
        lemma_forward_chain(m, f, w, h, py - 1, px - 1, qy, qx);
    } else if dx > -dy {
        lemma_forward_chain(m, f, w, h, py - 1, px, qy, qx);
    } else {
        lemma_forward_chain(m, f, w, h, py - 1, px + 1, qy, qx);
    }
}

/// A cell from which `s` is reachable by backward steps is, after the backward sweep,
/// at most the value at `s` plus the number of steps.
proof fn lemma_backward_chain(f: Seq<u32>, d: Seq<u32>, w: int, h: int, py: int, px: int, sy: int, sx: int)
    requires
        0 <= py < h,
        0 <= px < w,
        0 <= sy < h,
        0 <= sx < w,
        f.len() == w * h,
        d.len() == w * h,
        forall|i: int| 0 <= i < w * h ==> #[trigger] backward_ok(f, d, w, h, i),
        forward_reach(sy, sx, py, px),
    ensures
        grid_at(d, w, py, px) <= grid_at(d, w, sy, sx) + max2(sy - py, sx - px),
    decreases sy - py, sx - px + w,
{
    let dy = sy - py;
    let dx = sx - px;
    lemma_neighbourhood(w, h, py, px);
    let i = py * w + px;
    assert(backward_ok(f, d, w, h, i));
    if dy == 0 && dx == 0 {
    } else if dy == 0 || dx > dy {
        lemma_backward_chain(f, d, w, h, py, px + 1, sy, sx);
    } else if dx == dy {
        lemma_backward_chain(f, d, w, h, py + 1, px + 1, sy, sx);
    } else if dx > -dy {
        lemma_backward_chain(f, d, w, h, py + 1, px, sy, sx);
    } else {
        lemma_backward_chain(f, d, w, h, py + 1, px - 1, sy, sx);
    }
}

/// After both sweeps every cell is at most its Chebyshev distance to any masked cell.
proof fn lemma_bounded_by_each(m: Seq<bool>, f: Seq<u32>, d: Seq<u32>, w: int, h: int, py: int, px: int, qy: int, qx: int)
    requires
        0 <= py < h,
        0 <= px < w,
        0 <= qy < h,
        0 <= qx < w,
        m.len() == w * h,
        f.len() == w * h,
        d.len() == w * h,
        forall|i: int| 0 <= i < w * h ==> #[trigger] forward_ok(m, f, w, i),
        forall|i: int| 0 <= i < w * h ==> #[trigger] backward_ok(f, d, w, h, i),
        grid_at(m, w, qy, qx),
    ensures
        grid_at(d, w, py, px) <= cheb(py, px, qy, qx),
{
    let dy = py - qy;
    let dx = px - qx;
    lemma_neighbourhood(w, h, py, px);
    lemma_neighbourhood(w, h, qy, qx);
    assert(backward_ok(f, d, w, h, py * w + px));
    if forward_reach(py, px, qy, qx) {
        lemma_forward_chain(m, f, w, h, py, px, qy, qx);
    } else if forward_reach(qy, qx, py, px) {
        lemma_backward_chain(f, d, w, h, py, px, qy, qx);
        assert(forward_ok(m, f, w, qy * w + qx));
        assert(backward_ok(f, d, w, h, qy * w + qx));
    } else if qy < py {
        // far up and to the right: along the row of p, then forward to q
        let sx = qx - dy;
        lemma_neighbourhood(w, h, py, sx);
        lemma_backward_chain(f, d, w, h, py, px, py, sx);
        assert(backward_ok(f, d, w, h, py * w + sx));
        lemma_forward_chain(m, f, w, h, py, sx, qy, qx);
    } else {
        // far down and to the left: diagonally down to q's row, then forward to q
        let ey = qy - py;
        let sx = px - ey;
        lemma_neighbourhood(w, h, qy, sx);
        lemma_backward_chain(f, d, w, h, py, px, qy, sx);
        assert(backward_ok(f, d, w, h, qy * w + sx));
        lemma_forward_chain(m, f, w, h, qy, sx, qy, qx);
    }
}

/// 2-pass chamfer distance transform: for every cell of the w-by-h grid, the
/// Chebyshev distance to the nearest masked cell (`UNREACHED` everywhere when no
/// cell is masked).
pub fn bfs_dt(mask: &[bool], w: usize, h: usize) -> (dist: Vec<u32>)
    requires
        mask@.len() == w * h,
    ensures
        is_distance_map(mask@, w as int, h as int, dist@),
{
    let f = forward_sweep(mask, w, h);
    let ghost fv = f@;
    let d = backward_sweep(mask, f, w, h);
    proof {
        let m = mask@;
        let wi = w as int;
        let hi = h as int;
        assert forall|py: int, px: int, qy: int, qx: int|
            0 <= py < hi && 0 <= px < wi && 0 <= qy < hi && 0 <= qx < wi && #[trigger] grid_at(m, wi, qy, qx)
                implies #[trigger] grid_at(d@, wi, py, px) <= cheb(py, px, qy, qx) by {
            lemma_bounded_by_each(m, fv, d@, wi, hi, py, px, qy, qx);
        }
        assert forall|py: int, px: int| 0 <= py < hi && 0 <= px < wi implies #[trigger] grid_at(d@, wi, py, px)
            == UNREACHED || exists|qy: int, qx: int|
            0 <= qy < hi && 0 <= qx < wi && #[trigger] grid_at(m, wi, qy, qx) && grid_at(d@, wi, py, px) == cheb(
                py,
                px,
                qy,
                qx,
            ) by {
            lemma_neighbourhood(wi, hi, py, px);
            assert(sound_at(m, d@, wi, hi, py * wi + px));
            if grid_at(d@, wi, py, px) != UNREACHED {
                let (qy, qx) = choose|qy: int, qx: int|
                    0 <= qy < hi && 0 <= qx < wi && #[trigger] grid_at(m, wi, qy, qx) && cheb(py, px, qy, qx)
                        <= d@[py * wi + px];
                lemma_bounded_by_each(m, fv, d@, wi, hi, py, px, qy, qx);
            }
        }
    }
    d
}

} // verus!

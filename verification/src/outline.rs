use vstd::prelude::*;

verus! {

/// Length of each lit segment of the outline, in tiles.
pub const SEGMENT_LEN: u32 = 4;

/// Length of the gap after each segment, in tiles.
pub const GAP_LEN: u32 = 1;

/// Number of distinct animation frames (segment plus gap).
pub const FRAME_COUNT: usize = 5;

/// Number of integers from `lo` to `hi` inclusive (0 when `lo > hi`).
pub open spec fn span(lo: int, hi: int) -> nat {
    if hi >= lo { (hi - lo + 1) as nat } else { 0 }
}

/// The inner border of the rectangle x0..=x1, y0..=y1 walked as one anti-clockwise
/// loop from its bottom-left corner: the bottom edge left to right, the right edge
/// upwards (without the bottom corner), the top edge right to left (without the right
/// corner), and the left edge downwards (without either corner).
pub open spec fn perimeter_spec(x0: int, y0: int, x1: int, y1: int) -> Seq<(i32, i32)> {
    Seq::new(span(x0, x1), |k: int| ((x0 + k) as i32, y0 as i32))
        + Seq::new(span(y0 + 1, y1), |k: int| (x1 as i32, (y0 + 1 + k) as i32))
        + Seq::new(span(x0, x1 - 1), |k: int| ((x1 - 1 - k) as i32, y1 as i32))
        + Seq::new(span(y0 + 1, y1 - 1), |k: int| (x0 as i32, (y1 - 1 - k) as i32))
}

/// Builds the ordered list of tile positions along the inner perimeter of the map.
pub fn build_perimeter_path(inner_x0: i32, inner_y0: i32, inner_x1: i32, inner_y1: i32) -> (path: Vec<(i32, i32)>)
    ensures
        path@ == perimeter_spec(inner_x0 as int, inner_y0 as int, inner_x1 as int, inner_y1 as int),
{
    let ghost x0 = inner_x0 as int;
    let ghost y0 = inner_y0 as int;
    let ghost x1 = inner_x1 as int;
    let ghost y1 = inner_y1 as int;
    let ghost s1 = Seq::new(span(x0, x1), |k: int| ((x0 + k) as i32, y0 as i32));
    let ghost s2 = Seq::new(span(y0 + 1, y1), |k: int| (x1 as i32, (y0 + 1 + k) as i32));
    let ghost s3 = Seq::new(span(x0, x1 - 1), |k: int| ((x1 - 1 - k) as i32, y1 as i32));
    let ghost s4 = Seq::new(span(y0 + 1, y1 - 1), |k: int| (x0 as i32, (y1 - 1 - k) as i32));
    let (x0e, y0e, x1e, y1e) = (inner_x0 as i64, inner_y0 as i64, inner_x1 as i64, inner_y1 as i64);
    let mut path: Vec<(i32, i32)> = Vec::new();
    // Bottom edge, left to right.
    let n1: i64 = if x0e <= x1e { x1e - x0e + 1 } else { 0 };
    let mut k: i64 = 0;
    while k < n1
        invariant
            0 <= k <= n1,
            n1 == span(x0, x1),
            x0e == x0,
            y0e == y0,
            x0 == inner_x0,
            y0 == inner_y0,
            x1 == inner_x1,
            s1 == Seq::new(span(x0, x1), |k: int| ((x0 + k) as i32, y0 as i32)),
            path@ == s1.take(k as int),
        decreases n1 - k,
    {
        path.push(((x0e + k) as i32, inner_y0));
        proof {
            assert(path@ =~= s1.take(k + 1));
        }
        k = k + 1;
    }
    assert(path@ =~= s1);
    // Right edge, upwards.
    let ghost p1 = path@;
    let n2: i64 = if y0e + 1 <= y1e { y1e - y0e } else { 0 };
    let mut k: i64 = 0;
    while k < n2
        invariant
            0 <= k <= n2,
            n2 == span(y0 + 1, y1),
            y0e == y0,
            y0 == inner_y0,
            y1 == inner_y1,
            x1 == inner_x1,
            s2 == Seq::new(span(y0 + 1, y1), |k: int| (x1 as i32, (y0 + 1 + k) as i32)),
            path@ == p1 + s2.take(k as int),
        decreases n2 - k,
    {
        path.push((inner_x1, (y0e + 1 + k) as i32));
        proof {
            assert(path@ =~= p1 + s2.take(k + 1));
        }
        k = k + 1;
    }
    assert(path@ =~= s1 + s2);
    // Top edge, right to left.
    let ghost p2 = path@;
    let n3: i64 = if x0e <= x1e - 1 { x1e - x0e } else { 0 };
    let mut k: i64 = 0;
    while k < n3
        invariant
            0 <= k <= n3,
            n3 == span(x0, x1 - 1),
            x1e == x1,
            x0 == inner_x0,
            x1 == inner_x1,
            y1 == inner_y1,
            s3 == Seq::new(span(x0, x1 - 1), |k: int| ((x1 - 1 - k) as i32, y1 as i32)),
            path@ == p2 + s3.take(k as int),
        decreases n3 - k,
    {
        path.push(((x1e - 1 - k) as i32, inner_y1));
        proof {
            assert(path@ =~= p2 + s3.take(k + 1));
        }
        k = k + 1;
    }
    assert(path@ =~= s1 + s2 + s3);
    // Left edge, downwards.
    let ghost p3 = path@;
    let n4: i64 = if y0e + 1 <= y1e - 1 { y1e - y0e - 1 } else { 0 };
    let mut k: i64 = 0;
    while k < n4
        invariant
            0 <= k <= n4,
            n4 == span(y0 + 1, y1 - 1),
            y1e == y1,
            y0 == inner_y0,
            y1 == inner_y1,
            x0 == inner_x0,
            s4 == Seq::new(span(y0 + 1, y1 - 1), |k: int| (x0 as i32, (y1 - 1 - k) as i32)),
            path@ == p3 + s4.take(k as int),
        decreases n4 - k,
    {
        path.push((inner_x0, (y1e - 1 - k) as i32));
        proof {
            assert(path@ =~= p3 + s4.take(k + 1));
        }
        k = k + 1;
    }
    assert(path@ =~= s1 + s2 + s3 + s4);
    path
}

/// Whether the tile at position `i` of the path is lit in animation frame `offset`.
pub open spec fn frame_lit(i: int, offset: int) -> bool {
    (i + offset) % (FRAME_COUNT as int) < SEGMENT_LEN as int
}

/// The tiles of `path` lit in animation frame `offset`, in path order.
pub open spec fn frame_tiles_spec(path: Seq<(i32, i32)>, offset: int) -> Seq<(i32, i32)>
    decreases path.len(),
{
    if path.len() == 0 {
        Seq::empty()
    } else {
        let i = path.len() - 1;
        frame_tiles_spec(path.drop_last(), offset) + (if frame_lit(i, offset) {
            seq![path[i]]
        } else {
            Seq::empty()
        })
    }
}

/// Selects which perimeter tiles are visible for a given animation frame offset.
pub fn compute_frame_tiles(path: &Vec<(i32, i32)>, frame_offset: usize) -> (tiles: Vec<(i32, i32)>)
    requires
        path@.len() + frame_offset <= usize::MAX,
    ensures
        tiles@ == frame_tiles_spec(path@, frame_offset as int),
{
    let mut tiles: Vec<(i32, i32)> = Vec::new();
    let mut i: usize = 0;
    while i < path.len()
        invariant
            i <= path@.len(),
            path@.len() + frame_offset <= usize::MAX,
            tiles@ == frame_tiles_spec(path@.take(i as int), frame_offset as int),
        decreases path@.len() - i,
    {
        proof {
            assert(path@.take(i + 1).drop_last() =~= path@.take(i as int));
        }
        if (i + frame_offset) % FRAME_COUNT < SEGMENT_LEN as usize {
            tiles.push(path[i]);
        }
        i = i + 1;
    }
    assert(path@.take(path@.len() as int) =~= path@);
    tiles
}

/// Every tile of the outline is dark in exactly one of the animation frames.
pub proof fn law_each_tile_dark_once(i: int)
    requires
        0 <= i,
    ensures
        exists|o: int| 0 <= o < FRAME_COUNT && !frame_lit(i, o),
        forall|o1: int, o2: int|
            0 <= o1 < FRAME_COUNT && 0 <= o2 < FRAME_COUNT && !frame_lit(i, o1) && !frame_lit(i, o2) ==> o1 == o2,
{
    let o = (4 - i % 5 + 5) % 5;
    assert(!frame_lit(i, o));
}

/// `p` is a tile on the border of the rectangle x0..=x1, y0..=y1.
pub open spec fn on_border(p: (i32, i32), x0: int, y0: int, x1: int, y1: int) -> bool {
    &&& x0 <= p.0 <= x1
    &&& y0 <= p.1 <= y1
    &&& (p.0 == x0 || p.0 == x1 || p.1 == y0 || p.1 == y1)
}

/// For a rectangle at least two tiles wide and high, the outline lists every border
/// tile exactly once: it has `2 * (width + height) - 4` tiles, all on the border and
/// pairwise distinct.
pub proof fn law_perimeter_covers_border_once(x0: int, y0: int, x1: int, y1: int)
    requires
        i32::MIN <= x0 < x1 <= i32::MAX,
        i32::MIN <= y0 < y1 <= i32::MAX,
    ensures
        perimeter_spec(x0, y0, x1, y1).len() == 2 * ((x1 - x0 + 1) + (y1 - y0 + 1)) - 4,
        forall|k: int|
            0 <= k < perimeter_spec(x0, y0, x1, y1).len() ==> on_border(
                #[trigger] perimeter_spec(x0, y0, x1, y1)[k],
                x0,
                y0,
                x1,
                y1,
            ),
        forall|i: int, j: int|
            0 <= i < j < perimeter_spec(x0, y0, x1, y1).len() ==> #[trigger] perimeter_spec(x0, y0, x1, y1)[i]
                != #[trigger] perimeter_spec(x0, y0, x1, y1)[j],
{
    let s1 = Seq::new(span(x0, x1), |k: int| ((x0 + k) as i32, y0 as i32));
    let s2 = Seq::new(span(y0 + 1, y1), |k: int| (x1 as i32, (y0 + 1 + k) as i32));
    let s3 = Seq::new(span(x0, x1 - 1), |k: int| ((x1 - 1 - k) as i32, y1 as i32));
    let s4 = Seq::new(span(y0 + 1, y1 - 1), |k: int| (x0 as i32, (y1 - 1 - k) as i32));
    let s = perimeter_spec(x0, y0, x1, y1);
    assert(s == s1 + s2 + s3 + s4);
    let a = s1.len() as int;
    let b = a + s2.len();
    let c = b + s3.len();
    let n = s.len() as int;
    assert forall|k: int| 0 <= k < n implies #[trigger] s[k] == (if k < a {
        s1[k]
    } else if k < b {
        s2[k - a]
    } else if k < c {
        s3[k - b]
    } else {
        s4[k - c]
    }) by {}
    assert forall|k: int| 0 <= k < n implies on_border(#[trigger] s[k], x0, y0, x1, y1) by {}
    assert forall|i: int, j: int| 0 <= i < j < n implies #[trigger] s[i] != #[trigger] s[j] by {}
}

/// Tiles `a` and `b` are side neighbours: they differ by one in x or in y.
pub open spec fn unit_step(a: (i32, i32), b: (i32, i32)) -> bool {
    ||| a.1 == b.1 && (a.0 - b.0 == 1 || b.0 - a.0 == 1)
    ||| a.0 == b.0 && (a.1 - b.1 == 1 || b.1 - a.1 == 1)
}

/// Entry `k` of the outline of a rectangle at least two tiles wide and high, by edge.
spec fn loop_entry(x0: int, y0: int, x1: int, y1: int, k: int) -> (int, int) {
    let a = x1 - x0 + 1;
    let b = a + (y1 - y0);
    let c = b + (x1 - x0);
    if k < a {
        (x0 + k, y0)
    } else if k < b {
        (x1, y0 + 1 + (k - a))
    } else if k < c {
        (x1 - 1 - (k - b), y1)
    } else {
        (x0, y1 - 1 - (k - c))
    }
}

/// The outline's entries, edge by edge, and its length.
proof fn lemma_loop_entries(x0: int, y0: int, x1: int, y1: int)
    requires
        i32::MIN <= x0 < x1 <= i32::MAX,
        i32::MIN <= y0 < y1 <= i32::MAX,
    ensures
        perimeter_spec(x0, y0, x1, y1).len() == 2 * (x1 - x0) + 2 * (y1 - y0),
        forall|k: int|
            0 <= k < perimeter_spec(x0, y0, x1, y1).len() ==> #[trigger] perimeter_spec(x0, y0, x1, y1)[k] == (
            loop_entry(x0, y0, x1, y1, k).0 as i32,
            loop_entry(x0, y0, x1, y1, k).1 as i32,
        ),
{
    let s1 = Seq::new(span(x0, x1), |k: int| ((x0 + k) as i32, y0 as i32));
    let s2 = Seq::new(span(y0 + 1, y1), |k: int| (x1 as i32, (y0 + 1 + k) as i32));
    let s3 = Seq::new(span(x0, x1 - 1), |k: int| ((x1 - 1 - k) as i32, y1 as i32));
    let s4 = Seq::new(span(y0 + 1, y1 - 1), |k: int| (x0 as i32, (y1 - 1 - k) as i32));
    let s = perimeter_spec(x0, y0, x1, y1);
    assert(s == s1 + s2 + s3 + s4);
    let a = s1.len() as int;
    let b = a + s2.len();
    let c = b + s3.len();
    assert forall|k: int| 0 <= k < s.len() implies #[trigger] s[k] == (
        loop_entry(x0, y0, x1, y1, k).0 as i32,
        loop_entry(x0, y0, x1, y1, k).1 as i32,
    ) by {
        if k < a {
            assert(s[k] == s1[k]);
        } else if k < b {
            assert(s[k] == s2[k - a]);
        } else if k < c {
            assert(s[k] == s3[k - b]);
        } else {
            assert(s[k] == s4[k - c]);
        }
    }
}

/// Entry `k` of the outline, by edge, and the outline's length.
proof fn lemma_loop_at(x0: int, y0: int, x1: int, y1: int, k: int)
    requires
        i32::MIN <= x0 < x1 <= i32::MAX,
        i32::MIN <= y0 < y1 <= i32::MAX,
        0 <= k < 2 * (x1 - x0) + 2 * (y1 - y0),
    ensures
        perimeter_spec(x0, y0, x1, y1).len() == 2 * (x1 - x0) + 2 * (y1 - y0),
        perimeter_spec(x0, y0, x1, y1)[k] == (loop_entry(x0, y0, x1, y1, k).0 as i32, loop_entry(x0, y0, x1, y1, k).1 as i32),
{
    lemma_loop_entries(x0, y0, x1, y1);
}

/// For a rectangle at least two tiles wide and high, the outline is one closed loop
/// starting at the bottom-left corner: each tile and the next (the last and the first
/// included) are side neighbours.
pub proof fn law_perimeter_is_closed_loop(x0: int, y0: int, x1: int, y1: int)
    requires
        i32::MIN <= x0 < x1 <= i32::MAX,
        i32::MIN <= y0 < y1 <= i32::MAX,
    ensures
        perimeter_spec(x0, y0, x1, y1)[0] == (x0 as i32, y0 as i32),
        forall|i: int|
            0 <= i < perimeter_spec(x0, y0, x1, y1).len() ==> unit_step(
                #[trigger] perimeter_spec(x0, y0, x1, y1)[i],
                perimeter_spec(x0, y0, x1, y1)[(i + 1) % (perimeter_spec(x0, y0, x1, y1).len() as int)],
            ),
{
    lemma_loop_at(x0, y0, x1, y1, 0);
    let s = perimeter_spec(x0, y0, x1, y1);
    let n = s.len() as int;
    assert forall|i: int| 0 <= i < n implies unit_step(#[trigger] s[i], s[(i + 1) % n]) by {
        let j = (i + 1) % n;
        if i + 1 < n {
            vstd::arithmetic::div_mod::lemma_small_mod((i + 1) as nat, n as nat);
        } else {
            vstd::arithmetic::div_mod::lemma_mod_self_0(n);
        }
        lemma_loop_at(x0, y0, x1, y1, i);
        lemma_loop_at(x0, y0, x1, y1, j);
    }
}

/// The outline loop runs anti-clockwise: x rises along the bottom edge, y rises up
/// the right edge, x falls along the top edge and y falls down the left edge.
pub proof fn law_perimeter_is_anticlockwise(x0: int, y0: int, x1: int, y1: int)
    requires
        i32::MIN <= x0 < x1 <= i32::MAX,
        i32::MIN <= y0 < y1 <= i32::MAX,
    ensures
        forall|k: int|
            0 <= k < x1 - x0 ==> #[trigger] perimeter_spec(x0, y0, x1, y1)[k + 1].0 == perimeter_spec(
                x0,
                y0,
                x1,
                y1,
            )[k].0 + 1,
        forall|k: int|
            x1 - x0 <= k < x1 - x0 + (y1 - y0) ==> #[trigger] perimeter_spec(x0, y0, x1, y1)[k + 1].1
                == perimeter_spec(x0, y0, x1, y1)[k].1 + 1,
        forall|k: int|
            x1 - x0 + (y1 - y0) <= k < 2 * (x1 - x0) + (y1 - y0) ==> #[trigger] perimeter_spec(x0, y0, x1, y1)[k
                + 1].0 == perimeter_spec(x0, y0, x1, y1)[k].0 - 1,
        forall|k: int|
            2 * (x1 - x0) + (y1 - y0) <= k < 2 * (x1 - x0) + 2 * (y1 - y0) - 1 ==> #[trigger] perimeter_spec(
                x0,
                y0,
                x1,
                y1,
            )[k + 1].1 == perimeter_spec(x0, y0, x1, y1)[k].1 - 1,
{
    let s = perimeter_spec(x0, y0, x1, y1);
    let a = x1 - x0;
    let b = a + (y1 - y0);
    let c = b + (x1 - x0);
    let n = 2 * (x1 - x0) + 2 * (y1 - y0);
    assert forall|k: int| 0 <= k < a implies #[trigger] s[k + 1].0 == s[k].0 + 1 by {
        lemma_loop_at(x0, y0, x1, y1, k);
        lemma_loop_at(x0, y0, x1, y1, k + 1);
    }
    assert forall|k: int| a <= k < b implies #[trigger] s[k + 1].1 == s[k].1 + 1 by {
        lemma_loop_at(x0, y0, x1, y1, k);
        lemma_loop_at(x0, y0, x1, y1, k + 1);
    }
    assert forall|k: int| b <= k < c implies #[trigger] s[k + 1].0 == s[k].0 - 1 by {
        lemma_loop_at(x0, y0, x1, y1, k);
        lemma_loop_at(x0, y0, x1, y1, k + 1);
    }
    assert forall|k: int| c <= k < n - 1 implies #[trigger] s[k + 1].1 == s[k].1 - 1 by {
        lemma_loop_at(x0, y0, x1, y1, k);
        lemma_loop_at(x0, y0, x1, y1, k + 1);
    }
}

/// Colour of a lit outline tile, as RGBA bytes.
pub const OUTLINE_COLOR_RGBA: [u8; 4] = [255, 255, 255, 115];

/// Some tile among the first `n` of `tiles` sits on pixel `p` of a `w`-wide image.
pub open spec fn tile_on_pixel(tiles: Seq<(i32, i32)>, n: int, w: int, p: int) -> bool {
    exists|i: int| 0 <= i < n && (#[trigger] tiles[i]).1 * w + tiles[i].0 == p
}

/// Every tile lies on a `w` by `h` image.
pub open spec fn tiles_on_image(tiles: Seq<(i32, i32)>, w: int, h: int) -> bool {
    forall|i: int| 0 <= i < tiles.len() ==> 0 <= (#[trigger] tiles[i]).0 < w && 0 <= tiles[i].1 < h
}

/// The RGBA image, one pixel per map tile, of one outline frame: lit tiles in the
/// outline colour, everything else transparent black.
pub fn outline_frame_pixels(tiles: &Vec<(i32, i32)>, w: u32, h: u32) -> (data: Vec<u8>)
    requires
        tiles_on_image(tiles@, w as int, h as int),
        w * h * 4 <= u32::MAX,
    ensures
        data@.len() == w * h * 4,
        forall|p: int, k: int|
            0 <= p < w * h && 0 <= k < 4 ==> data@[#[trigger] (p * 4 + k)] == (if tile_on_pixel(
                tiles@,
                tiles@.len() as int,
                w as int,
                p,
            ) {
                OUTLINE_COLOR_RGBA[k]
            } else {
                0u8
            }),
{
    let n = (w * h * 4) as usize;
    let mut data: Vec<u8> = vec![0u8; n];
    let mut i: usize = 0;
    while i < tiles.len()
        invariant
            i <= tiles@.len(),
            tiles_on_image(tiles@, w as int, h as int),
            w * h * 4 <= u32::MAX,
            data@.len() == w * h * 4,
            forall|p: int, k: int|
                0 <= p < w * h && 0 <= k < 4 ==> data@[#[trigger] (p * 4 + k)] == (if tile_on_pixel(
                    tiles@,
                    i as int,
                    w as int,
                    p,
                ) {
                    OUTLINE_COLOR_RGBA[k]
                } else {
                    0u8
                }),
        decreases tiles@.len() - i,
    {
        let (x, y) = tiles[i];
        proof {
            assert(0 <= x < w && 0 <= y < h);
            crate::arith::lemma_cell_index(w as int, h as int, y as int, x as int);
        }
        let pi = (y as u32 * w + x as u32) as usize;
        let di = pi * 4;
        data.set(di, 255);
        data.set(di + 1, 255);
        data.set(di + 2, 255);
        data.set(di + 3, 115);
        proof {
            assert forall|p: int, k: int| 0 <= p < w * h && 0 <= k < 4 implies data@[#[trigger] (p * 4 + k)] == (
            if tile_on_pixel(tiles@, i + 1, w as int, p) {
                OUTLINE_COLOR_RGBA[k]
            } else {
                0u8
            }) by {
                if p == pi {
                    assert(tiles@[i as int].1 * w + tiles@[i as int].0 == p);
                } else {
                    assert(p * 4 + k < di || p * 4 + k >= di + 4);
                    if tile_on_pixel(tiles@, i + 1, w as int, p) {
                        let j = choose|j: int| 0 <= j < i + 1 && (#[trigger] tiles@[j]).1 * w + tiles@[j].0 == p;
                        assert(j != i);
                    }
                }
            }
        }
        i = i + 1;
    }
    data
}

/// The outline of a `w` by `h` map (at least 2 by 2) runs along the map's inner
/// border, so every tile of it lies on the map.
proof fn lemma_outline_on_map(w: int, h: int)
    requires
        2 <= w <= i32::MAX,
        2 <= h <= i32::MAX,
    ensures
        tiles_on_image(perimeter_spec(1, 1, w - 2, h - 2), w, h),
{
    let (x0, y0, x1, y1) = (1int, 1int, w - 2, h - 2);
    let s1 = Seq::new(span(x0, x1), |k: int| ((x0 + k) as i32, y0 as i32));
    let s2 = Seq::new(span(y0 + 1, y1), |k: int| (x1 as i32, (y0 + 1 + k) as i32));
    let s3 = Seq::new(span(x0, x1 - 1), |k: int| ((x1 - 1 - k) as i32, y1 as i32));
    let s4 = Seq::new(span(y0 + 1, y1 - 1), |k: int| (x0 as i32, (y1 - 1 - k) as i32));
    let s = perimeter_spec(x0, y0, x1, y1);
    assert(s == s1 + s2 + s3 + s4);
    let a = s1.len() as int;
    let b = a + s2.len();
    let c = b + s3.len();
    assert forall|k: int| 0 <= k < s.len() implies 0 <= (#[trigger] s[k]).0 < w && 0 <= s[k].1 < h by {
        if k < a {
            assert(s[k] == s1[k]);
        } else if k < b {
            assert(s[k] == s2[k - a]);
        } else if k < c {
            assert(s[k] == s3[k - b]);
        } else {
            assert(s[k] == s4[k - c]);
        }
    }
}

/// Every tile lit in a frame is a tile of the path.
proof fn lemma_frame_tiles_from_path(path: Seq<(i32, i32)>, offset: int, w: int, h: int)
    requires
        tiles_on_image(path, w, h),
    ensures
        tiles_on_image(frame_tiles_spec(path, offset), w, h),
    decreases path.len(),
{
    if path.len() > 0 {
        let prefix = path.drop_last();
        assert forall|i: int| 0 <= i < prefix.len() implies 0 <= (#[trigger] prefix[i]).0 < w && 0 <= prefix[i].1 < h by {
            assert(prefix[i] == path[i]);
        }
        lemma_frame_tiles_from_path(prefix, offset, w, h);
        let i = path.len() - 1;
        let rest = if frame_lit(i, offset) { seq![path[i]] } else { Seq::<(i32, i32)>::empty() };
        let f = frame_tiles_spec(prefix, offset);
        assert(frame_tiles_spec(path, offset) == f + rest);
        assert forall|k: int| 0 <= k < (f + rest).len() implies 0 <= (#[trigger] (f + rest)[k]).0 < w && 0 <= (f
            + rest)[k].1 < h by {
            if k < f.len() {
                assert((f + rest)[k] == f[k]);
            } else {
                assert((f + rest)[k] == path[i]);
            }
        }
    }
}

/// One animation frame of the map's outline: the tiles of the inner border lit in
/// frame `frame`, and its RGBA image, one pixel per map tile.
pub fn outline_frame(map_w: u32, map_h: u32, frame: usize) -> (r: (Vec<(i32, i32)>, Vec<u8>))
    requires
        2 <= map_w <= i32::MAX,
        2 <= map_h <= i32::MAX,
        map_w * map_h * 4 <= u32::MAX,
        frame < FRAME_COUNT,
    ensures
        r.0@ == frame_tiles_spec(perimeter_spec(1, 1, map_w - 2, map_h - 2), frame as int),
        r.1@.len() == map_w * map_h * 4,
        forall|p: int, k: int|
            0 <= p < map_w * map_h && 0 <= k < 4 ==> r.1@[#[trigger] (p * 4 + k)] == (if tile_on_pixel(
                r.0@,
                r.0@.len() as int,
                map_w as int,
                p,
            ) {
                OUTLINE_COLOR_RGBA[k]
            } else {
                0u8
            }),
{
    let inner_x1 = map_w as i32 - 2;
    let inner_y1 = map_h as i32 - 2;
    let path = build_perimeter_path(1, 1, inner_x1, inner_y1);
    proof {
        lemma_outline_on_map(map_w as int, map_h as int);
        lemma_frame_tiles_from_path(path@, frame as int, map_w as int, map_h as int);
        assert(path@.len() <= 2 * (map_w + map_h)) by {
            assert(span(1, inner_x1 as int) <= map_w);
        }
        assert(map_w * 8 <= map_w * map_h * 4 && map_h * 8 <= map_w * map_h * 4) by (nonlinear_arith)
            requires
                2 <= map_w,
                2 <= map_h,
        ;
    }
    let tiles = compute_frame_tiles(&path, frame);
    let pixels = outline_frame_pixels(&tiles, map_w, map_h);
    (tiles, pixels)
}

} // verus!

use vstd::prelude::*;

use crate::tileset::px4;

verus! {

/// Offset of byte `k` of pixel (col, row) in an RGBA buffer `w` pixels wide.
pub open spec fn byte_index(w: int, row: int, col: int, k: int) -> int {
    (row * w + col) * 4 + k
}

/// The 4x4 tile drawn at (dx, dy) lies inside the buffer, whose pixel indices fit in
/// a `u32`.
pub open spec fn tile_fits(len: int, w: int, dx: int, dy: int) -> bool {
    &&& dx + 4 <= w
    &&& (dy + 4) * w <= u32::MAX
    &&& (dy + 4) * w * 4 <= len
}

/// Byte `j` is one of the bytes of the 4x4 tile drawn at (dx, dy).
pub open spec fn in_tile(w: int, dx: int, dy: int, j: int) -> bool {
    exists|sy: int, sx: int, k: int|
        0 <= sy < 4 && 0 <= sx < 4 && 0 <= k < 4 && j == #[trigger] byte_index(w, dy + sy, dx + sx, k)
}

/// Alpha compositing of one byte: transparent source keeps the destination, opaque
/// source replaces it, otherwise the colour channels are mixed by the source alpha
/// and the result is opaque.
pub open spec fn blend_byte(d: u8, s: u8, sa: u8, k: int) -> u8 {
    if sa == 0 {
        d
    } else if sa == 255 {
        s
    } else if k < 3 {
        ((d * (255 - sa) + s * sa) / 255) as u8
    } else {
        255u8
    }
}

pub(crate) proof fn lemma_byte_index(w: int, h: int, row: int, col: int, k: int)
    requires
        0 <= row < h,
        0 <= col < w,
        0 <= k < 4,
    ensures
        0 <= byte_index(w, row, col, k) < w * h * 4,
        byte_index(w, row, col, k) / 4 == row * w + col,
        byte_index(w, row, col, k) % 4 == k,
        (row * w + col) / w == row,
        (row * w + col) % w == col,
{
    crate::arith::lemma_cell_index(w, h, row, col);
    crate::arith::lemma_cell_coords(w, row, col);
    assert(w * h * 4 == (w * h) * 4) by (nonlinear_arith);
}

/// Distinct bytes of a buffer have distinct offsets.
pub(crate) proof fn lemma_byte_index_injective(w: int, h: int, r1: int, c1: int, k1: int, r2: int, c2: int, k2: int)
    requires
        0 <= r1 < h,
        0 <= c1 < w,
        0 <= k1 < 4,
        0 <= r2 < h,
        0 <= c2 < w,
        0 <= k2 < 4,
        byte_index(w, r1, c1, k1) == byte_index(w, r2, c2, k2),
    ensures
        r1 == r2 && c1 == c2 && k1 == k2,
{
    lemma_byte_index(w, h, r1, c1, k1);
    lemma_byte_index(w, h, r2, c2, k2);
}

/// Opaque blit: copies a 4x4 RGBA tile into the buffer at pixel (dst_x, dst_y).
pub fn blit_tile(dst: &mut Vec<u8>, dst_w: u32, dst_x: u32, dst_y: u32, src_buf: &[u8; 64])
    requires
        tile_fits(old(dst)@.len() as int, dst_w as int, dst_x as int, dst_y as int),
    ensures
        final(dst)@.len() == old(dst)@.len(),
        forall|sy: int, sx: int, k: int|
            0 <= sy < 4 && 0 <= sx < 4 && 0 <= k < 4 ==> final(dst)@[#[trigger] byte_index(
                dst_w as int,
                dst_y + sy,
                dst_x + sx,
                k,
            )] == src_buf@[px4(sy, sx, k)],
        forall|j: int|
            0 <= j < old(dst)@.len() && !in_tile(dst_w as int, dst_x as int, dst_y as int, j) ==> #[trigger] final(dst)@[j]
                == old(dst)@[j],
{
    let ghost w = dst_w as int;
    let ghost h = dst_y as int + 4;
    let ghost d0 = dst@;
    let mut t: usize = 0;
    while t < 64
        invariant
            t <= 64,
            w == dst_w,
            h == dst_y + 4,
            tile_fits(d0.len() as int, w, dst_x as int, dst_y as int),
            dst@.len() == d0.len(),
            forall|sy: int, sx: int, k: int|
                0 <= sy < 4 && 0 <= sx < 4 && 0 <= k < 4 && px4(sy, sx, k) < t ==> dst@[#[trigger] byte_index(
                    w,
                    dst_y + sy,
                    dst_x + sx,
                    k,
                )] == src_buf@[px4(sy, sx, k)],
            forall|j: int| 0 <= j < d0.len() && !in_tile(w, dst_x as int, dst_y as int, j) ==> #[trigger] dst@[j] == d0[j],
        decreases 64 - t,
    {
        let sy = (t / 16) as u32;
        let sx = ((t % 16) / 4) as u32;
        let k = t % 4;
        assert(px4(sy as int, sx as int, k as int) == t);
        proof {
            lemma_byte_index(w, h, dst_y + sy, dst_x + sx, k as int);
            assert((dst_y + 4) * w * 4 == w * h * 4) by (nonlinear_arith)
                requires
                    h == dst_y + 4,
            ;
            assert(0 <= (dst_y + sy) * w) by (nonlinear_arith)
                requires
                    0 <= w,
            ;
            assert(w * h == (dst_y + 4) * w) by (nonlinear_arith)
                requires
                    h == dst_y + 4,
            ;
            assert(dst_y + 4 <= (dst_y + 4) * w) by (nonlinear_arith)
                requires
                    4 <= w,
            ;
        }
        let n = dst.len();
        let di = ((dst_y + sy) * dst_w + dst_x + sx) as usize * 4 + k;
        let ghost before = dst@;
        dst.set(di, src_buf[t]);
        proof {
            assert forall|yy: int, xx: int, kk: int|
                0 <= yy < 4 && 0 <= xx < 4 && 0 <= kk < 4 && px4(yy, xx, kk) < t + 1 implies dst@[#[trigger] byte_index(
                w,
                dst_y + yy,
                dst_x + xx,
                kk,
            )] == src_buf@[px4(yy, xx, kk)] by {
                lemma_byte_index(w, h, dst_y + yy, dst_x + xx, kk);
                if px4(yy, xx, kk) < t {
                    if byte_index(w, dst_y + yy, dst_x + xx, kk) == di {
                        lemma_byte_index_injective(w, h, dst_y + yy, dst_x + xx, kk, dst_y + sy, dst_x + sx, k as int);
                    }
                } else {
                    assert(yy == sy && xx == sx && kk == k);
                }
            }
            assert forall|j: int| 0 <= j < d0.len() && !in_tile(w, dst_x as int, dst_y as int, j) implies #[trigger] dst@[j]
                == d0[j] by {
                if j == di {
                    assert(j == byte_index(w, dst_y + sy, dst_x + sx, k as int));
                }
            }
        }
        t = t + 1;
    }
}

/// Composites one source pixel (bytes `si..si+4` of `src`) over the destination pixel at
/// bytes `di..di+4`.
fn blend_pixel(dst: &mut Vec<u8>, di: usize, src: &[u8; 64], si: usize)
    requires
        di + 4 <= old(dst)@.len(),
        si + 4 <= 64,
    ensures
        final(dst)@.len() == old(dst)@.len(),
        forall|k: int|
            0 <= k < 4 ==> final(dst)@[di + k] == blend_byte(old(dst)@[di + k], #[trigger] src@[si + k], src@[si + 3], k),
        forall|j: int| 0 <= j < old(dst)@.len() && !(di <= j < di + 4) ==> #[trigger] final(dst)@[j] == old(dst)@[j],
{
    let n = dst.len();
    let sa = src[si + 3] as u16;
    if sa == 0 {
        return;
    }
    if sa == 255 {
        dst.set(di, src[si]);
        dst.set(di + 1, src[si + 1]);
        dst.set(di + 2, src[si + 2]);
        dst.set(di + 3, src[si + 3]);
        return;
    }
    let inv = 255 - sa;
    let mut c: usize = 0;
    while c < 3
        invariant
            c <= 3,
            di + 4 <= old(dst)@.len(),
            n == old(dst)@.len(),
            si + 4 <= 64,
            sa == src@[si + 3],
            0 < sa < 255,
            inv == 255 - sa,
            dst@.len() == old(dst)@.len(),
            forall|k: int| 0 <= k < c ==> dst@[di + k] == blend_byte(old(dst)@[di + k], #[trigger] src@[si + k], src@[si + 3], k),
            forall|j: int| 0 <= j < old(dst)@.len() && !(di <= j < di + c) ==> #[trigger] dst@[j] == old(dst)@[j],
        decreases 3 - c,
    {
        let d = dst[di + c] as u16;
        let sv = src[si + c] as u16;
        proof {
            assert(d * inv + sv * sa <= 255 * 255) by (nonlinear_arith)
                requires
                    d <= 255,
                    sv <= 255,
                    inv + sa == 255,
                    0 <= inv,
                    0 <= sa,
            ;
        }
        let v = ((d * inv + sv * sa) / 255) as u8;
        dst.set(di + c, v);
        c = c + 1;
    }
    dst.set(di + 3, 255);
}

/// Alpha-composited blit: draws a 4x4 RGBA tile over the buffer at pixel
/// (dst_x, dst_y), blending each pixel by the tile's alpha.
pub fn alpha_blit_tile(dst: &mut Vec<u8>, dst_w: u32, dst_x: u32, dst_y: u32, src_buf: &[u8; 64])
    requires
        tile_fits(old(dst)@.len() as int, dst_w as int, dst_x as int, dst_y as int),
    ensures
        final(dst)@.len() == old(dst)@.len(),
        forall|sy: int, sx: int, k: int|
            0 <= sy < 4 && 0 <= sx < 4 && 0 <= k < 4 ==> final(dst)@[#[trigger] byte_index(
                dst_w as int,
                dst_y + sy,
                dst_x + sx,
                k,
            )] == blend_byte(
                old(dst)@[byte_index(dst_w as int, dst_y + sy, dst_x + sx, k)],
                src_buf@[px4(sy, sx, k)],
                src_buf@[px4(sy, sx, 3)],
                k,
            ),
        forall|j: int|
            0 <= j < old(dst)@.len() && !in_tile(dst_w as int, dst_x as int, dst_y as int, j) ==> #[trigger] final(dst)@[j]
                == old(dst)@[j],
{
    let ghost w = dst_w as int;
    let ghost h = dst_y as int + 4;
    let ghost d0 = dst@;
    proof {
        assert(w * h == (dst_y + 4) * w) by (nonlinear_arith)
            requires
                h == dst_y + 4,
        ;
        assert(dst_y + 4 <= (dst_y + 4) * w) by (nonlinear_arith)
            requires
                4 <= w,
        ;
    }
    let mut p: usize = 0;
    while p < 16
        invariant
            p <= 16,
            w == dst_w,
            h == dst_y + 4,
            w * h == (dst_y + 4) * w,
            dst_y + 4 <= u32::MAX,
            tile_fits(d0.len() as int, w, dst_x as int, dst_y as int),
            dst@.len() == d0.len(),
            forall|sy: int, sx: int, k: int|
                0 <= sy < 4 && 0 <= sx < 4 && 0 <= k < 4 && sy * 4 + sx < p ==> dst@[#[trigger] byte_index(
                    w,
                    dst_y + sy,
                    dst_x + sx,
                    k,
                )] == blend_byte(
                    d0[byte_index(w, dst_y + sy, dst_x + sx, k)],
                    src_buf@[px4(sy, sx, k)],
                    src_buf@[px4(sy, sx, 3)],
                    k,
                ),
            forall|sy: int, sx: int, k: int|
                0 <= sy < 4 && 0 <= sx < 4 && 0 <= k < 4 && sy * 4 + sx >= p ==> dst@[#[trigger] byte_index(
                    w,
                    dst_y + sy,
                    dst_x + sx,
                    k,
                )] == d0[byte_index(w, dst_y + sy, dst_x + sx, k)],
            forall|j: int| 0 <= j < d0.len() && !in_tile(w, dst_x as int, dst_y as int, j) ==> #[trigger] dst@[j] == d0[j],
        decreases 16 - p,
    {
        let sy = (p / 4) as u32;
        let sx = (p % 4) as u32;
        proof {
            lemma_byte_index(w, h, dst_y + sy, dst_x + sx, 0);
            lemma_byte_index(w, h, dst_y + sy, dst_x + sx, 3);
            assert(0 <= (dst_y + sy) * w) by (nonlinear_arith)
                requires
                    0 <= w,
            ;
        }
        let n = dst.len();
        let di = ((dst_y + sy) * dst_w + dst_x + sx) as usize * 4;
        let si = p * 4;
        let ghost before = dst@;
        blend_pixel(dst, di, src_buf, si);
        proof {
            assert forall|yy: int, xx: int, kk: int|
                0 <= yy < 4 && 0 <= xx < 4 && 0 <= kk < 4 implies (yy * 4 + xx < p + 1 ==> dst@[#[trigger] byte_index(
                w,
                dst_y + yy,
                dst_x + xx,
                kk,
            )] == blend_byte(
                d0[byte_index(w, dst_y + yy, dst_x + xx, kk)],
                src_buf@[px4(yy, xx, kk)],
                src_buf@[px4(yy, xx, 3)],
                kk,
            )) && (yy * 4 + xx >= p + 1 ==> dst@[byte_index(w, dst_y + yy, dst_x + xx, kk)] == d0[byte_index(
                w,
                dst_y + yy,
                dst_x + xx,
                kk,
            )]) by {
                lemma_byte_index(w, h, dst_y + yy, dst_x + xx, kk);
                let b = byte_index(w, dst_y + yy, dst_x + xx, kk);
                if yy * 4 + xx == p {
                    assert(yy == sy && xx == sx);
                    assert(b == di + kk);
                    assert(src_buf@[si + kk] == src_buf@[px4(yy, xx, kk)]);
                } else {
                    if di <= b < di + 4 {
                        lemma_byte_index_injective(w, h, dst_y + yy, dst_x + xx, kk, dst_y + sy, dst_x + sx, b - di);
                    }
                }
            }
            assert forall|j: int| 0 <= j < d0.len() && !in_tile(w, dst_x as int, dst_y as int, j) implies #[trigger] dst@[j]
                == d0[j] by {
                if di <= j < di + 4 {
                    assert(j == byte_index(w, dst_y + sy, dst_x + sx, j - di));
                }
            }
        }
        p = p + 1;
    }
}

} // verus!

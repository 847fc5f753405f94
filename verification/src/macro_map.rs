use vstd::prelude::*;

use crate::arith::{lemma_cell_index, lemma_div_below};
use crate::blit::{byte_index, lemma_byte_index};
use crate::map::MapData;
use crate::tile::{TileDefinition, TileRegistry, TileType};

verus! {

/// Number of chunks along each side of one macro-map texture group.
pub const MACRO_GROUP_SIZE: u32 = 10;

/// Which rendering mode is active.
#[derive(Clone, Copy, PartialEq, Eq, Debug, Structural)]
pub enum MapMode {
    Standard,
    Macro,
}

/// The mode to switch to after a zoom change, if any: zooming out past the
/// threshold enters the macro map, zooming back in leaves it.
pub fn next_map_mode(current: MapMode, zoomed_out: bool) -> (r: Option<MapMode>)
    ensures
        r == (if current == MapMode::Standard && zoomed_out {
            Some(MapMode::Macro)
        } else if current == MapMode::Macro && !zoomed_out {
            Some(MapMode::Standard)
        } else {
            None
        }),
{
    match current {
        MapMode::Standard => if zoomed_out {
            Some(MapMode::Macro)
        } else {
            None
        },
        MapMode::Macro => if !zoomed_out {
            Some(MapMode::Standard)
        } else {
            None
        },
    }
}

/// The chunk ranges `cx_start..cx_end`, `cy_start..cy_end` covered by one macro group.
#[derive(Clone, Copy, Debug)]
pub struct MacroGroup {
    pub cx_start: u32,
    pub cx_end: u32,
    pub cy_start: u32,
    pub cy_end: u32,
}

/// Number of groups needed to cover `chunks` chunks along one axis.
pub open spec fn group_count(chunks: int) -> int {
    (chunks + MACRO_GROUP_SIZE - 1) / (MACRO_GROUP_SIZE as int)
}

/// Smaller of two integers.
pub open spec fn min_int(a: int, b: int) -> int {
    if a < b {
        a
    } else {
        b
    }
}

/// The chunk ranges of group (gx, gy), clipped to the map's chunks.
pub open spec fn group_of(gx: int, gy: int, chunks_x: int, chunks_y: int) -> MacroGroup {
    MacroGroup {
        cx_start: (gx * MACRO_GROUP_SIZE) as u32,
        cx_end: min_int(gx * MACRO_GROUP_SIZE + MACRO_GROUP_SIZE, chunks_x) as u32,
        cy_start: (gy * MACRO_GROUP_SIZE) as u32,
        cy_end: min_int(gy * MACRO_GROUP_SIZE + MACRO_GROUP_SIZE, chunks_y) as u32,
    }
}

/// Number of macro groups across and down a map of `chunks_x` by `chunks_y` chunks.
pub fn macro_group_counts(chunks_x: u32, chunks_y: u32) -> (r: (u32, u32))
    requires
        chunks_x + MACRO_GROUP_SIZE <= u32::MAX,
        chunks_y + MACRO_GROUP_SIZE <= u32::MAX,
    ensures
        r.0 == group_count(chunks_x as int),
        r.1 == group_count(chunks_y as int),
{
    ((chunks_x + MACRO_GROUP_SIZE - 1) / MACRO_GROUP_SIZE, (chunks_y + MACRO_GROUP_SIZE - 1) / MACRO_GROUP_SIZE)
}

/// The chunk ranges of macro group (gx, gy).
pub fn macro_group(gx: u32, gy: u32, chunks_x: u32, chunks_y: u32) -> (r: MacroGroup)
    requires
        gx * MACRO_GROUP_SIZE + MACRO_GROUP_SIZE <= u32::MAX,
        gy * MACRO_GROUP_SIZE + MACRO_GROUP_SIZE <= u32::MAX,
    ensures
        r == group_of(gx as int, gy as int, chunks_x as int, chunks_y as int),
{
    let cx_start = gx * MACRO_GROUP_SIZE;
    let cx_end = if cx_start + MACRO_GROUP_SIZE < chunks_x { cx_start + MACRO_GROUP_SIZE } else { chunks_x };
    let cy_start = gy * MACRO_GROUP_SIZE;
    let cy_end = if cy_start + MACRO_GROUP_SIZE < chunks_y { cy_start + MACRO_GROUP_SIZE } else { chunks_y };
    MacroGroup { cx_start, cx_end, cy_start, cy_end }
}

/// Every chunk of the map lies in exactly one macro group: group
/// (cx / MACRO_GROUP_SIZE, cy / MACRO_GROUP_SIZE), which is one of the counted groups.
pub proof fn law_chunk_in_one_group(chunks_x: int, chunks_y: int, cx: int, cy: int, gx: int, gy: int)
    requires
        0 <= cx < chunks_x <= u32::MAX,
        0 <= cy < chunks_y <= u32::MAX,
        0 <= gx,
        0 <= gy,
        gx * MACRO_GROUP_SIZE + MACRO_GROUP_SIZE <= u32::MAX,
        gy * MACRO_GROUP_SIZE + MACRO_GROUP_SIZE <= u32::MAX,
    ensures
        0 <= cx / (MACRO_GROUP_SIZE as int) < group_count(chunks_x),
        0 <= cy / (MACRO_GROUP_SIZE as int) < group_count(chunks_y),
        ({
            let g = group_of(gx, gy, chunks_x, chunks_y);
            (g.cx_start <= cx < g.cx_end && g.cy_start <= cy < g.cy_end) <==> (gx == cx / (MACRO_GROUP_SIZE as int)
                && gy == cy / (MACRO_GROUP_SIZE as int))
        }),
{
    lemma_group_axis(chunks_x, cx, gx);
    lemma_group_axis(chunks_y, cy, gy);
}

/// One axis of the group law: chunk `c` lies in group `g`'s range exactly when
/// `g == c / MACRO_GROUP_SIZE`, and that group is counted.
proof fn lemma_group_axis(chunks: int, c: int, g: int)
    requires
        0 <= c < chunks,
        0 <= g,
    ensures
        0 <= c / (MACRO_GROUP_SIZE as int) < group_count(chunks),
        (g * MACRO_GROUP_SIZE <= c < min_int(g * MACRO_GROUP_SIZE + MACRO_GROUP_SIZE, chunks)) <==> g == c / (
        MACRO_GROUP_SIZE as int),
{
    let n = MACRO_GROUP_SIZE as int;
    let q = c / n;
    vstd::arithmetic::div_mod::lemma_fundamental_div_mod(c, n);
    assert(q * n <= c < q * n + n) by (nonlinear_arith)
        requires
            c == n * q + c % n,
            0 <= c % n < n,
    ;
    assert(0 <= q);
    assert(q < group_count(chunks)) by {
        vstd::arithmetic::div_mod::lemma_fundamental_div_mod(chunks + n - 1, n);
        let r = (chunks + n - 1) / n;
        assert(q < r) by (nonlinear_arith)
            requires
                chunks + n - 1 == n * r + (chunks + n - 1) % n,
                0 <= (chunks + n - 1) % n < n,
                q * n <= c,
                c < chunks,
                n == 10,
        ;
    }
    if g * n <= c < min_int(g * n + n, chunks) {
        assert(g == q) by (nonlinear_arith)
            requires
                g * n <= c < g * n + n,
                q * n <= c < q * n + n,
                n == 10,
        ;
    }
}

/// Colour of tile type `t` on the macro map: its registered macro colour, black when
/// the type has no definition.
pub open spec fn macro_color(reg: Map<TileType, TileDefinition>, t: TileType) -> [u8; 3] {
    if reg.contains_key(t) {
        reg[t].macro_color
    } else {
        [0u8, 0u8, 0u8]
    }
}

/// Byte `k` of the opaque RGBA macro-map pixel of tile type `t`.
pub open spec fn macro_byte(reg: Map<TileType, TileDefinition>, t: TileType, k: int) -> u8 {
    if k == 3 {
        255u8
    } else {
        macro_color(reg, t)@[k]
    }
}

/// Byte `j` belongs to the top-left `rw` by `rh` pixel block of an RGBA buffer `w`
/// pixels wide.
pub open spec fn in_block(w: int, rw: int, rh: int, j: int) -> bool {
    &&& 0 <= j
    &&& (j / 4) / w < rh
    &&& (j / 4) % w < rw
}

/// The region of chunks `cx_start..cx_end` by `cy_start..cy_end`, drawn one pixel per
/// tile into a buffer `tex_w` pixels wide, fits the map and the buffer.
pub open spec fn macro_region_fits(
    map: &MapData,
    len: int,
    cx_start: int,
    cx_end: int,
    cy_start: int,
    cy_end: int,
    tex_w: int,
) -> bool {
    let cs = map.chunk_size as int;
    &&& cx_start <= cx_end <= map.chunks_x
    &&& cy_start <= cy_end <= map.chunks_y
    &&& (cx_end - cx_start) * cs <= tex_w
    &&& (cy_end - cy_start) * cs * tex_w <= u32::MAX
    &&& (cy_end - cy_start) * cs * tex_w * 4 <= len
}

/// Byte `j` of `pixels` holds macro pixel (col, row) of the region starting at tile
/// (x0, y0): the region's bytes are the macro colours of its tiles, all other bytes
/// are those of `before`.
pub open spec fn macro_block_filled(
    pixels: Seq<u8>,
    before: Seq<u8>,
    map: &MapData,
    reg: Map<TileType, TileDefinition>,
    x0: int,
    y0: int,
    rw: int,
    rh: int,
    w: int,
) -> bool {
    &&& pixels.len() == before.len()
    &&& forall|row: int, col: int, k: int|
        0 <= row < rh && 0 <= col < rw && 0 <= k < 4 ==> pixels[#[trigger] byte_index(w, row, col, k)] == macro_byte(
            reg,
            map.tile_at(x0 + col, y0 + row),
            k,
        )
    &&& forall|j: int| 0 <= j < before.len() && !in_block(w, rw, rh, j) ==> #[trigger] pixels[j] == before[j]
}

/// Writes one macro pixel: the macro colour of `t` at bytes `di..di+4`, opaque.
fn put_macro_pixel(pixels: &mut Vec<u8>, di: usize, reg: &TileRegistry, t: TileType)
    requires
        di + 4 <= old(pixels)@.len(),
    ensures
        final(pixels)@.len() == old(pixels)@.len(),
        forall|k: int| 0 <= k < 4 ==> final(pixels)@[di + k] == #[trigger] macro_byte(reg@, t, k),
        forall|j: int| 0 <= j < old(pixels)@.len() && !(di <= j < di + 4) ==> #[trigger] final(pixels)@[j] == old(pixels)@[j],
{
    let n = pixels.len();
    let color = match reg.get(t) {
        Some(d) => d.macro_color,
        None => [0u8, 0u8, 0u8],
    };
    pixels.set(di, color[0]);
    pixels.set(di + 1, color[1]);
    pixels.set(di + 2, color[2]);
    pixels.set(di + 3, 255);
}

/// Fills the macro-map pixels of chunks `cx_start..cx_end` by `cy_start..cy_end` into
/// an RGBA buffer `tex_w` pixels wide: one opaque pixel per tile, in the macro colour
/// of its type (black for an unregistered type), the region's top-left pixel being
/// the first tile of chunk (cx_start, cy_start). Other bytes are left as they were.
pub fn fill_macro_group_pixels(
    pixels: &mut Vec<u8>,
    cx_start: u32,
    cx_end: u32,
    cy_start: u32,
    cy_end: u32,
    tex_w: u32,
    map_data: &MapData,
    tile_registry: &TileRegistry,
)
    requires
        map_data.wf(),
        macro_region_fits(
            map_data,
            old(pixels)@.len() as int,
            cx_start as int,
            cx_end as int,
            cy_start as int,
            cy_end as int,
            tex_w as int,
        ),
    ensures
        macro_block_filled(
            final(pixels)@,
            old(pixels)@,
            map_data,
            tile_registry@,
            cx_start * map_data.chunk_size,
            cy_start * map_data.chunk_size,
            (cx_end - cx_start) * map_data.chunk_size,
            (cy_end - cy_start) * map_data.chunk_size,
            tex_w as int,
        ),
{
    let cs = map_data.chunk_size;
    let ghost w = tex_w as int;
    let ghost d0 = pixels@;
    proof {
        assert(cx_end * cs <= map_data.width_spec()) by (nonlinear_arith)
            requires
                cx_end <= map_data.chunks_x,
                map_data.width_spec() == map_data.chunks_x * cs,
                0 <= cs,
        ;
        assert(cy_end * cs <= map_data.height_spec()) by (nonlinear_arith)
            requires
                cy_end <= map_data.chunks_y,
                map_data.height_spec() == map_data.chunks_y * cs,
                0 <= cs,
        ;
        assert(cx_start * cs <= cx_end * cs) by (nonlinear_arith)
            requires
                cx_start <= cx_end,
                0 <= cs,
        ;
        assert(cy_start * cs <= cy_end * cs) by (nonlinear_arith)
            requires
                cy_start <= cy_end,
                0 <= cs,
        ;
        assert((cx_end - cx_start) * cs == cx_end * cs - cx_start * cs) by (nonlinear_arith);
        assert((cy_end - cy_start) * cs == cy_end * cs - cy_start * cs) by (nonlinear_arith);
    }
    let x0 = cx_start * cs;
    let y0 = cy_start * cs;
    let rw = cx_end * cs - x0;
    let rh = cy_end * cs - y0;
    if rw == 0 || rh == 0 {
        proof {
            assert forall|j: int| 0 <= j < d0.len() && !in_block(w, rw as int, rh as int, j) implies #[trigger] pixels@[j]
                == d0[j] by {}
        }
        return;
    }
    let mut row: u32 = 0;
    while row < rh
        invariant
            0 < rw <= tex_w,
            0 < rh,
            row <= rh,
            w == tex_w,
            map_data.wf(),
            x0 + rw <= map_data.width_spec(),
            y0 + rh <= map_data.height_spec(),
            rh * w <= u32::MAX,
            rh * w * 4 <= d0.len(),
            pixels@.len() == d0.len(),
            forall|r: int, c: int, k: int|
                0 <= r < row && 0 <= c < rw && 0 <= k < 4 ==> pixels@[#[trigger] byte_index(w, r, c, k)] == macro_byte(
                    tile_registry@,
                    map_data.tile_at(x0 + c, y0 + r),
                    k,
                ),
            forall|j: int| 0 <= j < d0.len() && !in_block(w, rw as int, row as int, j) ==> #[trigger] pixels@[j] == d0[j],
        decreases rh - row,
    {
        let mut col: u32 = 0;
        while col < rw
            invariant
                0 < rw <= tex_w,
                row < rh,
                col <= rw,
                w == tex_w,
                map_data.wf(),
                x0 + rw <= map_data.width_spec(),
                y0 + rh <= map_data.height_spec(),
                rh * w <= u32::MAX,
                rh * w * 4 <= d0.len(),
                pixels@.len() == d0.len(),
                forall|r: int, c: int, k: int|
                    0 <= r < rh && 0 <= c < rw && 0 <= k < 4 && (r < row || (r == row && c < col)) ==> pixels@[
                    #[trigger] byte_index(w, r, c, k)] == macro_byte(tile_registry@, map_data.tile_at(x0 + c, y0 + r), k),
                forall|j: int|
                    0 <= j < d0.len() && !in_block(w, rw as int, row as int, j) && !(in_block(w, rw as int, row + 1, j)
                        && (j / 4) % w < col) ==> #[trigger] pixels@[j] == d0[j],
            decreases rw - col,
        {
            proof {
                lemma_cell_index(w, rh as int, row as int, col as int);
                lemma_byte_index(w, rh as int, row as int, col as int, 0);
                assert(w * rh * 4 == rh * w * 4) by (nonlinear_arith);
            }
            let n = pixels.len();
            let di = (row * tex_w + col) as usize * 4;
            let t = map_data.get_tile(x0 + col, y0 + row);
            let ghost before = pixels@;
            put_macro_pixel(pixels, di, tile_registry, t);
            proof {
                assert forall|r: int, c: int, k: int|
                    0 <= r < rh && 0 <= c < rw && 0 <= k < 4 && (r < row || (r == row && c < col + 1)) implies pixels@[
                    #[trigger] byte_index(w, r, c, k)] == macro_byte(tile_registry@, map_data.tile_at(x0 + c, y0 + r), k) by {
                    lemma_byte_index(w, rh as int, r, c, k);
                    let b = byte_index(w, r, c, k);
                    if r == row && c == col {
                        assert(b == di + k);
                    } else if di <= b < di + 4 {
                        crate::blit::lemma_byte_index_injective(w, rh as int, r, c, k, row as int, col as int, b - di);
                    }
                }
                assert forall|j: int|
                    0 <= j < d0.len() && !in_block(w, rw as int, row as int, j) && !(in_block(w, rw as int, row + 1, j)
                        && (j / 4) % w < col + 1) implies #[trigger] pixels@[j] == d0[j] by {
                    if di <= j < di + 4 {
                        lemma_byte_index(w, rh as int, row as int, col as int, j - di);
                        assert(j == byte_index(w, row as int, col as int, j - di));
                    }
                }
            }
            col = col + 1;
        }
        proof {
            assert forall|j: int| 0 <= j < d0.len() && !in_block(w, rw as int, row + 1, j) implies #[trigger] pixels@[j]
                == d0[j] by {}
        }
        row = row + 1;
    }
}

/// Index `j` of the per-chunk flags is a chunk of group `g` (on a map `chunks_x`
/// chunks wide).
pub open spec fn in_group(g: MacroGroup, chunks_x: int, j: int) -> bool {
    &&& 0 <= j
    &&& g.cy_start <= j / chunks_x < g.cy_end
    &&& g.cx_start <= j % chunks_x < g.cx_end
}

/// `next` is `map` with the macro dirty flags of group `g` cleared and nothing else
/// changed.
pub open spec fn group_flags_cleared(map: &MapData, next: &MapData, g: MacroGroup) -> bool {
    &&& next.wf()
    &&& map.same_shape(next)
    &&& next.tiles_view() == map.tiles_view()
    &&& next.dirty_chunks@ == map.dirty_chunks@
    &&& next.macro_dirty_chunks@.len() == map.macro_dirty_chunks@.len()
    &&& forall|j: int|
        0 <= j < map.macro_dirty_chunks@.len() ==> #[trigger] next.macro_dirty_chunks@[j] == (map.macro_dirty_chunks@[j]
            && !in_group(g, map.chunks_x as int, j))
}

/// Some chunk of group `g` has its macro dirty flag set in `map`.
pub open spec fn group_dirty(map: &MapData, g: MacroGroup) -> bool {
    exists|j: int|
        0 <= j < map.macro_dirty_chunks@.len() && in_group(g, map.chunks_x as int, j)
            && #[trigger] map.macro_dirty_chunks@[j]
}

/// Reads and clears the macro dirty flags of every chunk of group `g`; returns
/// whether any of them was set.
pub fn take_group_dirty(map_data: &mut MapData, g: MacroGroup) -> (any_dirty: bool)
    requires
        old(map_data).wf(),
        g.cx_end <= old(map_data).chunks_x,
        g.cy_end <= old(map_data).chunks_y,
    ensures
        group_flags_cleared(&*old(map_data), &*final(map_data), g),
        any_dirty == group_dirty(&*old(map_data), g),
{
    let ghost m0 = *map_data;
    let ghost cxn = m0.chunks_x as int;
    let mut any_dirty = false;
    let mut cy = g.cy_start;
    while cy < g.cy_end
        invariant
            g.cy_start <= cy,
            g.cx_end <= m0.chunks_x,
            g.cy_end <= m0.chunks_y,
            cxn == m0.chunks_x,
            map_data.wf(),
            m0.same_shape(&*map_data),
            map_data.tiles_view() == m0.tiles_view(),
            map_data.dirty_chunks@ == m0.dirty_chunks@,
            map_data.macro_dirty_chunks@.len() == m0.macro_dirty_chunks@.len(),
            forall|j: int|
                0 <= j < m0.macro_dirty_chunks@.len() ==> #[trigger] map_data.macro_dirty_chunks@[j] == (
                m0.macro_dirty_chunks@[j] && !(in_group(g, cxn, j) && j / cxn < cy)),
            any_dirty <==> exists|j: int|
                0 <= j < m0.macro_dirty_chunks@.len() && in_group(g, cxn, j) && j / cxn < cy
                    && #[trigger] m0.macro_dirty_chunks@[j],
        decreases g.cy_end - cy,
    {
        let mut cx = g.cx_start;
        while cx < g.cx_end
            invariant
                g.cy_start <= cy < g.cy_end,
                g.cx_start <= cx,
                g.cx_end <= m0.chunks_x,
                g.cy_end <= m0.chunks_y,
                cxn == m0.chunks_x,
                map_data.wf(),
                m0.same_shape(&*map_data),
                map_data.tiles_view() == m0.tiles_view(),
                map_data.dirty_chunks@ == m0.dirty_chunks@,
                map_data.macro_dirty_chunks@.len() == m0.macro_dirty_chunks@.len(),
                forall|j: int|
                    0 <= j < m0.macro_dirty_chunks@.len() ==> #[trigger] map_data.macro_dirty_chunks@[j] == (
                    m0.macro_dirty_chunks@[j] && !(in_group(g, cxn, j) && (j / cxn < cy || (j / cxn == cy && j % cxn
                        < cx)))),
                any_dirty <==> exists|j: int|
                    0 <= j < m0.macro_dirty_chunks@.len() && in_group(g, cxn, j) && (j / cxn < cy || (j / cxn == cy
                        && j % cxn < cx)) && #[trigger] m0.macro_dirty_chunks@[j],
            decreases g.cx_end - cx,
        {
            let ghost before = *map_data;
            let ghost ci = cy * cxn + cx;
            proof {
                lemma_cell_index(cxn, m0.chunks_y as int, cy as int, cx as int);
                crate::arith::lemma_cell_coords(cxn, cy as int, cx as int);
            }
            let was = map_data.take_macro_chunk_dirty(cx, cy);
            proof {
                assert(before.chunk_index(cx as int, cy as int) == ci);
                assert forall|j: int|
                    0 <= j < m0.macro_dirty_chunks@.len() implies #[trigger] map_data.macro_dirty_chunks@[j] == (
                    m0.macro_dirty_chunks@[j] && !(in_group(g, cxn, j) && (j / cxn < cy || (j / cxn == cy && j % cxn
                        < cx + 1)))) by {
                    if j == ci {
                    } else {
                        assert(!(j / cxn == cy && j % cxn == cx)) by {
                            if j / cxn == cy && j % cxn == cx {
                                vstd::arithmetic::div_mod::lemma_fundamental_div_mod(j, cxn);
                                assert(j == cxn * cy + cx);
                                assert(cxn * cy == cy * cxn) by (nonlinear_arith);
                            }
                        }
                    }
                }
                assert(ci / cxn == cy && ci % cxn == cx);
                assert(was == m0.macro_dirty_chunks@[ci]);
                assert(in_group(g, cxn, ci));
                if was {
                    assert(m0.macro_dirty_chunks@[ci]);
                } else {
                    assert forall|j: int|
                        0 <= j < m0.macro_dirty_chunks@.len() && in_group(g, cxn, j) && (j / cxn < cy || (j / cxn == cy
                            && j % cxn < cx + 1)) && #[trigger] m0.macro_dirty_chunks@[j] implies (j / cxn < cy || (j
                        / cxn == cy && j % cxn < cx)) by {
                        if j / cxn == cy && j % cxn == cx {
                            vstd::arithmetic::div_mod::lemma_fundamental_div_mod(j, cxn);
                            assert(cxn * cy == cy * cxn) by (nonlinear_arith);
                            assert(j == ci);
                        }
                    }
                }
            }
            if was {
                any_dirty = true;
            }
            cx = cx + 1;
        }
        proof {
            assert forall|j: int|
                0 <= j < m0.macro_dirty_chunks@.len() implies #[trigger] map_data.macro_dirty_chunks@[j] == (
                m0.macro_dirty_chunks@[j] && !(in_group(g, cxn, j) && j / cxn < cy + 1)) by {}
        }
        cy = cy + 1;
    }
    proof {
        assert forall|j: int|
            0 <= j < m0.macro_dirty_chunks@.len() implies #[trigger] map_data.macro_dirty_chunks@[j] == (
            m0.macro_dirty_chunks@[j] && !in_group(g, cxn, j)) by {}
    }
    any_dirty
}

/// Width in pixels (one per tile) of the texture of group `g`.
pub open spec fn group_tex_w(map: &MapData, g: MacroGroup) -> int {
    (g.cx_end - g.cx_start) * map.chunk_size
}

/// Height in pixels (one per tile) of the texture of group `g`.
pub open spec fn group_tex_h(map: &MapData, g: MacroGroup) -> int {
    (g.cy_end - g.cy_start) * map.chunk_size
}

/// The RGBA texture `pixels` shows group `g` of `map`: every pixel the macro colour
/// of its tile, `before` being the buffer it was drawn over.
pub open spec fn group_drawn(
    pixels: Seq<u8>,
    before: Seq<u8>,
    map: &MapData,
    reg: Map<TileType, TileDefinition>,
    g: MacroGroup,
) -> bool {
    macro_block_filled(
        pixels,
        before,
        map,
        reg,
        g.cx_start * map.chunk_size,
        g.cy_start * map.chunk_size,
        group_tex_w(map, g),
        group_tex_h(map, g),
        group_tex_w(map, g),
    )
}

/// A group of the map is non-empty, lies inside the map, and its texture's pixel
/// count fits in a `u32`.
proof fn lemma_group_fits(map: &MapData, gx: int, gy: int)
    requires
        map.wf(),
        0 <= gx < group_count(map.chunks_x as int),
        0 <= gy < group_count(map.chunks_y as int),
        map.chunks_x + MACRO_GROUP_SIZE <= u32::MAX,
        map.chunks_y + MACRO_GROUP_SIZE <= u32::MAX,
    ensures
        ({
            let g = group_of(gx, gy, map.chunks_x as int, map.chunks_y as int);
            &&& g.cx_start < g.cx_end <= map.chunks_x
            &&& g.cy_start < g.cy_end <= map.chunks_y
            &&& gx * MACRO_GROUP_SIZE + MACRO_GROUP_SIZE <= u32::MAX
            &&& gy * MACRO_GROUP_SIZE + MACRO_GROUP_SIZE <= u32::MAX
            &&& 0 < group_tex_w(map, g) <= map.width_spec()
            &&& 0 < group_tex_h(map, g) <= map.height_spec()
            &&& group_tex_h(map, g) * group_tex_w(map, g) <= u32::MAX
        }),
{
    let n = MACRO_GROUP_SIZE as int;
    let cs = map.chunk_size as int;
    let cxn = map.chunks_x as int;
    let cyn = map.chunks_y as int;
    assert(gx * n < cxn) by {
        vstd::arithmetic::div_mod::lemma_fundamental_div_mod(cxn + n - 1, n);
        let r = (cxn + n - 1) / n;
        assert(gx * n < cxn) by (nonlinear_arith)
            requires
                cxn + n - 1 == n * r + (cxn + n - 1) % n,
                0 <= (cxn + n - 1) % n,
                gx < r,
                n == 10,
        ;
    }
    assert(gy * n < cyn) by {
        vstd::arithmetic::div_mod::lemma_fundamental_div_mod(cyn + n - 1, n);
        let r = (cyn + n - 1) / n;
        assert(gy * n < cyn) by (nonlinear_arith)
            requires
                cyn + n - 1 == n * r + (cyn + n - 1) % n,
                0 <= (cyn + n - 1) % n,
                gy < r,
                n == 10,
        ;
    }
    let g = group_of(gx, gy, cxn, cyn);
    let a = (g.cx_end - g.cx_start) as int;
    let b = (g.cy_end - g.cy_start) as int;
    assert(0 < a * cs <= cxn * cs) by (nonlinear_arith)
        requires
            0 < a <= cxn,
            0 < cs,
    ;
    assert(0 < b * cs <= cyn * cs) by (nonlinear_arith)
        requires
            0 < b <= cyn,
            0 < cs,
    ;
    assert((b * cs) * (a * cs) <= (cyn * cs) * (cxn * cs)) by (nonlinear_arith)
        requires
            0 < a * cs <= cxn * cs,
            0 < b * cs <= cyn * cs,
    ;
    assert((cyn * cs) * (cxn * cs) == map.width_spec() * map.height_spec()) by (nonlinear_arith)
        requires
            map.width_spec() == cxn * cs,
            map.height_spec() == cyn * cs,
    ;
}

/// Draws the macro-map texture of group `g` into a new RGBA buffer.
pub fn macro_group_pixels(map_data: &MapData, tile_registry: &TileRegistry, gx: u32, gy: u32) -> (r: (MacroGroup, Vec<u8>))
    requires
        map_data.wf(),
        gx < group_count(map_data.chunks_x as int),
        gy < group_count(map_data.chunks_y as int),
        map_data.chunks_x + MACRO_GROUP_SIZE <= u32::MAX,
        map_data.chunks_y + MACRO_GROUP_SIZE <= u32::MAX,
        group_tex_w(map_data, group_of(gx as int, gy as int, map_data.chunks_x as int, map_data.chunks_y as int))
            * group_tex_h(map_data, group_of(gx as int, gy as int, map_data.chunks_x as int, map_data.chunks_y as int))
            * 4 <= usize::MAX,
    ensures
        r.0 == group_of(gx as int, gy as int, map_data.chunks_x as int, map_data.chunks_y as int),
        r.1@.len() == group_tex_w(map_data, r.0) * group_tex_h(map_data, r.0) * 4,
        group_drawn(r.1@, Seq::new(r.1@.len(), |i: int| 0u8), map_data, tile_registry@, r.0),
{
    proof {
        lemma_group_fits(map_data, gx as int, gy as int);
    }
    let g = macro_group(gx, gy, map_data.chunks_x, map_data.chunks_y);
    let cs = map_data.chunk_size;
    let tex_w = (g.cx_end - g.cx_start) * cs;
    let tex_h = (g.cy_end - g.cy_start) * cs;
    let n = tex_w as usize * tex_h as usize * 4;
    let mut pixels: Vec<u8> = vec![0u8; n];
    let ghost zero = Seq::new(n as nat, |i: int| 0u8);
    proof {
        assert(pixels@ =~= zero);
        assert(tex_h * tex_w * 4 == tex_w * tex_h * 4) by (nonlinear_arith);
    }
    fill_macro_group_pixels(&mut pixels, g.cx_start, g.cx_end, g.cy_start, g.cy_end, tex_w, map_data, tile_registry);
    (g, pixels)
}

/// Per-frame refresh of one macro group: clears the group's macro dirty flags and,
/// when any was set, redraws the group's texture `pixels` from the map. Returns
/// whether it redrew.
pub fn refresh_macro_group(
    map_data: &mut MapData,
    tile_registry: &TileRegistry,
    gx: u32,
    gy: u32,
    pixels: &mut Vec<u8>,
) -> (redrawn: bool)
    requires
        old(map_data).wf(),
        gx < group_count(old(map_data).chunks_x as int),
        gy < group_count(old(map_data).chunks_y as int),
        old(map_data).chunks_x + MACRO_GROUP_SIZE <= u32::MAX,
        old(map_data).chunks_y + MACRO_GROUP_SIZE <= u32::MAX,
        group_tex_w(
            &*old(map_data),
            group_of(gx as int, gy as int, old(map_data).chunks_x as int, old(map_data).chunks_y as int),
        ) * group_tex_h(
            &*old(map_data),
            group_of(gx as int, gy as int, old(map_data).chunks_x as int, old(map_data).chunks_y as int),
        ) * 4 <= old(pixels)@.len(),
    ensures
        ({
            let g = group_of(gx as int, gy as int, old(map_data).chunks_x as int, old(map_data).chunks_y as int);
            &&& group_flags_cleared(&*old(map_data), &*final(map_data), g)
            &&& redrawn == group_dirty(&*old(map_data), g)
            &&& redrawn ==> group_drawn(final(pixels)@, old(pixels)@, &*old(map_data), tile_registry@, g)
            &&& !redrawn ==> final(pixels)@ == old(pixels)@
        }),
{
    proof {
        lemma_group_fits(&*map_data, gx as int, gy as int);
    }
    let ghost m0 = *map_data;
    let g = macro_group(gx, gy, map_data.chunks_x, map_data.chunks_y);
    let any_dirty = take_group_dirty(map_data, g);
    if any_dirty {
        let tex_w = (g.cx_end - g.cx_start) * map_data.chunk_size;
        proof {
            assert(group_tex_h(&m0, g) * group_tex_w(&m0, g) * 4 == group_tex_w(&m0, g) * group_tex_h(&m0, g) * 4)
                by (nonlinear_arith);
        }
        fill_macro_group_pixels(
            pixels,
            g.cx_start,
            g.cx_end,
            g.cy_start,
            g.cy_end,
            tex_w,
            map_data,
            tile_registry,
        );
    }
    any_dirty
}

/// Group (gx, gy) holding per-chunk flag `j` on a map `chunks_x` chunks wide.
pub open spec fn group_pos_of(chunks_x: int, j: int) -> (int, int) {
    ((j % chunks_x) / (MACRO_GROUP_SIZE as int), (j / chunks_x) / (MACRO_GROUP_SIZE as int))
}

/// Number of bytes of the RGBA texture of group `g`.
pub open spec fn group_bytes(map: &MapData, g: MacroGroup) -> int {
    group_tex_w(map, g) * group_tex_h(map, g) * 4
}

/// After a macro-map frame, the texture of group `g` (`before` when the frame began,
/// `map` the map then): redrawn from the map when the group was dirty and its texture
/// holds the whole group, otherwise left as it was.
pub open spec fn group_texture_after_frame(
    after: Seq<u8>,
    before: Seq<u8>,
    map: &MapData,
    reg: Map<TileType, TileDefinition>,
    g: MacroGroup,
) -> bool {
    if before.len() >= group_bytes(map, g) && group_dirty(map, g) {
        group_drawn(after, before, map, reg, g)
    } else {
        after == before
    }
}

/// Flag `j` lies in group (gx, gy) exactly when the group of its chunk is (gx, gy).
proof fn lemma_flag_group(map: &MapData, gx: int, gy: int, j: int)
    requires
        map.wf(),
        0 <= j < map.macro_dirty_chunks@.len(),
        0 <= gx,
        0 <= gy,
        gx * MACRO_GROUP_SIZE + MACRO_GROUP_SIZE <= u32::MAX,
        gy * MACRO_GROUP_SIZE + MACRO_GROUP_SIZE <= u32::MAX,
    ensures
        in_group(group_of(gx, gy, map.chunks_x as int, map.chunks_y as int), map.chunks_x as int, j) <==> group_pos_of(
            map.chunks_x as int,
            j,
        ) == (gx, gy),
        0 <= group_pos_of(map.chunks_x as int, j).0 < group_count(map.chunks_x as int),
        0 <= group_pos_of(map.chunks_x as int, j).1 < group_count(map.chunks_y as int),
{
    let cxn = map.chunks_x as int;
    let cyn = map.chunks_y as int;
    assert(map.macro_dirty_chunks@.len() == cxn * cyn);
    assert(cxn > 0) by (nonlinear_arith)
        requires
            0 <= j < cxn * cyn,
            0 <= cxn,
            0 <= cyn,
    ;
    crate::arith::lemma_index_split(cxn, cyn, j);
    lemma_group_axis(cxn, j % cxn, gx);
    lemma_group_axis(cyn, j / cxn, gy);
}

/// One macro-map frame: for every group, clears its macro dirty flags and, when one
/// was set and its texture in `textures` (indexed `gy * groups_x + gx`) holds the
/// whole group, redraws that texture. Afterwards no macro dirty flag is set.
pub fn refresh_macro_map(map_data: &mut MapData, tile_registry: &TileRegistry, textures: &mut Vec<Vec<u8>>)
    requires
        old(map_data).wf(),
        old(map_data).chunks_x + MACRO_GROUP_SIZE <= u32::MAX,
        old(map_data).chunks_y + MACRO_GROUP_SIZE <= u32::MAX,
        old(textures)@.len() == group_count(old(map_data).chunks_x as int) * group_count(old(map_data).chunks_y as int),
    ensures
        final(map_data).wf(),
        old(map_data).same_shape(&*final(map_data)),
        final(map_data).tiles_view() == old(map_data).tiles_view(),
        final(map_data).dirty_chunks@ == old(map_data).dirty_chunks@,
        final(map_data).macro_dirty_chunks@ == Seq::new(old(map_data).macro_dirty_chunks@.len(), |j: int| false),
        final(textures)@.len() == old(textures)@.len(),
        forall|gx: int, gy: int|
            0 <= gx < group_count(old(map_data).chunks_x as int) && 0 <= gy < group_count(old(map_data).chunks_y as int)
                ==> group_texture_after_frame(
                #[trigger] final(textures)@[gy * group_count(old(map_data).chunks_x as int) + gx]@,
                old(textures)@[gy * group_count(old(map_data).chunks_x as int) + gx]@,
                &*old(map_data),
                tile_registry@,
                group_of(gx, gy, old(map_data).chunks_x as int, old(map_data).chunks_y as int),
            ),
{
    let ghost m0 = *map_data;
    let ghost t0 = textures@;
    let ghost cxn = m0.chunks_x as int;
    let ghost cyn = m0.chunks_y as int;
    let (groups_x, groups_y) = macro_group_counts(map_data.chunks_x, map_data.chunks_y);
    let num_textures = textures.len();
    proof {
        assert(groups_x * 10 <= cxn + 9 && groups_y * 10 <= cyn + 9);
    }
    let mut gy: u32 = 0;
    while gy < groups_y
        invariant
            gy <= groups_y,
            groups_x == group_count(cxn),
            groups_y == group_count(cyn),
            cxn == m0.chunks_x,
            cyn == m0.chunks_y,
            m0.wf(),
            m0.chunks_x + MACRO_GROUP_SIZE <= u32::MAX,
            m0.chunks_y + MACRO_GROUP_SIZE <= u32::MAX,
            map_data.wf(),
            m0.same_shape(&*map_data),
            map_data.tiles_view() == m0.tiles_view(),
            map_data.dirty_chunks@ == m0.dirty_chunks@,
            map_data.macro_dirty_chunks@.len() == m0.macro_dirty_chunks@.len(),
            forall|j: int|
                0 <= j < m0.macro_dirty_chunks@.len() ==> #[trigger] map_data.macro_dirty_chunks@[j] == (
                m0.macro_dirty_chunks@[j] && group_pos_of(cxn, j).1 >= gy),
            textures@.len() == t0.len(),
            t0.len() == groups_x * groups_y,
            num_textures == t0.len(),
            forall|x: int, y: int|
                0 <= x < groups_x && gy <= y < groups_y ==> #[trigger] textures@[y * groups_x + x]@ == t0[y * groups_x
                    + x]@,
            forall|x: int, y: int|
                0 <= x < groups_x && 0 <= y < gy ==> group_texture_after_frame(
                    #[trigger] textures@[y * groups_x + x]@,
                    t0[y * groups_x + x]@,
                    &m0,
                    tile_registry@,
                    group_of(x, y, cxn, cyn),
                ),
        decreases groups_y - gy,
    {
        let mut gx: u32 = 0;
        while gx < groups_x
            invariant
                gx <= groups_x,
                gy < groups_y,
                groups_x == group_count(cxn),
                groups_y == group_count(cyn),
                cxn == m0.chunks_x,
                cyn == m0.chunks_y,
                m0.wf(),
                m0.chunks_x + MACRO_GROUP_SIZE <= u32::MAX,
                m0.chunks_y + MACRO_GROUP_SIZE <= u32::MAX,
                map_data.wf(),
                m0.same_shape(&*map_data),
                map_data.tiles_view() == m0.tiles_view(),
                map_data.dirty_chunks@ == m0.dirty_chunks@,
                map_data.macro_dirty_chunks@.len() == m0.macro_dirty_chunks@.len(),
                forall|j: int|
                    0 <= j < m0.macro_dirty_chunks@.len() ==> #[trigger] map_data.macro_dirty_chunks@[j] == (
                    m0.macro_dirty_chunks@[j] && (group_pos_of(cxn, j).1 > gy || (group_pos_of(cxn, j).1 == gy
                        && group_pos_of(cxn, j).0 >= gx))),
                textures@.len() == t0.len(),
                t0.len() == groups_x * groups_y,
                num_textures == t0.len(),
                forall|x: int, y: int|
                    0 <= x < groups_x && 0 <= y < groups_y && (y > gy || (y == gy && x >= gx)) ==> #[trigger] textures@[y
                        * groups_x + x]@ == t0[y * groups_x + x]@,
                forall|x: int, y: int|
                    0 <= x < groups_x && 0 <= y < groups_y && (y < gy || (y == gy && x < gx)) ==> group_texture_after_frame(
                        #[trigger] textures@[y * groups_x + x]@,
                        t0[y * groups_x + x]@,
                        &m0,
                        tile_registry@,
                        group_of(x, y, cxn, cyn),
                    ),
            decreases groups_x - gx,
        {
            proof {
                lemma_group_fits(&m0, gx as int, gy as int);
                crate::arith::lemma_cell_index(groups_x as int, groups_y as int, gy as int, gx as int);
            }
            let ghost mb = *map_data;
            let ghost g = group_of(gx as int, gy as int, cxn, cyn);
            let idx = gy as usize * groups_x as usize + gx as usize;
            let ghost tb = textures@;
            let gr = macro_group(gx, gy, map_data.chunks_x, map_data.chunks_y);
            proof {
                // The group's flags are still those the frame began with.
                assert forall|j: int| 0 <= j < m0.macro_dirty_chunks@.len() && in_group(g, cxn, j) implies #[trigger] mb.macro_dirty_chunks@[j]
                    == m0.macro_dirty_chunks@[j] by {
                    lemma_flag_group(&m0, gx as int, gy as int, j);
                }
                assert(group_dirty(&mb, g) == group_dirty(&m0, g)) by {
                    if group_dirty(&mb, g) {
                        let j = choose|j: int| 0 <= j < mb.macro_dirty_chunks@.len() && in_group(g, mb.chunks_x as int, j)
                            && #[trigger] mb.macro_dirty_chunks@[j];
                        assert(m0.macro_dirty_chunks@[j]);
                    }
                    if group_dirty(&m0, g) {
                        let j = choose|j: int| 0 <= j < m0.macro_dirty_chunks@.len() && in_group(g, m0.chunks_x as int, j)
                            && #[trigger] m0.macro_dirty_chunks@[j];
                        assert(mb.macro_dirty_chunks@[j]);
                    }
                }
                assert(tb[idx as int]@ == t0[idx as int]@);
            }
            let tex_w = (gr.cx_end - gr.cx_start) * map_data.chunk_size;
            let tex_h = (gr.cy_end - gr.cy_start) * map_data.chunk_size;
            proof {
                assert(tex_w as int * tex_h as int == group_tex_h(&m0, g) * group_tex_w(&m0, g)) by (nonlinear_arith)
                    requires
                        tex_w == group_tex_w(&m0, g),
                        tex_h == group_tex_h(&m0, g),
                ;
            }
            let needed = tex_w as u64 * tex_h as u64 * 4;
            if textures[idx].len() as u64 >= needed {
                refresh_macro_group(map_data, tile_registry, gx, gy, &mut textures[idx]);
            } else {
                take_group_dirty(map_data, gr);
            }
            proof {
                assert forall|j: int|
                    0 <= j < m0.macro_dirty_chunks@.len() implies #[trigger] map_data.macro_dirty_chunks@[j] == (
                    m0.macro_dirty_chunks@[j] && (group_pos_of(cxn, j).1 > gy || (group_pos_of(cxn, j).1 == gy
                        && group_pos_of(cxn, j).0 >= gx + 1))) by {
                    lemma_flag_group(&m0, gx as int, gy as int, j);
                }
                assert forall|x: int, y: int|
                    0 <= x < groups_x && 0 <= y < groups_y && (y > gy || (y == gy && x >= gx + 1)) implies #[trigger] textures@[y
                        * groups_x + x]@ == t0[y * groups_x + x]@ by {
                    crate::arith::lemma_cell_index(groups_x as int, groups_y as int, y, x);
                    if y * groups_x + x == idx {
                        crate::arith::lemma_cell_coords(groups_x as int, y, x);
                        crate::arith::lemma_cell_coords(groups_x as int, gy as int, gx as int);
                    }
                }
                assert forall|x: int, y: int|
                    0 <= x < groups_x && 0 <= y < groups_y && (y < gy || (y == gy && x < gx + 1)) implies group_texture_after_frame(
                        #[trigger] textures@[y * groups_x + x]@,
                        t0[y * groups_x + x]@,
                        &m0,
                        tile_registry@,
                        group_of(x, y, cxn, cyn),
                    ) by {
                    crate::arith::lemma_cell_index(groups_x as int, groups_y as int, y, x);
                    if y * groups_x + x == idx {
                        crate::arith::lemma_cell_coords(groups_x as int, y, x);
                        crate::arith::lemma_cell_coords(groups_x as int, gy as int, gx as int);
                    } else {
                        assert(textures@[y * groups_x + x] == tb[y * groups_x + x]);
                    }
                }
            }
            gx = gx + 1;
        }
        gy = gy + 1;
    }
    proof {
        assert forall|j: int| 0 <= j < m0.macro_dirty_chunks@.len() implies !#[trigger] map_data.macro_dirty_chunks@[j] by {
            lemma_flag_group(&m0, 0, 0, j);
        }
        assert(map_data.macro_dirty_chunks@ =~= Seq::new(m0.macro_dirty_chunks@.len(), |j: int| false));
    }
}

/// Refreshing a group twice redraws at most once: after its flags are cleared the
/// group is clean.
pub proof fn law_group_clean_after_refresh(map: MapData, next: MapData, g: MacroGroup)
    requires
        map.wf(),
        group_flags_cleared(&map, &next, g),
    ensures
        !group_dirty(&next, g),
{
}

/// A tile change reaches the macro map: after `set_tile` changes cell (x, y), the
/// macro group holding that cell's chunk is dirty, so its next refresh redraws it.
pub proof fn law_changed_tile_dirties_its_group(
    map: MapData,
    next: MapData,
    x: int,
    y: int,
    t: TileType,
    changed: bool,
)
    requires
        map.wf(),
        map.in_bounds(x, y),
        map.set_tile_post(&next, x, y, t, changed),
        changed,
        map.chunks_x + MACRO_GROUP_SIZE <= u32::MAX,
        map.chunks_y + MACRO_GROUP_SIZE <= u32::MAX,
    ensures
        group_dirty(
            &next,
            group_of(
                (x / map.chunk_size as int) / (MACRO_GROUP_SIZE as int),
                (y / map.chunk_size as int) / (MACRO_GROUP_SIZE as int),
                map.chunks_x as int,
                map.chunks_y as int,
            ),
        ),
{
    let cs = map.chunk_size as int;
    let cx = x / cs;
    let cy = y / cs;
    lemma_div_below(x, map.chunks_x as int, cs);
    lemma_div_below(y, map.chunks_y as int, cs);
    let gx = cx / (MACRO_GROUP_SIZE as int);
    let gy = cy / (MACRO_GROUP_SIZE as int);
    lemma_group_axis(map.chunks_x as int, cx, gx);
    lemma_group_axis(map.chunks_y as int, cy, gy);
    lemma_group_fits(&map, gx, gy);
    let g = group_of(gx, gy, map.chunks_x as int, map.chunks_y as int);
    let ci = map.chunk_index(cx, cy);
    lemma_cell_index(map.chunks_x as int, map.chunks_y as int, cy, cx);
    crate::arith::lemma_cell_coords(map.chunks_x as int, cy, cx);
    assert(next.macro_dirty_chunks@[ci]);
    assert(in_group(g, next.chunks_x as int, ci));
}

/// A dynamic object shown on the macro map as a dot of one colour.
#[derive(Clone, Copy, Debug)]
pub struct MacroMapEntity {
    pub color: [u8; 4],
}

impl MacroMapEntity {
    /// The opaque dot of a faction member, in the faction's colour.
    pub fn with_faction_color(c: [u8; 3]) -> (r: Self)
        ensures
            r.color == [c[0], c[1], c[2], 255u8],
    {
        MacroMapEntity { color: [c[0], c[1], c[2], 255] }
    }
}

} // verus!

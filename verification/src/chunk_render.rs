use vstd::prelude::*;

use crate::autotile::{cardinal_offset, cardinal_offset_spec, compute_overlay_for_dir, overlay_for_dir};
use crate::blit::{alpha_blit_tile, blend_byte, blit_tile, byte_index, in_tile, lemma_byte_index, tile_fits};
use crate::map::MapData;
use crate::tile::{TileDefinition, TileRegistry, TileType};
use crate::tileset::{parsed_from, px4, template_entry_ok, template_px, template_row_ok, ParsedTemplate, TilesetPixels};

verus! {

/// The piece of template `t` drawn over a tile from its neighbour in direction
/// `dir` (0 = N, 1 = E, 2 = S, 3 = W).
pub open spec fn overlay_piece(t: ParsedTemplate, dir: int) -> [u8; 64] {
    if dir == 0 {
        t.overlay_from_n
    } else if dir == 1 {
        t.overlay_from_e
    } else if dir == 2 {
        t.overlay_from_s
    } else {
        t.overlay_from_w
    }
}

/// Chosen variation (column) of template row `row` for the cell at chunk-local
/// position (lx, ly), lx and ly in -1..=cs: `picks[row]` covers the chunk and a
/// one-cell border, row-major, `cs + 2` cells wide.
pub open spec fn pick_at(picks: Seq<Vec<usize>>, row: int, cs: int, lx: int, ly: int) -> int {
    picks[row]@[(ly + 1) * (cs + 2) + (lx + 1)] as int
}

/// `picks` has one window of `(cs + 2)^2` variation choices per template row of
/// `ts`, each choice a column of that row.
pub open spec fn picks_ok(picks: Seq<Vec<usize>>, ts: Seq<Vec<ParsedTemplate>>, cs: int) -> bool {
    &&& picks.len() == ts.len()
    &&& forall|r: int|
        0 <= r < picks.len() ==> (#[trigger] picks[r])@.len() == (cs + 2) * (cs + 2) && forall|i: int|
            0 <= i < (cs + 2) * (cs + 2) ==> (#[trigger] picks[r]@[i]) < ts[r]@.len()
}

/// Every registered tile type names an existing template row.
pub open spec fn rows_exist(reg: Map<TileType, TileDefinition>, ts: Seq<Vec<ParsedTemplate>>) -> bool {
    forall|t: TileType| #[trigger] reg.contains_key(t) ==> reg[t].template_idx < ts.len()
}

/// Byte `k` of pixel (sx, sy) of the 4x4 block of chunk-local tile (lx, ly) of chunk
/// (cx, cy), once its base template and the overlays of its first `d` cardinal
/// neighbours have been drawn: the base piece of the tile's own template row, then,
/// for each direction that has an overlay, that edge piece of the neighbour's
/// template alpha-composited on top.
pub open spec fn tile_layer(
    map: MapData,
    reg: Map<TileType, TileDefinition>,
    ts: Seq<Vec<ParsedTemplate>>,
    picks: Seq<Vec<usize>>,
    cx: int,
    cy: int,
    lx: int,
    ly: int,
    sy: int,
    sx: int,
    k: int,
    d: int,
) -> u8
    decreases d,
{
    let cs = map.chunk_size as int;
    let gx = cx * cs + lx;
    let gy = cy * cs + ly;
    if d <= 0 {
        let row = reg[map.tile_at(gx, gy)].template_idx as int;
        ts[row]@[pick_at(picks, row, cs, lx, ly)].base@[px4(sy, sx, k)]
    } else {
        let prev = tile_layer(map, reg, ts, picks, cx, cy, lx, ly, sy, sx, k, d - 1);
        match overlay_for_dir(map, reg, gx, gy, d - 1) {
            None => prev,
            Some(o) => {
                let off = cardinal_offset_spec(d - 1);
                let piece = overlay_piece(ts[o as int]@[pick_at(picks, o as int, cs, lx + off.0, ly + off.1)], d - 1);
                blend_byte(prev, piece@[px4(sy, sx, k)], piece@[px4(sy, sx, 3)], k)
            },
        }
    }
}

/// The inputs of a chunk redraw fit together: the chunk is on the map, its tiles are
/// registered, every template row named exists, the variation choices cover the
/// chunk and its border, and the chunk texture (`cs * 4` pixels square) fits the
/// buffer with its pixel indices in a `u32`.
pub open spec fn chunk_inputs_ok(
    map: MapData,
    reg: Map<TileType, TileDefinition>,
    ts: Seq<Vec<ParsedTemplate>>,
    picks: Seq<Vec<usize>>,
    cx: int,
    cy: int,
    len: int,
) -> bool {
    let cs = map.chunk_size as int;
    &&& map.wf()
    &&& map.chunk_in_bounds(cx, cy)
    &&& forall|lx: int, ly: int|
        0 <= lx < cs && 0 <= ly < cs ==> #[trigger] reg.contains_key(map.tile_at(cx * cs + lx, cy * cs + ly))
    &&& rows_exist(reg, ts)
    &&& picks_ok(picks, ts, cs)
    &&& (cs + 2) * (cs + 2) <= usize::MAX
    &&& (cs * 4) * (cs * 4) <= u32::MAX
    &&& (cs * 4) * (cs * 4) * 4 <= len
}

/// `after` is the buffer `before` with the texture of chunk (cx, cy) drawn into its
/// first `(cs * 4)^2 * 4` bytes: each texture byte is its tile's composited layer
/// (tile row 0 at the bottom); the bytes past the texture are those of `before`.
pub open spec fn chunk_drawn(
    after: Seq<u8>,
    before: Seq<u8>,
    map: MapData,
    reg: Map<TileType, TileDefinition>,
    ts: Seq<Vec<ParsedTemplate>>,
    picks: Seq<Vec<usize>>,
    cx: int,
    cy: int,
) -> bool {
    let cs = map.chunk_size as int;
    &&& after.len() == before.len()
    &&& forall|row: int, col: int, k: int|
        0 <= row < cs * 4 && 0 <= col < cs * 4 && 0 <= k < 4 ==> after[#[trigger] byte_index(cs * 4, row, col, k)]
            == tile_layer(map, reg, ts, picks, cx, cy, col / 4, cs - 1 - row / 4, row % 4, col % 4, k, 4)
    &&& forall|j: int| (cs * 4) * (cs * 4) * 4 <= j < before.len() ==> #[trigger] after[j] == before[j]
}

/// Every byte of the texture of a chunk `cs` tiles wide is the byte of one pixel.
proof fn lemma_texture_byte(cs: int, j: int)
    requires
        0 < cs,
        0 <= j < (cs * 4) * (cs * 4) * 4,
    ensures
        j == byte_index(cs * 4, (j / 4) / (cs * 4), (j / 4) % (cs * 4), j % 4),
        0 <= (j / 4) / (cs * 4) < cs * 4,
        0 <= (j / 4) % (cs * 4) < cs * 4,
        0 <= j % 4 < 4,
{
    let w = cs * 4;
    crate::arith::lemma_index_split(4, w * w, j);
    assert(4 * (w * w) == (w * w) * 4) by (nonlinear_arith);
    crate::arith::lemma_index_split(w, w, j / 4);
}

/// Redrawing a chunk does not depend on what the buffer held: two buffers that
/// `fill_chunk_pixels` draws with the same inputs hold the same texture, and drawing
/// again over a drawn texture changes nothing.
pub proof fn law_chunk_redraw_is_deterministic(
    a: Seq<u8>,
    a0: Seq<u8>,
    b: Seq<u8>,
    b0: Seq<u8>,
    map: MapData,
    reg: Map<TileType, TileDefinition>,
    ts: Seq<Vec<ParsedTemplate>>,
    picks: Seq<Vec<usize>>,
    cx: int,
    cy: int,
)
    requires
        chunk_inputs_ok(map, reg, ts, picks, cx, cy, a0.len() as int),
        chunk_inputs_ok(map, reg, ts, picks, cx, cy, b0.len() as int),
        chunk_drawn(a, a0, map, reg, ts, picks, cx, cy),
        chunk_drawn(b, b0, map, reg, ts, picks, cx, cy),
    ensures
        a.take((map.chunk_size * 4) * (map.chunk_size * 4) * 4) == b.take((map.chunk_size * 4) * (map.chunk_size * 4) * 4),
        b0 == a ==> b == a,
{
    let cs = map.chunk_size as int;
    let t = (cs * 4) * (cs * 4) * 4;
    assert forall|j: int| 0 <= j < t implies a[j] == b[j] by {
        lemma_texture_byte(cs, j);
        let row = (j / 4) / (cs * 4);
        let col = (j / 4) % (cs * 4);
        assert(a[byte_index(cs * 4, row, col, j % 4)] == b[byte_index(cs * 4, row, col, j % 4)]);
    }
    assert(a.take(t) =~= b.take(t));
    if b0 == a {
        assert forall|j: int| 0 <= j < a.len() implies b[j] == a[j] by {
            if j < t {
                lemma_texture_byte(cs, j);
                let row = (j / 4) / (cs * 4);
                let col = (j / 4) % (cs * 4);
                assert(a[byte_index(cs * 4, row, col, j % 4)] == b[byte_index(cs * 4, row, col, j % 4)]);
            }
        }
        assert(b =~= a);
    }
}

/// Selects the piece of `t` drawn from direction `dir`.
fn overlay_of(t: &ParsedTemplate, dir: usize) -> (r: &[u8; 64])
    requires
        dir < 4,
    ensures
        *r == overlay_piece(*t, dir as int),
{
    if dir == 0 {
        &t.overlay_from_n
    } else if dir == 1 {
        &t.overlay_from_e
    } else if dir == 2 {
        &t.overlay_from_s
    } else {
        &t.overlay_from_w
    }
}

/// The piece of the overlay in direction `d` that lands on pixel (sx, sy), byte `k`
/// and alpha, of chunk-local tile (lx, ly) was cut from the neighbour's template block
/// as `template_entry_ok` describes.
proof fn lemma_overlay_entry(
    map: MapData,
    reg: Map<TileType, TileDefinition>,
    ts: Seq<Vec<ParsedTemplate>>,
    picks: Seq<Vec<usize>>,
    data: Seq<u8>,
    width: int,
    columns: int,
    cx: int,
    cy: int,
    lx: int,
    ly: int,
    sy: int,
    sx: int,
    k: int,
    d: int,
)
    requires
        0 <= lx < map.chunk_size,
        0 <= ly < map.chunk_size,
        0 <= sy < 4,
        0 <= sx < 4,
        0 <= k < 4,
        0 <= d < 4,
        rows_exist(reg, ts),
        picks_ok(picks, ts, map.chunk_size as int),
        forall|row: int| 0 <= row < ts.len() ==> template_row_ok(#[trigger] ts[row]@, data, width, row, columns),
    ensures
        ({
            let cs = map.chunk_size as int;
            let off = cardinal_offset_spec(d);
            match overlay_for_dir(map, reg, cx * cs + lx, cy * cs + ly, d) {
                None => true,
                Some(o) => {
                    let p = pick_at(picks, o as int, cs, lx + off.0, ly + off.1);
                    &&& 0 <= p < ts[o as int]@.len()
                    &&& template_entry_ok(ts[o as int]@[p], data, width, o as int, p, sy, sx, k)
                    &&& template_entry_ok(ts[o as int]@[p], data, width, o as int, p, sy, sx, 3)
                },
            }
        }),
{
    let cs = map.chunk_size as int;
    let off = cardinal_offset_spec(d);
    match overlay_for_dir(map, reg, cx * cs + lx, cy * cs + ly, d) {
        None => {},
        Some(o) => {
            let gx = cx * cs + lx;
            let gy = cy * cs + ly;
            let nt = map.tile_at(gx + off.0, gy + off.1);
            assert(reg.contains_key(nt));
            assert(o == reg[nt].template_idx);
            let oi = o as int;
            assert(0 <= oi < ts.len());
            let ax = lx + off.0 + 1;
            let ay = ly + off.1 + 1;
            assert(0 <= ax <= cs + 1 && 0 <= ay <= cs + 1);
            assert(0 <= ay * (cs + 2) + ax < (cs + 2) * (cs + 2)) by (nonlinear_arith)
                requires
                    0 <= ax <= cs + 1,
                    0 <= ay <= cs + 1,
            ;
            let pk = picks[oi];
            assert(pk@.len() == (cs + 2) * (cs + 2));
            assert(pk@[ay * (cs + 2) + ax] < ts[oi]@.len());
            let p = pick_at(picks, oi, cs, lx + off.0, ly + off.1);
            let row = ts[oi]@;
            assert(template_row_ok(row, data, width, oi, columns));
            assert(parsed_from(row[p], data, width, oi, p));
            assert(template_entry_ok(row[p], data, width, oi, p, sy, sx, k));
            assert(template_entry_ok(row[p], data, width, oi, p, sy, sx, 3));
        },
    }
}

/// Each edge overlay covers only its own side of a tile: a piece from the north
/// neighbour reaches the top two pixel rows of the 4x4 block, one from the east the
/// right two columns, one from the south the bottom two rows, one from the west the
/// left two columns. On those pixels the neighbour's edge strip is composited: for
/// the north neighbour the strip cut from the bottom edge (y 6..8) of its template
/// block, for the south neighbour the top edge (y 0..2), for the east neighbour the
/// left edge (x 0..2), for the west neighbour the right edge (x 6..8). Drawing the
/// overlay in direction `d` takes layer `d` of a tile to layer `d + 1`.
pub proof fn law_overlays_touch_only_their_side(
    map: MapData,
    reg: Map<TileType, TileDefinition>,
    ts: Seq<Vec<ParsedTemplate>>,
    picks: Seq<Vec<usize>>,
    data: Seq<u8>,
    width: int,
    columns: int,
    cx: int,
    cy: int,
    lx: int,
    ly: int,
    sy: int,
    sx: int,
    k: int,
)
    requires
        0 <= lx < map.chunk_size,
        0 <= ly < map.chunk_size,
        0 <= sy < 4,
        0 <= sx < 4,
        0 <= k < 4,
        rows_exist(reg, ts),
        picks_ok(picks, ts, map.chunk_size as int),
        forall|row: int| 0 <= row < ts.len() ==> template_row_ok(#[trigger] ts[row]@, data, width, row, columns),
    ensures
        sy >= 2 ==> tile_layer(map, reg, ts, picks, cx, cy, lx, ly, sy, sx, k, 1)
            == tile_layer(map, reg, ts, picks, cx, cy, lx, ly, sy, sx, k, 0),
        sx < 2 ==> tile_layer(map, reg, ts, picks, cx, cy, lx, ly, sy, sx, k, 2)
            == tile_layer(map, reg, ts, picks, cx, cy, lx, ly, sy, sx, k, 1),
        sy < 2 ==> tile_layer(map, reg, ts, picks, cx, cy, lx, ly, sy, sx, k, 3)
            == tile_layer(map, reg, ts, picks, cx, cy, lx, ly, sy, sx, k, 2),
        sx >= 2 ==> tile_layer(map, reg, ts, picks, cx, cy, lx, ly, sy, sx, k, 4)
            == tile_layer(map, reg, ts, picks, cx, cy, lx, ly, sy, sx, k, 3),
        ({
            let cs = map.chunk_size as int;
            match overlay_for_dir(map, reg, cx * cs + lx, cy * cs + ly, 0) {
                None => true,
                Some(o) => {
                    let p = pick_at(picks, o as int, cs, lx, ly + 1);
                    sy < 2 ==> tile_layer(map, reg, ts, picks, cx, cy, lx, ly, sy, sx, k, 1) == blend_byte(
                        tile_layer(map, reg, ts, picks, cx, cy, lx, ly, sy, sx, k, 0),
                        template_px(data, width, o as int, p, 2 + sx, 6 + sy, k),
                        template_px(data, width, o as int, p, 2 + sx, 6 + sy, 3),
                        k,
                    )
                },
            }
        }),
        ({
            let cs = map.chunk_size as int;
            match overlay_for_dir(map, reg, cx * cs + lx, cy * cs + ly, 2) {
                None => true,
                Some(o) => {
                    let p = pick_at(picks, o as int, cs, lx, ly - 1);
                    sy >= 2 ==> tile_layer(map, reg, ts, picks, cx, cy, lx, ly, sy, sx, k, 3) == blend_byte(
                        tile_layer(map, reg, ts, picks, cx, cy, lx, ly, sy, sx, k, 2),
                        template_px(data, width, o as int, p, 2 + sx, sy - 2, k),
                        template_px(data, width, o as int, p, 2 + sx, sy - 2, 3),
                        k,
                    )
                },
            }
        }),
        ({
            let cs = map.chunk_size as int;
            match overlay_for_dir(map, reg, cx * cs + lx, cy * cs + ly, 1) {
                None => true,
                Some(o) => {
                    let p = pick_at(picks, o as int, cs, lx + 1, ly);
                    sx >= 2 ==> tile_layer(map, reg, ts, picks, cx, cy, lx, ly, sy, sx, k, 2) == blend_byte(
                        tile_layer(map, reg, ts, picks, cx, cy, lx, ly, sy, sx, k, 1),
                        template_px(data, width, o as int, p, sx - 2, 2 + sy, k),
                        template_px(data, width, o as int, p, sx - 2, 2 + sy, 3),
                        k,
                    )
                },
            }
        }),
        ({
            let cs = map.chunk_size as int;
            match overlay_for_dir(map, reg, cx * cs + lx, cy * cs + ly, 3) {
                None => true,
                Some(o) => {
                    let p = pick_at(picks, o as int, cs, lx - 1, ly);
                    sx < 2 ==> tile_layer(map, reg, ts, picks, cx, cy, lx, ly, sy, sx, k, 4) == blend_byte(
                        tile_layer(map, reg, ts, picks, cx, cy, lx, ly, sy, sx, k, 3),
                        template_px(data, width, o as int, p, 6 + sx, 2 + sy, k),
                        template_px(data, width, o as int, p, 6 + sx, 2 + sy, 3),
                        k,
                    )
                },
            }
        }),
{
    lemma_overlay_entry(map, reg, ts, picks, data, width, columns, cx, cy, lx, ly, sy, sx, k, 0);
    lemma_overlay_entry(map, reg, ts, picks, data, width, columns, cx, cy, lx, ly, sy, sx, k, 1);
    lemma_overlay_entry(map, reg, ts, picks, data, width, columns, cx, cy, lx, ly, sy, sx, k, 2);
    lemma_overlay_entry(map, reg, ts, picks, data, width, columns, cx, cy, lx, ly, sy, sx, k, 3);
}

/// Chunk-local tile (lx, ly) of a chunk lies on the map, and its 4x4 block (drawn
/// with y flipped) fits the chunk texture.
proof fn lemma_tile_in_chunk(map: MapData, cx: int, cy: int, lx: int, ly: int, len: int)
    requires
        map.wf(),
        map.chunk_in_bounds(cx, cy),
        0 <= lx < map.chunk_size,
        0 <= ly < map.chunk_size,
        (map.chunk_size * 4) * (map.chunk_size * 4) <= u32::MAX,
        (map.chunk_size * 4) * (map.chunk_size * 4) * 4 <= len,
    ensures
        map.chunk_size * 4 <= u32::MAX,
        map.in_bounds(cx * map.chunk_size + lx, cy * map.chunk_size + ly),
        cx * map.chunk_size + lx <= u32::MAX,
        cy * map.chunk_size + ly <= u32::MAX,
        tile_fits(len, map.chunk_size * 4, lx * 4, (map.chunk_size - 1 - ly) * 4),
{
    let cs = map.chunk_size as int;
    assert(cx * cs + lx < map.width_spec()) by (nonlinear_arith)
        requires
            0 <= cx < map.chunks_x,
            0 <= lx < cs,
            map.width_spec() == map.chunks_x * cs,
    ;
    assert(cy * cs + ly < map.height_spec()) by (nonlinear_arith)
        requires
            0 <= cy < map.chunks_y,
            0 <= ly < cs,
            map.height_spec() == map.chunks_y * cs,
    ;
    assert(0 <= cx * cs && 0 <= cy * cs) by (nonlinear_arith)
        requires
            0 <= cx,
            0 <= cy,
            0 <= cs,
    ;
    let w = cs * 4;
    let py = (cs - 1 - ly) * 4;
    assert(w <= w * w) by (nonlinear_arith)
        requires
            1 <= w,
    ;
    assert((py + 4) * w <= w * w) by (nonlinear_arith)
        requires
            py + 4 <= w,
            0 <= w,
    ;
    assert((py + 4) * w * 4 <= w * w * 4) by (nonlinear_arith)
        requires
            (py + 4) * w <= w * w,
    ;
}

/// Draws chunk-local tile (lx, ly) of chunk (cx, cy) into the chunk texture: the
/// base piece of its template, then the edge pieces of its higher-priority
/// neighbours, alpha-composited in the order N, E, S, W. Tile rows are flipped: the
/// tile row 0 is drawn at the bottom of the texture.
fn draw_tile(
    pixels: &mut Vec<u8>,
    cx: u32,
    cy: u32,
    lx: u32,
    ly: u32,
    map_data: &MapData,
    tile_registry: &TileRegistry,
    tileset: &TilesetPixels,
    picks: &Vec<Vec<usize>>,
)
    requires
        chunk_inputs_ok(
            *map_data,
            tile_registry@,
            tileset.templates@,
            picks@,
            cx as int,
            cy as int,
            old(pixels)@.len() as int,
        ),
        lx < map_data.chunk_size,
        ly < map_data.chunk_size,
    ensures
        final(pixels)@.len() == old(pixels)@.len(),
        forall|sy: int, sx: int, k: int|
            0 <= sy < 4 && 0 <= sx < 4 && 0 <= k < 4 ==> final(pixels)@[#[trigger] byte_index(
                map_data.chunk_size * 4,
                (map_data.chunk_size - 1 - ly) * 4 + sy,
                lx * 4 + sx,
                k,
            )] == tile_layer(
                *map_data,
                tile_registry@,
                tileset.templates@,
                picks@,
                cx as int,
                cy as int,
                lx as int,
                ly as int,
                sy,
                sx,
                k,
                4,
            ),
        forall|j: int|
            0 <= j < old(pixels)@.len() && !in_tile(
                map_data.chunk_size * 4,
                lx * 4,
                (map_data.chunk_size - 1 - ly) * 4,
                j,
            ) ==> #[trigger] final(pixels)@[j] == old(pixels)@[j],
{
    let ghost m = *map_data;
    let ghost reg = tile_registry@;
    let ghost ts = tileset.templates@;
    let ghost pk = picks@;
    let ghost d0 = pixels@;
    proof {
        lemma_tile_in_chunk(m, cx as int, cy as int, lx as int, ly as int, d0.len() as int);
    }
    let cs = map_data.chunk_size;
    let tex_w = cs * 4;
    let gx = cx * cs + lx;
    let gy = cy * cs + ly;
    let px = lx * 4;
    let py = (cs - 1 - ly) * 4;
    let tile = map_data.get_tile(gx, gy);
    proof {
        assert(reg.contains_key(m.tile_at(cx * cs + lx, cy * cs + ly)));
    }
    let def = tile_registry.get(tile).unwrap();
    let stride = cs as usize + 2;
    let row = def.template_idx;
    proof {
        assert((ly + 1) * stride + (lx + 1) < stride * stride) by (nonlinear_arith)
            requires
                ly < cs,
                lx < cs,
                stride == cs + 2,
        ;
    }
    let pi = (ly as usize + 1) * stride + (lx as usize + 1);
    proof {
        assert(picks@[row as int]@.len() == (cs + 2) * (cs + 2));
    }
    let var_idx = picks[row][pi];
    let template = &tileset.templates[row][var_idx];
    blit_tile(pixels, tex_w, px, py, &template.base);
    let mut dir: usize = 0;
    while dir < 4
        invariant
            dir <= 4,
            m == *map_data,
            reg == tile_registry@,
            ts == tileset.templates@,
            pk == picks@,
            chunk_inputs_ok(m, reg, ts, pk, cx as int, cy as int, d0.len() as int),
            lx < cs,
            ly < cs,
            cs == m.chunk_size,
            tex_w == cs * 4,
            stride == cs + 2,
            gx == cx * cs + lx,
            gy == cy * cs + ly,
            m.in_bounds(gx as int, gy as int),
            px == lx * 4,
            py == (cs - 1 - ly) * 4,
            tile_fits(d0.len() as int, tex_w as int, px as int, py as int),
            pixels@.len() == d0.len(),
            forall|sy: int, sx: int, k: int|
                0 <= sy < 4 && 0 <= sx < 4 && 0 <= k < 4 ==> pixels@[#[trigger] byte_index(
                    tex_w as int,
                    py + sy,
                    px + sx,
                    k,
                )] == tile_layer(m, reg, ts, pk, cx as int, cy as int, lx as int, ly as int, sy, sx, k, dir as int),
            forall|j: int| 0 <= j < d0.len() && !in_tile(tex_w as int, px as int, py as int, j) ==> #[trigger] pixels@[j] == d0[j],
        decreases 4 - dir,
    {
        let ovl = compute_overlay_for_dir(gx, gy, dir, map_data, tile_registry);
        match ovl {
            Some(o) => {
                let (dx, dy) = cardinal_offset(dir);
                let nlx = (lx as i64 + dx as i64 + 1) as usize;
                let nly = (ly as i64 + dy as i64 + 1) as usize;
                proof {
                    assert(nly * stride + nlx < stride * stride) by (nonlinear_arith)
                        requires
                            nly <= cs + 1,
                            nlx <= cs + 1,
                            stride == cs + 2,
                    ;
                }
                let npi = nly * stride + nlx;
                proof {
                    let nt = m.tile_at(gx + cardinal_offset_spec(dir as int).0, gy + cardinal_offset_spec(dir as int).1);
                    assert(reg.contains_key(nt) && o == reg[nt].template_idx);
                    assert(npi < stride * stride) by (nonlinear_arith)
                        requires
                            npi == nly * stride + nlx,
                            nly <= cs + 1,
                            nlx <= cs + 1,
                            stride == cs + 2,
                    ;
                    assert(picks@[o as int]@.len() == (cs + 2) * (cs + 2));
                }
                let nvar = picks[o][npi];
                let n_template = &tileset.templates[o][nvar];
                let piece = overlay_of(n_template, dir);
                let ghost before = pixels@;
                alpha_blit_tile(pixels, tex_w, px, py, piece);
                proof {
                    assert(pk[o as int]@[npi as int] == nvar);
                }
            },
            None => {},
        }
        dir = dir + 1;
    }
}

/// A byte of another tile's block, or a byte past the texture, is not part of the
/// block of chunk-local tile (lx, ly).
proof fn lemma_outside_tile_block(cs: int, lx: int, ly: int, j: int, row: int, col: int, k: int)
    requires
        0 <= lx < cs,
        0 <= ly < cs,
        (0 <= row < cs * 4 && 0 <= col < cs * 4 && 0 <= k < 4 && j == byte_index(cs * 4, row, col, k) && (col / 4
            != lx || cs - 1 - row / 4 != ly)) || j >= (cs * 4) * (cs * 4) * 4,
    ensures
        !in_tile(cs * 4, lx * 4, (cs - 1 - ly) * 4, j),
{
    let w = cs * 4;
    let px = lx * 4;
    let py = (cs - 1 - ly) * 4;
    if in_tile(w, px, py, j) {
        let (sy, sx, k2) = choose|sy: int, sx: int, k2: int|
            0 <= sy < 4 && 0 <= sx < 4 && 0 <= k2 < 4 && j == #[trigger] byte_index(w, py + sy, px + sx, k2);
        lemma_byte_index(w, w, py + sy, px + sx, k2);
        if j < w * w * 4 {
            crate::blit::lemma_byte_index_injective(w, w, row, col, k, py + sy, px + sx, k2);
        }
    }
}

/// Redraws a chunk's texture (`cs * 4` pixels square, RGBA) from the map: every
/// tile's block is its base template with its higher-priority neighbours' edges
/// composited on top, tile row 0 at the bottom. The variation drawn for each cell and
/// template row is taken from `picks`. Bytes past the texture are left as they were.
pub fn fill_chunk_pixels(
    pixels: &mut Vec<u8>,
    cx: u32,
    cy: u32,
    map_data: &MapData,
    tile_registry: &TileRegistry,
    tileset: &TilesetPixels,
    picks: &Vec<Vec<usize>>,
)
    requires
        chunk_inputs_ok(
            *map_data,
            tile_registry@,
            tileset.templates@,
            picks@,
            cx as int,
            cy as int,
            old(pixels)@.len() as int,
        ),
    ensures
        final(pixels)@.len() == old(pixels)@.len(),
        forall|row: int, col: int, k: int|
            0 <= row < map_data.chunk_size * 4 && 0 <= col < map_data.chunk_size * 4 && 0 <= k < 4 ==> final(pixels)@[
            #[trigger] byte_index(map_data.chunk_size * 4, row, col, k)] == tile_layer(
                *map_data,
                tile_registry@,
                tileset.templates@,
                picks@,
                cx as int,
                cy as int,
                col / 4,
                map_data.chunk_size - 1 - row / 4,
                row % 4,
                col % 4,
                k,
                4,
            ),
        forall|j: int|
            (map_data.chunk_size * 4) * (map_data.chunk_size * 4) * 4 <= j < old(pixels)@.len()
                ==> #[trigger] final(pixels)@[j] == old(pixels)@[j],
        chunk_drawn(
            final(pixels)@,
            old(pixels)@,
            *map_data,
            tile_registry@,
            tileset.templates@,
            picks@,
            cx as int,
            cy as int,
        ),
{
    let ghost m = *map_data;
    let ghost reg = tile_registry@;
    let ghost ts = tileset.templates@;
    let ghost pk = picks@;
    let ghost d0 = pixels@;
    let cs = map_data.chunk_size;
    let ghost w = cs * 4;
    let mut ly: u32 = 0;
    while ly < cs
        invariant
            ly <= cs,
            m == *map_data,
            reg == tile_registry@,
            ts == tileset.templates@,
            pk == picks@,
            cs == m.chunk_size,
            w == cs * 4,
            chunk_inputs_ok(m, reg, ts, pk, cx as int, cy as int, d0.len() as int),
            pixels@.len() == d0.len(),
            forall|row: int, col: int, k: int|
                0 <= row < w && 0 <= col < w && 0 <= k < 4 ==> pixels@[#[trigger] byte_index(w, row, col, k)] == (if cs
                    - 1 - row / 4 < ly {
                    tile_layer(m, reg, ts, pk, cx as int, cy as int, col / 4, cs - 1 - row / 4, row % 4, col % 4, k, 4)
                } else {
                    d0[byte_index(w, row, col, k)]
                }),
            forall|j: int| w * w * 4 <= j < d0.len() ==> #[trigger] pixels@[j] == d0[j],
        decreases cs - ly,
    {
        let mut lx: u32 = 0;
        while lx < cs
            invariant
                ly < cs,
                lx <= cs,
                m == *map_data,
                reg == tile_registry@,
                ts == tileset.templates@,
                pk == picks@,
                cs == m.chunk_size,
                w == cs * 4,
                chunk_inputs_ok(m, reg, ts, pk, cx as int, cy as int, d0.len() as int),
                pixels@.len() == d0.len(),
                forall|row: int, col: int, k: int|
                    0 <= row < w && 0 <= col < w && 0 <= k < 4 ==> pixels@[#[trigger] byte_index(w, row, col, k)] == (
                    if cs - 1 - row / 4 < ly || (cs - 1 - row / 4 == ly && col / 4 < lx) {
                        tile_layer(m, reg, ts, pk, cx as int, cy as int, col / 4, cs - 1 - row / 4, row % 4, col % 4, k, 4)
                    } else {
                        d0[byte_index(w, row, col, k)]
                    }),
                forall|j: int| w * w * 4 <= j < d0.len() ==> #[trigger] pixels@[j] == d0[j],
            decreases cs - lx,
        {
            let ghost before = pixels@;
            draw_tile(pixels, cx, cy, lx, ly, map_data, tile_registry, tileset, picks);
            proof {
                let px = lx * 4;
                let py = (cs - 1 - ly) * 4;
                assert forall|row: int, col: int, k: int|
                    0 <= row < w && 0 <= col < w && 0 <= k < 4 implies pixels@[#[trigger] byte_index(w, row, col, k)]
                    == (if cs - 1 - row / 4 < ly || (cs - 1 - row / 4 == ly && col / 4 < lx + 1) {
                    tile_layer(m, reg, ts, pk, cx as int, cy as int, col / 4, cs - 1 - row / 4, row % 4, col % 4, k, 4)
                } else {
                    d0[byte_index(w, row, col, k)]
                }) by {
                    let b = byte_index(w, row, col, k);
                    lemma_byte_index(w, w, row, col, k);
                    if col / 4 == lx && cs - 1 - row / 4 == ly {
                        assert(row == py + row % 4);
                        assert(col == px + col % 4);
                        assert(b == byte_index(w, py + row % 4, px + col % 4, k));
                    } else {
                        lemma_outside_tile_block(cs as int, lx as int, ly as int, b, row, col, k);
                    }
                }
                assert forall|j: int| w * w * 4 <= j < d0.len() implies #[trigger] pixels@[j] == d0[j] by {
                    lemma_outside_tile_block(cs as int, lx as int, ly as int, j, 0, 0, 0);
                }
            }
            lx = lx + 1;
        }
        ly = ly + 1;
    }
}

/// Builds the RGBA texture of chunk (cx, cy), `cs * 4` pixels square, as
/// `fill_chunk_pixels` draws it.
pub fn chunk_pixels(
    cx: u32,
    cy: u32,
    map_data: &MapData,
    tile_registry: &TileRegistry,
    tileset: &TilesetPixels,
    picks: &Vec<Vec<usize>>,
) -> (pixels: Vec<u8>)
    requires
        chunk_inputs_ok(
            *map_data,
            tile_registry@,
            tileset.templates@,
            picks@,
            cx as int,
            cy as int,
            (map_data.chunk_size * 4) * (map_data.chunk_size * 4) * 4,
        ),
        (map_data.chunk_size * 4) * (map_data.chunk_size * 4) * 4 <= usize::MAX,
    ensures
        pixels@.len() == (map_data.chunk_size * 4) * (map_data.chunk_size * 4) * 4,
        forall|row: int, col: int, k: int|
            0 <= row < map_data.chunk_size * 4 && 0 <= col < map_data.chunk_size * 4 && 0 <= k < 4 ==> pixels@[
            #[trigger] byte_index(map_data.chunk_size * 4, row, col, k)] == tile_layer(
                *map_data,
                tile_registry@,
                tileset.templates@,
                picks@,
                cx as int,
                cy as int,
                col / 4,
                map_data.chunk_size - 1 - row / 4,
                row % 4,
                col % 4,
                k,
                4,
            ),
{
    let cs = map_data.chunk_size;
    proof {
        assert(cs * 4 <= (cs * 4) * (cs * 4)) by (nonlinear_arith)
            requires
                cs >= 1,
        ;
    }
    let tex_w = cs * 4;
    let n = tex_w as usize * tex_w as usize * 4;
    let mut pixels: Vec<u8> = vec![0u8; n];
    fill_chunk_pixels(&mut pixels, cx, cy, map_data, tile_registry, tileset, picks);
    pixels
}

} // verus!

use vstd::prelude::*;

verus! {

/// Byte `k` (0 = red .. 3 = alpha) of pixel (sx, sy) of the 8x8 template block at
/// template row `r`, column `c` of an RGBA image `width` pixels wide.
pub open spec fn template_px(data: Seq<u8>, width: int, r: int, c: int, sx: int, sy: int, k: int) -> u8 {
    data[((r * 8 + sy) * width + c * 8 + sx) * 4 + k]
}

/// Some pixel of the 8x8 block at template row `r`, column `c` has a nonzero alpha.
pub open spec fn block_has_ink(data: Seq<u8>, width: int, r: int, c: int) -> bool {
    exists|sx: int, sy: int| 0 <= sx < 8 && 0 <= sy < 8 && #[trigger] template_px(data, width, r, c, sx, sy, 3) != 0
}

/// Offset of byte `k` of pixel (x, y) in a 4x4 RGBA buffer.
pub open spec fn px4(y: int, x: int, k: int) -> int {
    (y * 4 + x) * 4 + k
}

/// CPU-side pieces cut from one 8x8 template: the 4x4 centre and the four edge
/// strips, each placed in a 4x4 RGBA buffer where it is drawn over a neighbour.
pub struct ParsedTemplate {
    pub base: [u8; 64],
    pub overlay_from_n: [u8; 64],
    pub overlay_from_e: [u8; 64],
    pub overlay_from_s: [u8; 64],
    pub overlay_from_w: [u8; 64],
}

/// Byte `k` of pixel (x, y) of each piece of `t` is what the block at template row
/// `r`, column `c` puts there: the centre (x, y in 2..6); the bottom strip (y in 6..8)
/// drawn at the top; the left strip (x in 0..2) drawn at the right; the top strip
/// (y in 0..2) drawn at the bottom; the right strip (x in 6..8) drawn at the left;
/// 0 where a strip does not reach.
pub open spec fn template_entry_ok(t: ParsedTemplate, data: Seq<u8>, width: int, r: int, c: int, y: int, x: int, k: int) -> bool {
    &&& t.base@[px4(y, x, k)] == template_px(data, width, r, c, 2 + x, 2 + y, k)
    &&& t.overlay_from_n@[px4(y, x, k)] == (if y < 2 {
        template_px(data, width, r, c, 2 + x, 6 + y, k)
    } else {
        0u8
    })
    &&& t.overlay_from_e@[px4(y, x, k)] == (if x >= 2 {
        template_px(data, width, r, c, x - 2, 2 + y, k)
    } else {
        0u8
    })
    &&& t.overlay_from_s@[px4(y, x, k)] == (if y >= 2 {
        template_px(data, width, r, c, 2 + x, y - 2, k)
    } else {
        0u8
    })
    &&& t.overlay_from_w@[px4(y, x, k)] == (if x < 2 {
        template_px(data, width, r, c, 6 + x, 2 + y, k)
    } else {
        0u8
    })
}

/// `t` holds all pieces of the template block at row `r`, column `c`.
pub open spec fn parsed_from(t: ParsedTemplate, data: Seq<u8>, width: int, r: int, c: int) -> bool {
    forall|y: int, x: int, k: int|
        0 <= y < 4 && 0 <= x < 4 && 0 <= k < 4 ==> #[trigger] template_entry_ok(t, data, width, r, c, y, x, k)
}

/// The pieces of every template of a tileset, row by row.
pub struct TilesetPixels {
    pub templates: Vec<Vec<ParsedTemplate>>,
    /// Size of one drawn tile in pixels.
    pub tile_size: u32,
}

/// Reads one byte of the image at pixel (c*8 + sx, r*8 + sy).
fn get_px(data: &[u8], width: u32, r: u32, c: u32, sx: u32, sy: u32, k: usize) -> (b: u8)
    requires
        sx < 8,
        sy < 8,
        k < 4,
        ((r * 8 + sy) * width + c * 8 + sx) * 4 + k < data@.len(),
    ensures
        b == template_px(data@, width as int, r as int, c as int, sx as int, sy as int, k as int),
{
    let n = data.len();
    proof {
        assert(0 <= (r * 8 + sy) * width) by (nonlinear_arith);
    }
    let row = r as u64 * 8 + sy as u64;
    let p = (row * width as u64 + (c as u64 * 8 + sx as u64)) as usize;
    data[p * 4 + k]
}

/// The 8x8 block at template row `r`, column `c` lies inside the image.
pub open spec fn block_in_image(data: Seq<u8>, width: int, r: int, c: int) -> bool {
    &&& 0 <= r
    &&& 0 <= c
    &&& c * 8 + 8 <= width
    &&& (r * 8 + 8) * width * 4 <= data.len()
}

proof fn lemma_block_px(data: Seq<u8>, width: int, r: int, c: int, sx: int, sy: int)
    requires
        block_in_image(data, width, r, c),
        0 <= sx < 8,
        0 <= sy < 8,
    ensures
        (r * 8 + sy) * width + c * 8 + sx < (r * 8 + 8) * width,
        ((r * 8 + sy) * width + c * 8 + sx) * 4 + 3 < data.len(),
        0 <= (r * 8 + sy) * width,
{
    assert((r * 8 + sy) * width + width <= (r * 8 + 8) * width) by (nonlinear_arith)
        requires
            0 <= sy < 8,
            0 <= r,
            0 <= width,
    ;
    assert(0 <= (r * 8 + sy) * width) by (nonlinear_arith)
        requires
            0 <= sy,
            0 <= r,
            0 <= width,
    ;
}

/// Whether no pixel of the block at template row `r`, column `c` is opaque at all.
fn is_block_empty(data: &[u8], width: u32, r: u32, c: u32) -> (empty: bool)
    requires
        block_in_image(data@, width as int, r as int, c as int),
    ensures
        empty == !block_has_ink(data@, width as int, r as int, c as int),
{
    let mut is_empty = true;
    let mut y: u32 = 0;
    while y < 8
        invariant
            y <= 8,
            block_in_image(data@, width as int, r as int, c as int),
            is_empty == (forall|sx: int, sy: int|
                0 <= sx < 8 && 0 <= sy < y ==> #[trigger] template_px(data@, width as int, r as int, c as int, sx, sy, 3) == 0),
        decreases 8 - y,
    {
        let mut x: u32 = 0;
        while x < 8
            invariant
                y < 8,
                x <= 8,
                block_in_image(data@, width as int, r as int, c as int),
                is_empty == ((forall|sx: int, sy: int|
                    0 <= sx < 8 && 0 <= sy < y ==> #[trigger] template_px(data@, width as int, r as int, c as int, sx, sy, 3)
                        == 0) && (forall|sx: int|
                    0 <= sx < x ==> #[trigger] template_px(data@, width as int, r as int, c as int, sx, y as int, 3) == 0)),
            decreases 8 - x,
        {
            proof {
                lemma_block_px(data@, width as int, r as int, c as int, x as int, y as int);
            }
            if get_px(data, width, r, c, x, y, 3) > 0 {
                is_empty = false;
            }
            x = x + 1;
        }
        y = y + 1;
    }
    is_empty
}

/// Cuts the centre and the four edge strips out of the block at template row `r`,
/// column `c`.
fn parse_template(data: &[u8], width: u32, r: u32, c: u32) -> (t: ParsedTemplate)
    requires
        block_in_image(data@, width as int, r as int, c as int),
    ensures
        parsed_from(t, data@, width as int, r as int, c as int),
{
    let ghost d = data@;
    let ghost wi = width as int;
    let mut t = ParsedTemplate {
        base: [0; 64],
        overlay_from_n: [0; 64],
        overlay_from_e: [0; 64],
        overlay_from_s: [0; 64],
        overlay_from_w: [0; 64],
    };
    let mut i: usize = 0;
    while i < 64
        invariant
            i <= 64,
            d == data@,
            wi == width,
            block_in_image(d, wi, r as int, c as int),
            forall|y: int, x: int, k: int|
                0 <= y < 4 && 0 <= x < 4 && 0 <= k < 4 && px4(y, x, k) < i ==> #[trigger] template_entry_ok(
                    t,
                    d,
                    wi,
                    r as int,
                    c as int,
                    y,
                    x,
                    k,
                ),
        decreases 64 - i,
    {
        let y = (i / 16) as u32;
        let x = ((i % 16) / 4) as u32;
        let k = i % 4;
        assert(px4(y as int, x as int, k as int) == i);
        proof {
            lemma_block_px(d, wi, r as int, c as int, 2 + x, 2 + y);
            lemma_block_px(d, wi, r as int, c as int, 2 + x, (y + 6) % 8);
            lemma_block_px(d, wi, r as int, c as int, (x + 6) % 8, 2 + y);
            lemma_block_px(d, wi, r as int, c as int, 2 + x, (y + 2) % 8);
            lemma_block_px(d, wi, r as int, c as int, (x + 2) % 8, 2 + y);
        }
        let ghost t0 = t;
        t.base[i] = get_px(data, width, r, c, 2 + x, 2 + y, k);
        t.overlay_from_n[i] = if y < 2 { get_px(data, width, r, c, 2 + x, 6 + y, k) } else { 0 };
        t.overlay_from_e[i] = if x >= 2 { get_px(data, width, r, c, x - 2, 2 + y, k) } else { 0 };
        t.overlay_from_s[i] = if y >= 2 { get_px(data, width, r, c, 2 + x, y - 2, k) } else { 0 };
        t.overlay_from_w[i] = if x < 2 { get_px(data, width, r, c, 6 + x, 2 + y, k) } else { 0 };
        proof {
            assert forall|yy: int, xx: int, kk: int|
                0 <= yy < 4 && 0 <= xx < 4 && 0 <= kk < 4 && px4(yy, xx, kk) < i + 1 implies #[trigger] template_entry_ok(
                t,
                d,
                wi,
                r as int,
                c as int,
                yy,
                xx,
                kk,
            ) by {
                if px4(yy, xx, kk) < i {
                    assert(template_entry_ok(t0, d, wi, r as int, c as int, yy, xx, kk));
                } else {
                    assert(yy == y && xx == x && kk == k);
                }
            }
        }
        i = i + 1;
    }
    t
}

/// Each entry `c` of `ts` is the parsed, not fully transparent, block at template row
/// `row`, column `c`.
pub open spec fn template_prefix_ok(ts: Seq<ParsedTemplate>, data: Seq<u8>, width: int, row: int) -> bool {
    forall|c: int|
        #![trigger ts[c]]
        #![trigger block_has_ink(data, width, row, c)]
        0 <= c < ts.len() ==> block_has_ink(data, width, row, c) && parsed_from(ts[c], data, width, row, c)
}

/// Row `row` of `ts` holds the parsed templates of template row `row`, from column 0
/// up to (not including) the first fully transparent block, or all `columns`.
pub open spec fn template_row_ok(ts: Seq<ParsedTemplate>, data: Seq<u8>, width: int, row: int, columns: int) -> bool {
    &&& ts.len() <= columns
    &&& template_prefix_ok(ts, data, width, row)
    &&& ts.len() < columns ==> !block_has_ink(data, width, row, ts.len() as int)
}

proof fn lemma_prefix_push(ts: Seq<ParsedTemplate>, t: ParsedTemplate, data: Seq<u8>, width: int, row: int)
    requires
        template_prefix_ok(ts, data, width, row),
        block_has_ink(data, width, row, ts.len() as int),
        parsed_from(t, data, width, row, ts.len() as int),
    ensures
        template_prefix_ok(ts.push(t), data, width, row),
{
    let ts2 = ts.push(t);
    assert forall|c: int| 0 <= c < ts2.len() implies block_has_ink(data, width, row, c) && parsed_from(
        #[trigger] ts2[c],
        data,
        width,
        row,
        c,
    ) by {
        if c < ts.len() {
            assert(ts2[c] == ts[c]);
        }
    }
}

impl TilesetPixels {
    /// Extracts the template pieces of a tileset image given as RGBA bytes
    /// (`width` x `height` pixels, row-major). The image has `height / tile_size`
    /// template rows of 8x8 blocks; each row is read from column 0 and stops at the
    /// first fully transparent block or after `columns` blocks.
    pub fn from_image(data: &[u8], width: u32, height: u32, tile_size: u32, columns: u32) -> (t: Self)
        requires
            tile_size > 0,
            columns * 8 <= width,
            (height / tile_size) * 8 <= height,
            width * height * 4 <= data@.len(),
        ensures
            t.tile_size == 4,
            t.templates@.len() == height / tile_size,
            forall|row: int|
                0 <= row < t.templates@.len() ==> template_row_ok(
                    #[trigger] t.templates@[row]@,
                    data@,
                    width as int,
                    row,
                    columns as int,
                ),
    {
        let rows = height / tile_size;
        let mut templates: Vec<Vec<ParsedTemplate>> = Vec::new();
        let mut r: u32 = 0;
        while r < rows
            invariant
                r <= rows,
                rows == height / tile_size,
                rows * 8 <= height,
                columns * 8 <= width,
                width * height * 4 <= data@.len(),
                templates@.len() == r,
                forall|row: int|
                    0 <= row < r ==> template_row_ok(#[trigger] templates@[row]@, data@, width as int, row, columns as int),
            decreases rows - r,
        {
            proof {
                assert((r * 8 + 8) * width <= width * height) by (nonlinear_arith)
                    requires
                        r < rows,
                        rows * 8 <= height,
                ;
            }
            let mut row_variations: Vec<ParsedTemplate> = Vec::new();
            let mut c: u32 = 0;
            while c < columns
                invariant
                    r < rows,
                    c <= columns,
                    columns * 8 <= width,
                    (r * 8 + 8) * width <= width * height,
                    width * height * 4 <= data@.len(),
                    row_variations@.len() == c,
                    template_prefix_ok(row_variations@, data@, width as int, r as int),
                ensures
                    row_variations@.len() <= columns,
                    template_row_ok(row_variations@, data@, width as int, r as int, columns as int),
                decreases columns - c,
            {
                proof {
                    assert((r * 8 + 8) * width * 4 <= width * height * 4) by (nonlinear_arith)
                        requires
                            (r * 8 + 8) * width <= width * height,
                    ;
                }
                let empty = is_block_empty(data, width, r, c);
                if empty {
                    break;
                }
                let t = parse_template(data, width, r, c);
                proof {
                    lemma_prefix_push(row_variations@, t, data@, width as int, r as int);
                }
                row_variations.push(t);
                c = c + 1;
            }
            templates.push(row_variations);
            proof {
                assert forall|row: int| 0 <= row < r + 1 implies template_row_ok(
                    #[trigger] templates@[row]@,
                    data@,
                    width as int,
                    row,
                    columns as int,
                ) by {}
            }
            r = r + 1;
        }
        TilesetPixels { templates, tile_size: 4 }
    }
}

} // verus!

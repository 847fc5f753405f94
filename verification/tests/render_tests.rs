use worldbox::autotile::{affected_positions, analyze_overlay, cardinal_bit, cardinal_offset, compute_overlay_for_dir};
use worldbox::blit::{alpha_blit_tile, blit_tile};
use worldbox::chunk_render::{chunk_pixels, fill_chunk_pixels};
use worldbox::map::MapData;
use worldbox::outline::{build_perimeter_path, compute_frame_tiles, FRAME_COUNT, GAP_LEN, SEGMENT_LEN};
use worldbox::tile::{TileRegistry, TileType};
use worldbox::tileset::{ParsedTemplate, TilesetPixels};
use worldbox::outline::{outline_frame, outline_frame_pixels, OUTLINE_COLOR_RGBA};

/// A 64-byte 4x4 RGBA tile filled with one pixel value.
fn solid(px: [u8; 4]) -> [u8; 64] {
    let mut b = [0u8; 64];
    for i in 0..16 {
        b[i * 4..i * 4 + 4].copy_from_slice(&px);
    }
    b
}

#[test]
fn blit_tile_copies_block() {
    // 8x8 pixel buffer, blit at (4, 4).
    let mut dst = vec![1u8; 8 * 8 * 4];
    let mut src = [0u8; 64];
    for i in 0..64 {
        src[i] = i as u8;
    }
    blit_tile(&mut dst, 8, 4, 4, &src);
    for sy in 0..4 {
        for sx in 0..4 {
            for k in 0..4 {
                let di = ((4 + sy) * 8 + 4 + sx) * 4 + k;
                assert_eq!(dst[di], src[(sy * 4 + sx) * 4 + k]);
            }
        }
    }
    assert_eq!(dst[0], 1);
    assert_eq!(dst[(3 * 8 + 4) * 4], 1);
    assert_eq!(dst[(4 * 8 + 3) * 4], 1);
}

#[test]
fn alpha_blit_transparent_opaque_and_blended() {
    let mut dst = vec![100u8; 4 * 4 * 4];
    alpha_blit_tile(&mut dst, 4, 0, 0, &solid([200, 0, 50, 0]));
    assert_eq!(dst, vec![100u8; 64]);
    alpha_blit_tile(&mut dst, 4, 0, 0, &solid([200, 0, 50, 255]));
    assert_eq!(&dst[0..4], &[200, 0, 50, 255]);
    let mut dst2 = vec![100u8; 64];
    alpha_blit_tile(&mut dst2, 4, 0, 0, &solid([200, 0, 50, 51]));
    // (100 * 204 + 200 * 51) / 255 = 120; (100 * 204 + 0) / 255 = 80; (100 * 204 + 50 * 51) / 255 = 90.
    assert_eq!(&dst2[0..4], &[120, 80, 90, 255]);
}

/// An RGBA image `cols` blocks wide and `rows` blocks high in which block (r, c) has
/// every pixel `[r * 16 + c, x, y, alpha(r, c)]`.
fn template_image(rows: u32, cols: u32, alpha: impl Fn(u32, u32) -> u8) -> (Vec<u8>, u32, u32) {
    let w = cols * 8;
    let h = rows * 8;
    let mut data = vec![0u8; (w * h * 4) as usize];
    for y in 0..h {
        for x in 0..w {
            let (r, c) = (y / 8, x / 8);
            let i = ((y * w + x) * 4) as usize;
            data[i] = (r * 16 + c) as u8;
            data[i + 1] = (x % 8) as u8;
            data[i + 2] = (y % 8) as u8;
            data[i + 3] = alpha(r, c);
        }
    }
    (data, w, h)
}

#[test]
fn tileset_rows_stop_at_first_empty_block() {
    let (data, w, h) = template_image(2, 3, |r, c| if r == 1 && c == 1 { 0 } else { 255 });
    let t = TilesetPixels::from_image(&data, w, h, 8, 3);
    assert_eq!(t.tile_size, 4);
    assert_eq!(t.templates.len(), 2);
    assert_eq!(t.templates[0].len(), 3);
    assert_eq!(t.templates[1].len(), 1);
}

#[test]
fn tileset_pieces_come_from_the_right_pixels() {
    let (data, w, h) = template_image(1, 2, |_, _| 255);
    let t = TilesetPixels::from_image(&data, w, h, 8, 2);
    let p: &ParsedTemplate = &t.templates[0][1];
    // Base pixel (0, 0) is block pixel (2, 2).
    assert_eq!(&p.base[0..4], &[1, 2, 2, 255]);
    // From-north strip at top: pixel (1, 0) is block pixel (3, 6).
    assert_eq!(&p.overlay_from_n[4..8], &[1, 3, 6, 255]);
    assert_eq!(&p.overlay_from_n[(2 * 4) * 4..(2 * 4) * 4 + 4], &[0, 0, 0, 0]);
    // From-east strip at right: pixel (2, 0) is block pixel (0, 2).
    assert_eq!(&p.overlay_from_e[8..12], &[1, 0, 2, 255]);
    // From-south strip at bottom: pixel (0, 2) is block pixel (2, 0).
    assert_eq!(&p.overlay_from_s[32..36], &[1, 2, 0, 255]);
    // From-west strip at left: pixel (1, 3) is block pixel (7, 5).
    assert_eq!(&p.overlay_from_w[(3 * 4 + 1) * 4..(3 * 4 + 1) * 4 + 4], &[1, 7, 5, 255]);
}

#[test]
fn overlay_from_higher_priority_neighbour() {
    // 2x1 map: sand (priority 3) next to hill (priority 6).
    let m = MapData::new(8, 1, 2, 1, vec![TileType::Sand, TileType::Hill]).unwrap();
    let reg = TileRegistry::default();
    // East of the sand is the hill: overlay with the hill's template row 3.
    assert_eq!(compute_overlay_for_dir(0, 0, 1, &m, &reg), Some(3));
    // The hill gets nothing from the lower-priority sand.
    assert_eq!(compute_overlay_for_dir(1, 0, 3, &m, &reg), None);
    // Off the map.
    assert_eq!(compute_overlay_for_dir(0, 0, 3, &m, &reg), None);
    assert_eq!(compute_overlay_for_dir(0, 0, 0, &m, &reg), None);
}

#[test]
fn cardinal_tables() {
    assert_eq!(cardinal_offset(0), (0, 1));
    assert_eq!(cardinal_offset(1), (1, 0));
    assert_eq!(cardinal_offset(2), (0, -1));
    assert_eq!(cardinal_offset(3), (-1, 0));
    assert_eq!([cardinal_bit(0), cardinal_bit(1), cardinal_bit(2), cardinal_bit(3)], [1, 2, 4, 8]);
}

#[test]
fn analyze_overlay_groups_directions_by_type() {
    // 3x3 map, centre sand; N and S hill, E mountain, W ocean.
    let t = vec![
        TileType::Ocean, TileType::Hill, TileType::Ocean,
        TileType::Ocean, TileType::Sand, TileType::Mountain,
        TileType::Ocean, TileType::Hill, TileType::Ocean,
    ];
    let m = MapData::new(8, 3, 1, 1, t).unwrap();
    let reg = TileRegistry::default();
    // Row y = 0 is the first row of the vector; north is y + 1.
    let per_type = analyze_overlay(1, 1, TileType::Sand, 3, &m, &reg);
    assert_eq!(per_type, vec![(TileType::Hill, 1 | 4), (TileType::Mountain, 2)]);
    let none = analyze_overlay(1, 1, TileType::Mountain, 7, &m, &reg);
    assert!(none.is_empty());
}

#[test]
fn affected_positions_sorted_unique_and_clipped() {
    let changed = vec![(0u32, 0u32), (1, 0)];
    let p = affected_positions(&changed, 3, 2);
    assert_eq!(p, vec![(0, 0), (0, 1), (1, 0), (1, 1), (2, 0)]);
    assert!(affected_positions(&vec![], 3, 3).is_empty());
}

#[test]
fn perimeter_path_walks_the_border_once() {
    let p = build_perimeter_path(1, 1, 3, 3);
    assert_eq!(p, vec![(1, 1), (2, 1), (3, 1), (3, 2), (3, 3), (2, 3), (1, 3), (1, 2)]);
    let big = build_perimeter_path(1, 1, 10, 6);
    assert_eq!(big.len(), 2 * (10 + 6) - 4);
    for i in 0..big.len() {
        let (a, b) = (big[i], big[(i + 1) % big.len()]);
        assert_eq!((a.0 - b.0).abs() + (a.1 - b.1).abs(), 1);
    }
    let mut sorted = big.clone();
    sorted.sort();
    sorted.dedup();
    assert_eq!(sorted.len(), big.len());
}

#[test]
fn frame_tiles_skip_every_fifth() {
    assert_eq!(SEGMENT_LEN + GAP_LEN, FRAME_COUNT as u32);
    let path: Vec<(i32, i32)> = (0..7).map(|i| (i, 0)).collect();
    assert_eq!(compute_frame_tiles(&path, 0), vec![(0, 0), (1, 0), (2, 0), (3, 0), (5, 0), (6, 0)]);
    assert_eq!(compute_frame_tiles(&path, 1), vec![(0, 0), (1, 0), (2, 0), (4, 0), (5, 0), (6, 0)]);
    // Over the five frames each tile is dark exactly once.
    for i in 0..7 {
        let dark = (0..FRAME_COUNT).filter(|&f| !compute_frame_tiles(&path, f).contains(&(i, 0))).count();
        assert_eq!(dark, 1);
    }
}

/// A tileset of 8 template rows with one variation each; row r's base is solid
/// `[r, 0, 0, 255]` and its edge pieces are solid `[r, 1, 1, 255]` over their strip.
fn flat_tileset() -> TilesetPixels {
    let mut templates = Vec::new();
    for r in 0..8u8 {
        let strip = |keep: &dyn Fn(usize, usize) -> bool| {
            let mut b = [0u8; 64];
            for y in 0..4 {
                for x in 0..4 {
                    if keep(y, x) {
                        b[(y * 4 + x) * 4..(y * 4 + x) * 4 + 4].copy_from_slice(&[r, 1, 1, 255]);
                    }
                }
            }
            b
        };
        templates.push(vec![ParsedTemplate {
            base: solid([r, 0, 0, 255]),
            overlay_from_n: strip(&|y, _| y < 2),
            overlay_from_e: strip(&|_, x| x >= 2),
            overlay_from_s: strip(&|y, _| y >= 2),
            overlay_from_w: strip(&|_, x| x < 2),
        }]);
    }
    TilesetPixels { templates, tile_size: 4 }
}

fn zero_picks(cs: usize) -> Vec<Vec<usize>> {
    vec![vec![0usize; (cs + 2) * (cs + 2)]; 8]
}

#[test]
fn chunk_pixels_draw_base_tiles_flipped() {
    // One chunk of 2x2 tiles: row 0 plain grass (template 0), row 1 ocean (template 7).
    let t = vec![TileType::PlainGrass, TileType::PlainGrass, TileType::Ocean, TileType::Ocean];
    let m = MapData::new(8, 2, 1, 1, t).unwrap();
    let reg = TileRegistry::default();
    let ts = flat_tileset();
    let px = chunk_pixels(0, 0, &m, &reg, &ts, &zero_picks(2));
    assert_eq!(px.len(), 8 * 8 * 4);
    // Texture row 0 shows tile row 1 (ocean): grass has the higher priority, so the
    // ocean cells get the grass's north-facing edge... from their south neighbour.
    let top_left = &px[0..4];
    assert_eq!(top_left, &[7, 0, 0, 255]);
    // Bottom texture row shows the grass.
    let bl = ((7 * 8) * 4) as usize;
    assert_eq!(&px[bl..bl + 4], &[0, 0, 0, 255]);
    // Ocean tile (0, 1) has grass to its south: the south piece covers its bottom
    // two pixel rows (texture rows 2 and 3).
    let i = ((3 * 8) * 4) as usize;
    assert_eq!(&px[i..i + 4], &[0, 1, 1, 255]);
}

#[test]
fn fill_chunk_pixels_leaves_bytes_past_texture() {
    let m = MapData::new(8, 1, 1, 1, vec![TileType::Sand]).unwrap();
    let reg = TileRegistry::default();
    let ts = flat_tileset();
    let mut px = vec![9u8; 4 * 4 * 4 + 3];
    fill_chunk_pixels(&mut px, 0, 0, &m, &reg, &ts, &zero_picks(1));
    assert_eq!(&px[0..4], &[2, 0, 0, 255]);
    assert_eq!(&px[64..], &[9, 9, 9]);
}

#[test]
fn outline_frame_lights_border_tiles() {
    // 5x4 map: the inner border runs over x 1..=3, y 1..=2.
    let (tiles, px) = outline_frame(5, 4, 0);
    let path = build_perimeter_path(1, 1, 3, 2);
    assert_eq!(path.len(), 6);
    assert_eq!(tiles, compute_frame_tiles(&path, 0));
    assert_eq!(px.len(), 5 * 4 * 4);
    for y in 0..4 {
        for x in 0..5 {
            let i = ((y * 5 + x) * 4) as usize;
            let lit = tiles.contains(&(x as i32, y as i32));
            let expected = if lit { OUTLINE_COLOR_RGBA } else { [0, 0, 0, 0] };
            assert_eq!(&px[i..i + 4], &expected);
        }
    }
    assert_eq!(&px[0..4], &[0, 0, 0, 0]);
    let single = outline_frame_pixels(&vec![(1, 0)], 2, 1);
    assert_eq!(single, vec![0, 0, 0, 0, 255, 255, 255, 115]);
}

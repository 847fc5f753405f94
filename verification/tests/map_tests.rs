use worldbox::chunks::{
    collect_dirty_chunks, expand_rect, ChunkLoadState, ChunkRect, ChunkStep, CHUNKS_BUILD_BUDGET, LOAD_MARGIN,
    UNLOAD_MARGIN,
};
use worldbox::macro_map::{
    fill_macro_group_pixels, macro_group, macro_group_counts, macro_group_pixels, next_map_mode, refresh_macro_group,
    take_group_dirty, MapMode,
};
use worldbox::macro_map::refresh_macro_map;
use worldbox::map::MapData;
use worldbox::tile::{TileRegistry, TileType};

/// A map of `chunks_x` by `chunks_y` chunks of `cs` tiles, all plain grass.
fn grass_map(cs: u32, chunks_x: u32, chunks_y: u32) -> MapData {
    let n = (cs * chunks_x * cs * chunks_y) as usize;
    MapData::new(8, cs, chunks_x, chunks_y, vec![TileType::PlainGrass; n]).unwrap()
}

#[test]
fn new_map_has_clean_flags_and_dimensions() {
    let m = grass_map(4, 3, 2);
    assert_eq!(m.width_tiles(), 12);
    assert_eq!(m.height_tiles(), 8);
    assert_eq!(m.dirty_chunks, vec![false; 6]);
    assert_eq!(m.macro_dirty_chunks, vec![false; 6]);
    assert_eq!(m.get_tile(11, 7), TileType::PlainGrass);
}

#[test]
fn new_map_rejects_wrong_tile_count_and_zero_chunk_size() {
    assert!(MapData::new(8, 4, 2, 2, vec![TileType::Ocean; 63]).is_none());
    assert!(MapData::new(8, 0, 2, 2, vec![]).is_none());
    assert!(MapData::new(8, 4, 2, 2, vec![TileType::Ocean; 64]).is_some());
}

#[test]
fn set_tile_reads_back_and_reports_change() {
    let mut m = grass_map(4, 3, 3);
    assert!(m.set_tile(5, 5, TileType::Sand));
    assert_eq!(m.get_tile(5, 5), TileType::Sand);
    assert!(!m.set_tile(5, 5, TileType::Sand));
    assert_eq!(m.get_tile(5, 6), TileType::PlainGrass);
}

#[test]
fn set_tile_same_type_changes_nothing() {
    let mut m = grass_map(4, 2, 2);
    assert!(!m.set_tile(0, 0, TileType::PlainGrass));
    assert_eq!(m.dirty_chunks, vec![false; 4]);
    assert_eq!(m.macro_dirty_chunks, vec![false; 4]);
}

#[test]
fn set_tile_inside_chunk_dirties_only_its_chunk() {
    let mut m = grass_map(4, 3, 3);
    assert!(m.set_tile(5, 5, TileType::Hill));
    let mut expected = vec![false; 9];
    expected[1 * 3 + 1] = true;
    assert_eq!(m.dirty_chunks, expected);
    assert_eq!(m.macro_dirty_chunks, expected);
}

#[test]
fn set_tile_on_chunk_corner_dirties_neighbours_but_macro_only_own() {
    let mut m = grass_map(4, 3, 3);
    // (4, 4) is the bottom-left corner cell of chunk (1, 1).
    assert!(m.set_tile(4, 4, TileType::Mountain));
    let mut expected = vec![false; 9];
    expected[1 * 3 + 1] = true;
    expected[1 * 3 + 0] = true;
    expected[0 * 3 + 1] = true;
    assert_eq!(m.dirty_chunks, expected);
    let mut macro_expected = vec![false; 9];
    macro_expected[4] = true;
    assert_eq!(m.macro_dirty_chunks, macro_expected);
    // (7, 7) is the top-right corner cell of chunk (1, 1).
    let mut m2 = grass_map(4, 3, 3);
    assert!(m2.set_tile(7, 7, TileType::Mountain));
    let mut expected2 = vec![false; 9];
    expected2[4] = true;
    expected2[5] = true;
    expected2[7] = true;
    assert_eq!(m2.dirty_chunks, expected2);
}

#[test]
fn set_tile_on_map_edge_does_not_dirty_outside() {
    let mut m = grass_map(4, 2, 2);
    assert!(m.set_tile(0, 0, TileType::Ocean));
    assert_eq!(m.dirty_chunks, vec![true, false, false, false]);
}

#[test]
fn take_chunk_dirty_reads_then_clears() {
    let mut m = grass_map(4, 2, 2);
    m.set_tile(1, 1, TileType::Sand);
    assert!(m.take_chunk_dirty(0, 0));
    assert!(!m.take_chunk_dirty(0, 0));
    assert!(m.take_macro_chunk_dirty(0, 0));
    assert!(!m.take_macro_chunk_dirty(0, 0));
    assert!(!m.take_chunk_dirty(1, 1));
}

#[test]
fn collect_dirty_chunks_lists_row_by_row_and_clears() {
    let mut m = grass_map(4, 3, 2);
    m.set_tile(9, 1, TileType::Sand);
    m.set_tile(1, 5, TileType::Sand);
    m.set_tile(5, 1, TileType::Sand);
    let dirty = collect_dirty_chunks(&mut m);
    assert_eq!(dirty, vec![(1, 0), (2, 0), (0, 1)]);
    assert_eq!(m.dirty_chunks, vec![false; 6]);
    assert!(collect_dirty_chunks(&mut m).is_empty());
    assert_eq!(m.macro_dirty_chunks, vec![false, true, true, true, false, false]);
}

#[test]
fn painted_tile_chunk_is_listed_for_redraw() {
    let mut m = grass_map(4, 3, 3);
    m.set_tile(10, 6, TileType::Hill);
    let dirty = collect_dirty_chunks(&mut m);
    assert!(dirty.contains(&(2, 1)));
}

#[test]
fn map_mode_switches_on_zoom() {
    assert_eq!(next_map_mode(MapMode::Standard, true), Some(MapMode::Macro));
    assert_eq!(next_map_mode(MapMode::Standard, false), None);
    assert_eq!(next_map_mode(MapMode::Macro, false), Some(MapMode::Standard));
    assert_eq!(next_map_mode(MapMode::Macro, true), None);
}

#[test]
fn macro_group_counts_round_up() {
    assert_eq!(macro_group_counts(110, 60), (11, 6));
    assert_eq!(macro_group_counts(1, 21), (1, 3));
    assert_eq!(macro_group_counts(0, 10), (0, 1));
}

#[test]
fn macro_group_is_clipped_to_map() {
    let g = macro_group(1, 2, 15, 23);
    assert_eq!((g.cx_start, g.cx_end, g.cy_start, g.cy_end), (10, 15, 20, 23));
    let g0 = macro_group(0, 0, 15, 23);
    assert_eq!((g0.cx_start, g0.cx_end, g0.cy_start, g0.cy_end), (0, 10, 0, 10));
}

#[test]
fn every_chunk_belongs_to_its_group() {
    let (gx_n, gy_n) = macro_group_counts(23, 12);
    for cy in 0..12u32 {
        for cx in 0..23u32 {
            let mut owners = 0;
            for gy in 0..gy_n {
                for gx in 0..gx_n {
                    let g = macro_group(gx, gy, 23, 12);
                    if g.cx_start <= cx && cx < g.cx_end && g.cy_start <= cy && cy < g.cy_end {
                        owners += 1;
                        assert_eq!((gx, gy), (cx / 10, cy / 10));
                    }
                }
            }
            assert_eq!(owners, 1);
        }
    }
}

#[test]
fn macro_pixels_use_registry_colours() {
    let mut m = grass_map(2, 2, 1);
    m.set_tile(3, 1, TileType::Ocean);
    let reg = TileRegistry::default();
    let (g, px) = macro_group_pixels(&m, &reg, 0, 0);
    assert_eq!((g.cx_start, g.cx_end, g.cy_start, g.cy_end), (0, 2, 0, 1));
    assert_eq!(px.len(), 4 * 2 * 4);
    // Pixel (0, 0): plain grass.
    assert_eq!(&px[0..4], &[125, 172, 69, 255]);
    // Pixel (3, 1): ocean.
    let i = (1 * 4 + 3) * 4;
    assert_eq!(&px[i..i + 4], &[51, 112, 204, 255]);
}

#[test]
fn macro_pixels_black_for_unregistered_type() {
    let m = grass_map(1, 1, 1);
    let reg = TileRegistry::new();
    let mut px = vec![9u8; 8];
    fill_macro_group_pixels(&mut px, 0, 1, 0, 1, 1, &m, &reg);
    assert_eq!(px, vec![0, 0, 0, 255, 9, 9, 9, 9]);
}

#[test]
fn take_group_dirty_clears_only_its_group() {
    let mut m = grass_map(1, 12, 1);
    m.set_tile(3, 0, TileType::Sand);
    m.set_tile(11, 0, TileType::Sand);
    let g0 = macro_group(0, 0, 12, 1);
    assert!(take_group_dirty(&mut m, g0));
    assert!(!take_group_dirty(&mut m, g0));
    assert!(m.macro_dirty_chunks[11]);
    assert!(!m.macro_dirty_chunks[3]);
}

#[test]
fn refresh_macro_group_redraws_once() {
    let mut m = grass_map(2, 1, 1);
    let reg = TileRegistry::default();
    let (_, mut px) = macro_group_pixels(&m, &reg, 0, 0);
    m.set_tile(1, 0, TileType::Mountain);
    assert!(refresh_macro_group(&mut m, &reg, 0, 0, &mut px));
    assert_eq!(&px[4..8], &[61, 61, 61, 255]);
    let before = px.clone();
    assert!(!refresh_macro_group(&mut m, &reg, 0, 0, &mut px));
    assert_eq!(px, before);
}

#[test]
fn expand_rect_grows_and_clips() {
    let view = ChunkRect { min_x: 2, max_x: 5, min_y: 0, max_y: 3 };
    let load = expand_rect(view, LOAD_MARGIN, 7, 10);
    assert_eq!((load.min_x, load.max_x, load.min_y, load.max_y), (0, 7, 0, 6));
    let unload = expand_rect(view, UNLOAD_MARGIN, 20, 20);
    assert_eq!((unload.min_x, unload.max_x, unload.min_y, unload.max_y), (0, 11, 0, 9));
    assert!(load.contains(6, 5));
    assert!(!load.contains(7, 5));
}

#[test]
fn first_frame_budget_is_unlimited_then_fixed() {
    let mut st = ChunkLoadState::new(4);
    assert_eq!(st.budget(), usize::MAX);
    st.finish_frame();
    assert_eq!(st.budget(), CHUNKS_BUILD_BUDGET);
    assert_eq!(CHUNKS_BUILD_BUDGET, 4);
}

#[test]
fn step_chunk_builds_within_budget() {
    let mut st = ChunkLoadState::new(6);
    st.finish_frame();
    let budget = st.budget();
    let mut count = 0usize;
    let mut builds = 0;
    for idx in 0..6 {
        let s = st.step_chunk(idx, true, true, true, false, &mut count, budget);
        if s.build {
            builds += 1;
        }
    }
    assert_eq!(builds, 4);
    assert_eq!(count, 4);
    assert_eq!(st.built, vec![true, true, true, true, false, false]);
}

#[test]
fn step_chunk_releases_far_chunks_and_hides_unbuilt() {
    let mut st = ChunkLoadState::new(2);
    let mut count = 0usize;
    let s = st.step_chunk(0, true, true, true, false, &mut count, usize::MAX);
    assert_eq!(s, ChunkStep { release: false, build: true, visible: Some(true) });
    let s2 = st.step_chunk(0, false, false, false, false, &mut count, usize::MAX);
    assert_eq!(s2, ChunkStep { release: true, build: false, visible: Some(false) });
    assert!(!st.built[0]);
    let s3 = st.step_chunk(1, true, false, true, true, &mut count, usize::MAX);
    assert_eq!(s3, ChunkStep { release: false, build: false, visible: None });
}

#[test]
fn needs_refill_only_for_built_dirty_chunks() {
    let mut st = ChunkLoadState::new(4);
    let mut count = 0usize;
    st.step_chunk(3, true, true, true, false, &mut count, usize::MAX);
    let dirty = vec![(1, 1), (0, 0)];
    assert!(st.needs_refill(&dirty, 1, 1, 2));
    assert!(!st.needs_refill(&dirty, 0, 0, 2));
    assert!(!st.needs_refill(&dirty, 1, 0, 2));
}

#[test]
fn refresh_macro_map_redraws_dirty_groups_and_clears_all_flags() {
    // 12 x 1 chunks of 1 tile: two groups, 10 and 2 chunks wide.
    let mut m = grass_map(1, 12, 1);
    let reg = TileRegistry::default();
    m.set_tile(11, 0, TileType::Ocean);
    m.set_tile(2, 0, TileType::Sand);
    let mut textures = vec![vec![7u8; 10 * 4], vec![7u8; 2 * 4]];
    refresh_macro_map(&mut m, &reg, &mut textures);
    assert_eq!(m.macro_dirty_chunks, vec![false; 12]);
    assert_eq!(&textures[0][0..4], &[125, 172, 69, 255]);
    assert_eq!(&textures[0][8..12], &[247, 232, 152, 255]);
    assert_eq!(&textures[1][4..8], &[51, 112, 204, 255]);
    // Nothing dirty: textures stay; a too-small texture only has its flags cleared.
    let before = textures.clone();
    refresh_macro_map(&mut m, &reg, &mut textures);
    assert_eq!(textures, before);
    m.set_tile(0, 0, TileType::Hill);
    let mut small = vec![vec![1u8; 3], vec![2u8; 8]];
    refresh_macro_map(&mut m, &reg, &mut small);
    assert_eq!(small, vec![vec![1u8; 3], vec![2u8; 8]]);
    assert_eq!(m.macro_dirty_chunks, vec![false; 12]);
}

#[test]
fn repeated_paints_keep_chunk_dirty_until_taken() {
    let mut m = grass_map(4, 2, 2);
    assert!(m.set_tile(1, 1, TileType::Sand));
    assert!(!m.set_tile(1, 1, TileType::Sand));
    assert!(m.set_tile(2, 2, TileType::Hill));
    assert!(m.take_chunk_dirty(0, 0));
    assert!(!m.take_chunk_dirty(0, 0));
}

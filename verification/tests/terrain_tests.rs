use rand::{RngExt, SeedableRng};
use rand_chacha::ChaCha8Rng;
use worldbox::distance::{bfs_dt, UNREACHED};
use worldbox::terrain::{
    dominant_water_label, expand_rivers, far_from_sources, lake_cells, river_cells, shore_water, shuffle, trace_path,
    ShoreWater,
};
use worldbox::water::label_comp;
use worldbox::terrain::{apply_shuffle_picks, TerrainRng};

#[test]
fn shuffle_keeps_elements_and_moves_them() {
    let before: Vec<u32> = (0..100).collect();
    let mut v = before.clone();
    let mut rng = TerrainRng::new(ChaCha8Rng::seed_from_u64(0xab9def1234));
    shuffle(&mut v, &mut rng);
    let mut sorted = v.clone();
    sorted.sort();
    assert_eq!(sorted, before);
    assert_ne!(v, before);
}

#[test]
fn shuffle_is_deterministic_for_a_seed() {
    let mut a: Vec<(usize, usize)> = (0..20).map(|i| (i, i * 2)).collect();
    let mut b = a.clone();
    shuffle(&mut a, &mut TerrainRng::new(ChaCha8Rng::seed_from_u64(7)));
    shuffle(&mut b, &mut TerrainRng::new(ChaCha8Rng::seed_from_u64(7)));
    assert_eq!(a, b);
}

#[test]
fn shuffle_of_short_vectors() {
    let mut e: Vec<u8> = vec![];
    shuffle(&mut e, &mut TerrainRng::new(ChaCha8Rng::seed_from_u64(1)));
    assert!(e.is_empty());
    let mut one = vec![5u8];
    shuffle(&mut one, &mut TerrainRng::new(ChaCha8Rng::seed_from_u64(1)));
    assert_eq!(one, vec![5]);
}

#[test]
fn river_sources_must_be_far_apart() {
    let sources = vec![(100usize, 100usize)];
    // 63^2 = 3969 < 4000: too close; 64^2 = 4096: far enough.
    assert!(!far_from_sources(&sources, 163, 100));
    assert!(far_from_sources(&sources, 164, 100));
    assert!(far_from_sources(&vec![], 0, 0));
    // 40^2 + 50^2 = 4100.
    assert!(far_from_sources(&sources, 140, 150));
    assert!(!far_from_sources(&vec![(0, 0), (100, 100)], 140, 140));
}

#[test]
fn shore_water_classes() {
    assert_eq!(shore_water(0, 500, 1), ShoreWater::Open);
    assert_eq!(shore_water(1, 500, 1), ShoreWater::Open);
    assert_eq!(shore_water(2, 39, 1), ShoreWater::Pond);
    assert_eq!(shore_water(2, 40, 1), ShoreWater::SmallLake);
    assert_eq!(shore_water(2, 149, 1), ShoreWater::SmallLake);
    assert_eq!(shore_water(2, 150, 1), ShoreWater::Lake);
}

#[test]
fn dominant_water_label_picks_largest_in_window() {
    // 6x6 grid; label 1 (size 3) near the top-left, label 2 (size 10) at the right.
    let w = 6;
    let h = 6;
    let mut labels = vec![0u32; w * h];
    labels[0] = 1;
    labels[1] = 1;
    labels[w] = 1;
    labels[2 * w + 4] = 2;
    let sizes = vec![0u32, 3, 10];
    assert_eq!(dominant_water_label(&labels, &sizes, w, h, 2, 2), (2, 10));
    assert_eq!(dominant_water_label(&labels, &sizes, w, h, 0, 0), (1, 3));
    assert_eq!(dominant_water_label(&labels, &sizes, w, h, 0, 5), (0, 0));
}

#[test]
fn dominant_water_label_first_wins_ties_and_ignores_unknown_labels() {
    let w = 5;
    let h = 1;
    let labels = vec![3u32, 0, 0, 4, 9];
    let sizes = vec![0u32, 0, 0, 7, 7];
    assert_eq!(dominant_water_label(&labels, &sizes, w, h, 2, 0), (3, 7));
}

#[test]
fn expand_rivers_by_width_class() {
    let w = 5;
    let h = 5;
    let mut riv = vec![false; 25];
    let mut widths = vec![1u8; 25];
    riv[2 * w + 2] = true;
    widths[2 * w + 2] = 1;
    let r1 = expand_rivers(&riv, &widths, w, h);
    assert_eq!(r1.iter().filter(|b| **b).count(), 1);
    widths[2 * w + 2] = 2;
    let r2 = expand_rivers(&riv, &widths, w, h);
    assert_eq!(r2.iter().filter(|b| **b).count(), 5);
    assert!(r2[1 * w + 2] && r2[3 * w + 2] && r2[2 * w + 1] && r2[2 * w + 3]);
    assert!(!r2[1 * w + 1]);
    widths[2 * w + 2] = 3;
    let r3 = expand_rivers(&riv, &widths, w, h);
    assert_eq!(r3.iter().filter(|b| **b).count(), 9);
    assert!(r3[1 * w + 1] && r3[3 * w + 3]);
    assert!(!r3[0]);
}

#[test]
fn expand_rivers_clips_at_border() {
    let riv = vec![true, false, false, false];
    let widths = vec![3u8; 4];
    assert_eq!(expand_rivers(&riv, &widths, 2, 2), vec![true, true, true, true]);
    let narrow = vec![1u8; 4];
    assert_eq!(expand_rivers(&riv, &narrow, 2, 2), vec![true, false, false, false]);
}

#[test]
fn trace_path_walks_back_to_source() {
    // 0 <- 1 <- 2 <- 5 ; source 0 links to itself.
    let prev = vec![0usize, 0, 1, 3, 4, 2];
    assert_eq!(trace_path(&prev, 5, 0), vec![0, 1, 2, 5]);
    assert_eq!(trace_path(&prev, 0, 0), vec![0]);
}

#[test]
fn trace_path_stops_at_source_before_self_link() {
    // 3 -> 2 -> 1 -> 0, source 2: the walk ends at 2.
    let prev = vec![0usize, 0, 1, 2];
    assert_eq!(trace_path(&prev, 3, 2), vec![2, 3]);
}

#[test]
fn river_cells_fill_diagonal_corners() {
    let w = 4;
    let h = 4;
    // (0,0) -> (1,1) diagonal -> (1,2) straight.
    let path = vec![0usize, 1 * w + 1, 1 * w + 2];
    let cells = river_cells(&path, w, h);
    assert_eq!(cells, vec![0, 1, w, 1 * w + 1]);
    assert!(river_cells(&vec![7], w, h).is_empty());
}

#[test]
fn lake_cells_group_by_label_skipping_ocean() {
    let labels = vec![1u32, 2, 0, 2, 3, 1, 3];
    let lists = lake_cells(&labels, 4, 1);
    assert_eq!(lists.len(), 4);
    assert!(lists[0].is_empty());
    assert!(lists[1].is_empty());
    assert_eq!(lists[2], vec![1, 3]);
    assert_eq!(lists[3], vec![4, 6]);
}

#[test]
fn label_comp_labels_in_first_appearance_order() {
    // 4x3 grid:
    // T T . T
    // . . . T
    // T . T T
    let mask = vec![true, true, false, true, false, false, false, true, true, false, true, true];
    let (labels, sizes) = label_comp(&mask, 4, 3);
    assert_eq!(labels, vec![1, 1, 0, 2, 0, 0, 0, 2, 3, 0, 2, 2]);
    assert_eq!(sizes, vec![0, 2, 4, 1]);
}

#[test]
fn label_comp_diagonal_cells_are_separate() {
    let mask = vec![true, false, false, true];
    let (labels, sizes) = label_comp(&mask, 2, 2);
    assert_eq!(labels, vec![1, 0, 0, 2]);
    assert_eq!(sizes, vec![0, 1, 1]);
}

#[test]
fn bfs_dt_is_chebyshev_distance() {
    // 5x3 grid with one water cell at (0, 0).
    let mut mask = vec![false; 15];
    mask[0] = true;
    let d = bfs_dt(&mask, 5, 3);
    assert_eq!(d, vec![0, 1, 2, 3, 4, 1, 1, 2, 3, 4, 2, 2, 2, 3, 4]);
}

#[test]
fn bfs_dt_without_water_is_unreached() {
    let mask = vec![false; 6];
    assert_eq!(bfs_dt(&mask, 3, 2), vec![UNREACHED; 6]);
    assert_eq!(UNREACHED, u32::MAX);
}

#[test]
fn bfs_dt_takes_nearest_of_several() {
    let mut mask = vec![false; 7];
    mask[0] = true;
    mask[6] = true;
    assert_eq!(bfs_dt(&mask, 7, 1), vec![0, 1, 2, 3, 2, 1, 0]);
}

#[test]
fn apply_shuffle_picks_swaps_from_the_back() {
    let mut v = vec![0u8, 1, 2, 3];
    apply_shuffle_picks(&mut v, &vec![0, 2, 0]);
    assert_eq!(v, vec![1, 3, 2, 0]);
    let mut w = vec![5u8, 6, 7];
    apply_shuffle_picks(&mut w, &vec![2, 1]);
    assert_eq!(w, vec![5, 6, 7]);
}

#[test]
fn shuffle_uses_the_generator_draws_in_order() {
    // Drawing 0..=3, 0..=2, 0..=1 by hand from the same seed gives the swaps made.
    let mut by_hand = ChaCha8Rng::seed_from_u64(99);
    let picks: Vec<usize> = (1..4usize).rev().map(|i| by_hand.random_range(0..=i)).collect();
    let mut expected = vec![10u8, 11, 12, 13];
    apply_shuffle_picks(&mut expected, &picks);
    let mut v = vec![10u8, 11, 12, 13];
    let mut rng = TerrainRng::new(ChaCha8Rng::seed_from_u64(99));
    shuffle(&mut v, &mut rng);
    assert_eq!(v, expected);
    // The generator moved on by exactly those draws.
    assert_eq!(rng.rng.random_range(0..=1000usize), by_hand.random_range(0..=1000usize));
}

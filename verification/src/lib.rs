//! Verified core of a tile-based world simulation: the terrain grid and its
//! dirty-chunk bookkeeping, terrain generation stages (connected water bodies,
//! distance transforms, shuffling, river tracing and widening, shore analysis),
//! autotile overlay rules, tileset slicing, chunk and macro-map texture drawing,
//! lazy chunk loading, the map outline, faction/spritesheet/prop registries and
//! the editing tool state machine.

pub mod arith;
pub mod tile;
pub mod map;
pub mod water;
pub mod distance;
pub mod faction;
pub mod tileset;
pub mod blit;
pub mod autotile;
pub mod outline;
pub mod coords;
pub mod spritesheet;
pub mod props;
pub mod painting;
pub mod macro_map;
pub mod chunks;
pub mod chunk_render;
pub mod terrain;

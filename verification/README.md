# worldbox

A tile-based world simulation. The crate is a verified library: its data
structures and algorithms carry `requires`/`ensures` contracts proved by Verus.
`app/` is the Bevy program around it (windowing, input, camera, GPU images, the
floating-point stages of terrain generation).

## Library modules (`src/`)

- `map`: the tile grid with per-chunk dirty flags (standard and macro map).
- `tile`, `props`, `spritesheet`, `faction`: registries of tile types, props,
  spritesheets and factions.
- `water`, `distance`, `terrain`: water-body labelling, Chebyshev distance
  transform, and the integer stages of terrain generation (shuffling, river
  tracing and widening, shore analysis).
- `tileset`, `blit`, `autotile`, `chunk_render`: slicing the tileset into
  template pieces, pixel compositing, overlay rules and chunk textures.
- `chunks`, `macro_map`, `outline`: lazy chunk loading, the zoomed-out macro map
  and the animated map outline.
- `painting`: the editing tool's state machine.
- `arith`, `coords`: shared lemmas and plain vector types.

Cross-function properties are stated as `law_*` proof functions next to the
functions they relate. `tests/` runs the library on concrete values.

## Registry storage

The tile, prop and spritesheet registries are keyed by small closed enums. Each
stores one optional definition per enum variant in a fixed array indexed by the
variant's number, and exposes its contents as a `Map` view. A `HashMap` keyed by
the enum itself would rest on the derived `Hash`/`Eq` impls, which the verifier
does not read, so nothing could be proved about lookups. Keying a `HashMap` by the
variant's number would work, but for at most twelve keys the array gives the same
map with lookups and inserts that need no hashing and whose view is exact by
construction.

The terrain generator's random draws go through `TerrainRng`, which records each
request and result so that `shuffle` states exactly which draws it made.

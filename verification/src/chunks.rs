use vstd::prelude::*;

use crate::arith::{lemma_cell_coords, lemma_cell_index};
use crate::map::MapData;

verus! {

/// Most chunk textures built in one frame once the first frame has been drawn.
pub const CHUNKS_BUILD_BUDGET: usize = 4;

/// Extra chunks beyond the viewport whose textures are built ahead of time.
pub const LOAD_MARGIN: i32 = 3;

/// Chunks farther than this beyond the viewport have their textures released.
pub const UNLOAD_MARGIN: i32 = 6;

/// A half-open rectangle of chunk coordinates, `min_x..max_x` by `min_y..max_y`.
#[derive(Clone, Copy, Debug)]
pub struct ChunkRect {
    pub min_x: i32,
    pub max_x: i32,
    pub min_y: i32,
    pub max_y: i32,
}

impl ChunkRect {
    /// Whether chunk (cx, cy) lies in the rectangle.
    pub open spec fn has(self, cx: int, cy: int) -> bool {
        self.min_x <= cx < self.max_x && self.min_y <= cy < self.max_y
    }

    /// Whether chunk (cx, cy) lies in the rectangle.
    pub fn contains(&self, cx: i32, cy: i32) -> (r: bool)
        ensures
            r == self.has(cx as int, cy as int),
    {
        cx >= self.min_x && cx < self.max_x && cy >= self.min_y && cy < self.max_y
    }
}

/// `v - margin`, but not below 0.
pub open spec fn grow_min(v: int, margin: int) -> int {
    if v - margin > 0 {
        v - margin
    } else {
        0
    }
}

/// `v + margin`, but not above `limit`.
pub open spec fn grow_max(v: int, margin: int, limit: int) -> int {
    if v + margin < limit {
        v + margin
    } else {
        limit
    }
}

/// The rectangle `view` grown by `margin` chunks on every side, clipped to the map's
/// `chunks_x` by `chunks_y` chunks.
pub open spec fn grown(view: ChunkRect, margin: int, chunks_x: int, chunks_y: int) -> ChunkRect {
    ChunkRect {
        min_x: grow_min(view.min_x as int, margin) as i32,
        max_x: grow_max(view.max_x as int, margin, chunks_x) as i32,
        min_y: grow_min(view.min_y as int, margin) as i32,
        max_y: grow_max(view.max_y as int, margin, chunks_y) as i32,
    }
}

/// Grows the viewport rectangle by `margin` chunks on each side, clipped to the map.
pub fn expand_rect(view: ChunkRect, margin: i32, chunks_x: i32, chunks_y: i32) -> (r: ChunkRect)
    requires
        0 <= margin,
        0 <= chunks_x,
        0 <= chunks_y,
    ensures
        r == grown(view, margin as int, chunks_x as int, chunks_y as int),
{
    let min_x = view.min_x as i64 - margin as i64;
    let max_x = view.max_x as i64 + margin as i64;
    let min_y = view.min_y as i64 - margin as i64;
    let max_y = view.max_y as i64 + margin as i64;
    ChunkRect {
        min_x: if min_x > 0 { min_x as i32 } else { 0 },
        max_x: if max_x < chunks_x as i64 { max_x as i32 } else { chunks_x },
        min_y: if min_y > 0 { min_y as i32 } else { 0 },
        max_y: if max_y < chunks_y as i64 { max_y as i32 } else { chunks_y },
    }
}

/// Growing a rectangle keeps every chunk it held that lies on the map, and growing
/// by a larger margin gives a rectangle that holds the smaller one's chunks.
pub proof fn law_grown_rects_nest(view: ChunkRect, m1: int, m2: int, chunks_x: int, chunks_y: int, cx: int, cy: int)
    requires
        0 <= m1 <= m2,
        0 <= chunks_x <= i32::MAX,
        0 <= chunks_y <= i32::MAX,
    ensures
        view.has(cx, cy) && 0 <= cx < chunks_x && 0 <= cy < chunks_y ==> grown(view, m1, chunks_x, chunks_y).has(cx, cy),
        grown(view, m1, chunks_x, chunks_y).has(cx, cy) ==> grown(view, m2, chunks_x, chunks_y).has(cx, cy),
{
}

/// What to do with one chunk's texture and sprite this frame.
#[derive(Clone, Copy, PartialEq, Eq, Debug, Structural)]
pub struct ChunkStep {
    /// Drop the chunk's texture (show the shared placeholder).
    pub release: bool,
    /// Build the chunk's texture.
    pub build: bool,
    /// New visibility of the chunk's sprite, or `None` to leave it (macro mode).
    pub visible: Option<bool>,
}

/// Lazy chunk-texture loading: which chunk textures exist, and whether the first
/// (unbudgeted) frame has been handled.
pub struct ChunkLoadState {
    /// Whether the initial batch of visible chunks has been built.
    pub initial_load_done: bool,
    /// Per-chunk build flag, indexed by `cy * chunks_x + cx`.
    pub built: Vec<bool>,
}

/// The step for a chunk whose texture exists (`built`) before the step, when
/// `count` textures were built earlier this frame within `budget`.
pub open spec fn chunk_step_spec(
    built: bool,
    in_view: bool,
    in_load: bool,
    in_unload: bool,
    in_macro: bool,
    count: int,
    budget: int,
) -> ChunkStep {
    let release = !in_unload && built;
    let after_release = built && !release;
    let build = in_load && !after_release && count < budget;
    let after = after_release || build;
    ChunkStep { release, build, visible: if in_macro { None } else { Some(in_view && after) } }
}

impl ChunkLoadState {
    /// No chunk texture built yet, first frame pending.
    pub fn new(num_chunks: usize) -> (r: Self)
        ensures
            !r.initial_load_done,
            r.built@ == Seq::new(num_chunks as nat, |i: int| false),
    {
        let built = vec![false; num_chunks];
        proof {
            assert(built@ =~= Seq::new(num_chunks as nat, |i: int| false));
        }
        ChunkLoadState { initial_load_done: false, built }
    }

    /// Textures that may be built this frame: unlimited on the first frame, so that
    /// it is not blank, and `CHUNKS_BUILD_BUDGET` afterwards.
    pub fn budget(&self) -> (r: usize)
        ensures
            r == (if self.initial_load_done { CHUNKS_BUILD_BUDGET } else { usize::MAX }),
    {
        if self.initial_load_done {
            CHUNKS_BUILD_BUDGET
        } else {
            usize::MAX
        }
    }

    /// One chunk of this frame's pass: releases its texture when it is beyond the
    /// unload range, builds it when it is in the load range, not built and the
    /// frame's budget allows (counting it in `built_count`), and, outside macro
    /// mode, shows the sprite exactly when it is in view and has a texture.
    pub fn step_chunk(
        &mut self,
        idx: usize,
        in_view: bool,
        in_load: bool,
        in_unload: bool,
        in_macro: bool,
        built_count: &mut usize,
        budget: usize,
    ) -> (r: ChunkStep)
        requires
            idx < old(self).built@.len(),
            *old(built_count) <= budget,
        ensures
            r == chunk_step_spec(
                old(self).built@[idx as int],
                in_view,
                in_load,
                in_unload,
                in_macro,
                *old(built_count) as int,
                budget as int,
            ),
            final(self).initial_load_done == old(self).initial_load_done,
            final(self).built@ == old(self).built@.update(
                idx as int,
                (old(self).built@[idx as int] && !r.release) || r.build,
            ),
            *final(built_count) == *old(built_count) + (if r.build { 1int } else { 0int }),
            in_unload ==> !r.release,
            in_unload && old(self).built@[idx as int] ==> final(self).built@[idx as int],
    {
        let mut release = false;
        let mut build = false;
        if !in_unload && self.built[idx] {
            release = true;
            self.built.set(idx, false);
        }
        if in_load && !self.built[idx] && *built_count < budget {
            build = true;
            self.built.set(idx, true);
            *built_count = *built_count + 1;
        }
        let visible = if in_macro {
            None
        } else {
            Some(in_view && self.built[idx])
        };
        proof {
            assert(self.built@ =~= old(self).built@.update(
                idx as int,
                (old(self).built@[idx as int] && !release) || build,
            ));
        }
        ChunkStep { release, build, visible }
    }

    /// Marks the first frame as handled.
    pub fn finish_frame(&mut self)
        ensures
            final(self).initial_load_done,
            final(self).built@ == old(self).built@,
    {
        if !self.initial_load_done {
            self.initial_load_done = true;
        }
    }

    /// Whether chunk (cx, cy), on a map `chunks_x` chunks wide, is in `dirty` and has
    /// a texture, so that its texture must be redrawn.
    pub fn needs_refill(&self, dirty: &Vec<(u32, u32)>, cx: u32, cy: u32, chunks_x: u32) -> (r: bool)
        requires
            cx < chunks_x,
            (cy + 1) * chunks_x <= self.built@.len(),
            (cy + 1) * chunks_x <= u32::MAX,
        ensures
            r == ((exists|i: int| 0 <= i < dirty@.len() && (#[trigger] dirty@[i]).0 == cx && dirty@[i].1 == cy)
                && self.built@[cy * chunks_x + cx]),
    {
        let mut found = false;
        let mut i: usize = 0;
        while i < dirty.len()
            invariant
                i <= dirty@.len(),
                found == exists|k: int| 0 <= k < i && (#[trigger] dirty@[k]).0 == cx && dirty@[k].1 == cy,
            decreases dirty@.len() - i,
        {
            let (dx, dy) = dirty[i];
            if dx == cx && dy == cy {
                found = true;
            }
            i = i + 1;
        }
        if !found {
            return false;
        }
        proof {
            assert(cy * chunks_x + cx < (cy + 1) * chunks_x) by (nonlinear_arith)
                requires
                    cx < chunks_x,
            ;
            assert(0 <= cy * chunks_x) by (nonlinear_arith);
        }
        self.built[(cy * chunks_x + cx) as usize]
    }
}

/// A frame never builds more textures than its budget: each step keeps the count
/// within the budget.
pub proof fn law_builds_within_budget(built: bool, in_view: bool, in_load: bool, in_unload: bool, in_macro: bool, count: int, budget: int)
    requires
        0 <= count <= budget,
    ensures
        count + (if chunk_step_spec(built, in_view, in_load, in_unload, in_macro, count, budget).build { 1int } else { 0int })
            <= budget,
{
}

/// A chunk beyond the unload range holds no texture after its step (when the load
/// range lies inside the unload range); a chunk inside the unload range is never
/// released, so a built one keeps its texture, even when it has left the load range;
/// a chunk in the load range holds one unless the budget ran out; a shown sprite
/// always has a texture.
pub proof fn law_chunk_step_outcome(built: bool, in_view: bool, in_load: bool, in_unload: bool, in_macro: bool, count: int, budget: int)
    requires
        in_load ==> in_unload,
    ensures
        ({
            let s = chunk_step_spec(built, in_view, in_load, in_unload, in_macro, count, budget);
            let after = (built && !s.release) || s.build;
            &&& !in_unload ==> !after
            &&& in_unload ==> !s.release
            &&& in_unload && built ==> after
            &&& in_load && count < budget ==> after
            &&& s.visible == Some(true) ==> after && in_view
        }),
{
}

/// The chunks whose flag is set among the first `k` entries of `flags`, as
/// (cx, cy) coordinates on a map `chunks_x` chunks wide, in index order.
pub open spec fn dirty_coords(flags: Seq<bool>, chunks_x: int, k: int) -> Seq<(u32, u32)>
    decreases k,
{
    if k <= 0 {
        Seq::empty()
    } else {
        let prev = dirty_coords(flags, chunks_x, k - 1);
        if flags[k - 1] {
            prev.push((((k - 1) % chunks_x) as u32, ((k - 1) / chunks_x) as u32))
        } else {
            prev
        }
    }
}

/// Reads and clears every chunk's dirty flag and returns the chunks that were
/// dirty, row by row.
pub fn collect_dirty_chunks(map_data: &mut MapData) -> (dirty: Vec<(u32, u32)>)
    requires
        old(map_data).wf(),
    ensures
        final(map_data).wf(),
        old(map_data).same_shape(&*final(map_data)),
        final(map_data).tiles_view() == old(map_data).tiles_view(),
        final(map_data).macro_dirty_chunks@ == old(map_data).macro_dirty_chunks@,
        final(map_data).dirty_chunks@ == Seq::new(old(map_data).dirty_chunks@.len(), |i: int| false),
        dirty@ == dirty_coords(
            old(map_data).dirty_chunks@,
            old(map_data).chunks_x as int,
            old(map_data).dirty_chunks@.len() as int,
        ),
{
    let ghost m0 = *map_data;
    let ghost cxn = m0.chunks_x as int;
    let ghost cyn = m0.chunks_y as int;
    let mut dirty: Vec<(u32, u32)> = Vec::new();
    let mut cy: u32 = 0;
    while cy < map_data.chunks_y
        invariant
            cy <= cyn,
            cxn == m0.chunks_x,
            cyn == m0.chunks_y,
            map_data.wf(),
            m0.same_shape(&*map_data),
            map_data.tiles_view() == m0.tiles_view(),
            map_data.macro_dirty_chunks@ == m0.macro_dirty_chunks@,
            map_data.dirty_chunks@.len() == m0.dirty_chunks@.len(),
            forall|j: int|
                0 <= j < m0.dirty_chunks@.len() ==> #[trigger] map_data.dirty_chunks@[j] == (m0.dirty_chunks@[j] && j
                    >= cy * cxn),
            dirty@ == dirty_coords(m0.dirty_chunks@, cxn, cy * cxn),
        decreases cyn - cy,
    {
        let mut cx: u32 = 0;
        while cx < map_data.chunks_x
            invariant
                cy < cyn,
                cx <= cxn,
                cxn == m0.chunks_x,
                cyn == m0.chunks_y,
                map_data.wf(),
                m0.same_shape(&*map_data),
                map_data.tiles_view() == m0.tiles_view(),
                map_data.macro_dirty_chunks@ == m0.macro_dirty_chunks@,
                map_data.dirty_chunks@.len() == m0.dirty_chunks@.len(),
                forall|j: int|
                    0 <= j < m0.dirty_chunks@.len() ==> #[trigger] map_data.dirty_chunks@[j] == (m0.dirty_chunks@[j]
                        && j >= cy * cxn + cx),
                dirty@ == dirty_coords(m0.dirty_chunks@, cxn, cy * cxn + cx),
            decreases cxn - cx,
        {
            let ghost k = cy * cxn + cx;
            proof {
                lemma_cell_index(cxn, cyn, cy as int, cx as int);
                lemma_cell_coords(cxn, cy as int, cx as int);
            }
            let was = map_data.take_chunk_dirty(cx, cy);
            if was {
                dirty.push((cx, cy));
            }
            proof {
                assert(map_data.chunk_index(cx as int, cy as int) == k);
                assert(was == m0.dirty_chunks@[k]);
                assert(dirty_coords(m0.dirty_chunks@, cxn, k + 1) == (if m0.dirty_chunks@[k] {
                    dirty_coords(m0.dirty_chunks@, cxn, k).push(((k % cxn) as u32, (k / cxn) as u32))
                } else {
                    dirty_coords(m0.dirty_chunks@, cxn, k)
                }));
            }
            cx = cx + 1;
        }
        proof {
            assert(cy * cxn + cxn == (cy + 1) * cxn) by (nonlinear_arith);
        }
        cy = cy + 1;
    }
    proof {
        assert(cyn * cxn == m0.dirty_chunks@.len()) by (nonlinear_arith)
            requires
                m0.dirty_chunks@.len() == cxn * cyn,
        ;
        assert(map_data.dirty_chunks@ =~= Seq::new(m0.dirty_chunks@.len(), |i: int| false));
    }
    dirty
}

/// Every set flag below `k` is listed by `dirty_coords`, at its chunk coordinates.
proof fn lemma_dirty_coords_lists(flags: Seq<bool>, chunks_x: int, k: int, j: int)
    requires
        0 <= j < k <= flags.len(),
        flags[j],
    ensures
        dirty_coords(flags, chunks_x, k).contains((((j % chunks_x) as u32), ((j / chunks_x) as u32))),
    decreases k,
{
    let c = (((j % chunks_x) as u32), ((j / chunks_x) as u32));
    if j == k - 1 {
        let prev = dirty_coords(flags, chunks_x, k - 1);
        assert(dirty_coords(flags, chunks_x, k) == prev.push(c));
        assert(prev.push(c)[prev.len() as int] == c);
    } else {
        lemma_dirty_coords_lists(flags, chunks_x, k - 1, j);
        let prev = dirty_coords(flags, chunks_x, k - 1);
        let i = choose|i: int| 0 <= i < prev.len() && prev[i] == c;
        if flags[k - 1] {
            assert(dirty_coords(flags, chunks_x, k)[i] == c);
        }
    }
}

/// A painted tile gets redrawn: after `set_tile` changes cell (x, y), the next
/// collection of dirty chunks lists the chunk holding that cell.
pub proof fn law_changed_tile_is_redrawn(m: MapData, next: MapData, x: int, y: int, t: crate::tile::TileType)
    requires
        m.wf(),
        m.in_bounds(x, y),
        m.set_tile_post(&next, x, y, t, true),
    ensures
        dirty_coords(next.dirty_chunks@, next.chunks_x as int, next.dirty_chunks@.len() as int).contains(
            (((x / m.chunk_size as int) as u32), ((y / m.chunk_size as int) as u32)),
        ),
{
    let cs = m.chunk_size as int;
    let cx = x / cs;
    let cy = y / cs;
    crate::arith::lemma_div_below(x, m.chunks_x as int, cs);
    crate::arith::lemma_div_below(y, m.chunks_y as int, cs);
    lemma_cell_index(m.chunks_x as int, m.chunks_y as int, cy, cx);
    lemma_cell_coords(m.chunks_x as int, cy, cx);
    let j = m.chunk_index(cx, cy);
    assert(m.dirtied_by(x, y, j));
    assert(next.dirty_chunks@[j]);
    lemma_dirty_coords_lists(next.dirty_chunks@, next.chunks_x as int, next.dirty_chunks@.len() as int, j);
}

/// Which chunk a chunk sprite shows.
#[derive(Clone, Copy, Debug)]
pub struct ChunkCoord {
    pub cx: u32,
    pub cy: u32,
}

impl ChunkCoord {
    /// Index of the chunk in per-chunk vectors of a map `chunks_x` chunks wide.
    pub fn flat_index(&self, chunks_x: u32) -> (r: usize)
        requires
            self.cy * chunks_x + self.cx <= u32::MAX,
        ensures
            r == self.cy * chunks_x + self.cx,
    {
        proof {
            assert(0 <= self.cy * chunks_x) by (nonlinear_arith);
        }
        (self.cy * chunks_x + self.cx) as usize
    }
}

} // verus!

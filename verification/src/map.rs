use vstd::prelude::*;

use crate::arith::{lemma_cell_index, lemma_div_below, lemma_index_split};
use crate::tile::TileType;

verus! {

/// The full tile map: its dimensions, one tile type per cell (row-major,
/// index `y * width + x`), and two sets of per-chunk dirty flags.
pub struct MapData {
    /// Size of one tile in pixels.
    pub tile_size: u32,
    /// Number of tiles per chunk side.
    pub chunk_size: u32,
    /// Tile types, row-major (index `y * width + x`).
    pub tiles: Vec<TileType>,
    /// Map dimensions in tiles.
    pub width: u32,
    pub height: u32,
    /// Map dimensions in chunks.
    pub chunks_x: u32,
    pub chunks_y: u32,
    /// Per-chunk dirty flag: set when any tile inside (or on a border next to it) changes.
    pub dirty_chunks: Vec<bool>,
    /// Separate dirty flags for the macro map, set only for the chunk holding the tile.
    pub macro_dirty_chunks: Vec<bool>,
}

impl MapData {
    /// The tiles, row-major.
    pub open spec fn tiles_view(&self) -> Seq<TileType> {
        self.tiles@
    }

    /// Map width in tiles.
    pub open spec fn width_spec(&self) -> int {
        self.width as int
    }

    /// Map height in tiles.
    pub open spec fn height_spec(&self) -> int {
        self.height as int
    }

    /// The dimensions agree with each other and every index fits in a `u32`.
    pub open spec fn wf(&self) -> bool {
        &&& self.chunk_size > 0
        &&& self.width_spec() == self.chunks_x * self.chunk_size
        &&& self.height_spec() == self.chunks_y * self.chunk_size
        &&& self.width_spec() * self.height_spec() <= u32::MAX
        &&& self.chunks_x * self.chunks_y <= u32::MAX
        &&& self.tiles_view().len() == self.width_spec() * self.height_spec()
        &&& self.dirty_chunks@.len() == self.chunks_x * self.chunks_y
        &&& self.macro_dirty_chunks@.len() == self.chunks_x * self.chunks_y
    }

    /// Whether (x, y) is a cell of the map.
    pub open spec fn in_bounds(&self, x: int, y: int) -> bool {
        0 <= x < self.width_spec() && 0 <= y < self.height_spec()
    }

    /// Whether (cx, cy) is a chunk of the map.
    pub open spec fn chunk_in_bounds(&self, cx: int, cy: int) -> bool {
        0 <= cx < self.chunks_x && 0 <= cy < self.chunks_y
    }

    /// Index of cell (x, y) in the tile sequence.
    pub open spec fn cell_index(&self, x: int, y: int) -> int {
        y * self.width_spec() + x
    }

    /// The tile at (x, y).
    pub open spec fn tile_at(&self, x: int, y: int) -> TileType {
        self.tiles_view()[self.cell_index(x, y)]
    }

    /// Index of chunk (cx, cy) in the dirty-flag vectors.
    pub open spec fn chunk_index(&self, cx: int, cy: int) -> int {
        cy * self.chunks_x + cx
    }

    /// Index of the chunk holding cell (x, y).
    pub open spec fn chunk_index_of_cell(&self, x: int, y: int) -> int {
        self.chunk_index(x / self.chunk_size as int, y / self.chunk_size as int)
    }

    /// Whether changing cell (x, y) marks chunk index `j` dirty: the chunk that holds
    /// the cell, and each neighbouring chunk across a chunk border that the cell touches.
    pub open spec fn dirtied_by(&self, x: int, y: int, j: int) -> bool {
        let cs = self.chunk_size as int;
        let cx = x / cs;
        let cy = y / cs;
        let lx = x % cs;
        let ly = y % cs;
        ||| j == self.chunk_index(cx, cy)
        ||| (lx == 0 && cx > 0 && j == self.chunk_index(cx - 1, cy))
        ||| (lx == cs - 1 && cx + 1 < self.chunks_x && j == self.chunk_index(cx + 1, cy))
        ||| (ly == 0 && cy > 0 && j == self.chunk_index(cx, cy - 1))
        ||| (ly == cs - 1 && cy + 1 < self.chunks_y && j == self.chunk_index(cx, cy + 1))
    }

    /// Dimensions, tile size and chunk layout of `other` equal those of `self`.
    pub open spec fn same_shape(&self, other: &MapData) -> bool {
        &&& other.tile_size == self.tile_size
        &&& other.chunk_size == self.chunk_size
        &&& other.width_spec() == self.width_spec()
        &&& other.height_spec() == self.height_spec()
        &&& other.chunks_x == self.chunks_x
        &&& other.chunks_y == self.chunks_y
    }

    /// `next` is the map after `set_tile(x, y, t)` on `self`, which returned `changed`.
    pub open spec fn set_tile_post(&self, next: &MapData, x: int, y: int, t: TileType, changed: bool) -> bool {
        &&& next.wf()
        &&& self.same_shape(next)
        &&& changed == (self.tile_at(x, y) != t)
        &&& next.tiles_view() == self.tiles_view().update(self.cell_index(x, y), t)
        &&& next.macro_dirty_chunks@ == (if changed {
            self.macro_dirty_chunks@.update(self.chunk_index_of_cell(x, y), true)
        } else {
            self.macro_dirty_chunks@
        })
        &&& next.dirty_chunks@.len() == self.dirty_chunks@.len()
        &&& forall|j: int|
            0 <= j < self.dirty_chunks@.len() ==> #[trigger] next.dirty_chunks@[j] == (
            self.dirty_chunks@[j] || (changed && self.dirtied_by(x, y, j)))
    }

    /// Builds a map from its chunk layout and its tiles (row-major). Returns `None`
    /// when the chunk size is 0, when the number of tiles is not
    /// `(chunks_x * chunk_size) * (chunks_y * chunk_size)`, or when a dimension,
    /// the number of tiles or the number of chunks does not fit in a `u32`.
    /// All dirty flags start cleared.
    pub fn new(tile_size: u32, chunk_size: u32, chunks_x: u32, chunks_y: u32, tiles: Vec<TileType>) -> (r: Option<MapData>)
        ensures
            r is Some <==> (chunk_size > 0 && chunks_x * chunk_size <= u32::MAX && chunks_y * chunk_size
                <= u32::MAX && (chunks_x * chunk_size) * (chunks_y * chunk_size) <= u32::MAX
                && chunks_x * chunks_y <= u32::MAX && tiles@.len() == (chunks_x * chunk_size) * (
            chunks_y * chunk_size)),
            r matches Some(m) ==> {
                &&& m.wf()
                &&& m.tile_size == tile_size
                &&& m.chunk_size == chunk_size
                &&& m.chunks_x == chunks_x
                &&& m.chunks_y == chunks_y
                &&& m.width_spec() == chunks_x * chunk_size
                &&& m.height_spec() == chunks_y * chunk_size
                &&& m.tiles_view() == tiles@
                &&& forall|j: int| 0 <= j < m.dirty_chunks@.len() ==> !#[trigger] m.dirty_chunks@[j]
                &&& forall|j: int|
                    0 <= j < m.macro_dirty_chunks@.len() ==> !#[trigger] m.macro_dirty_chunks@[j]
            },
    {
        if chunk_size == 0 {
            return None;
        }
        let width = match chunks_x.checked_mul(chunk_size) {
            Some(v) => v,
            None => return None,
        };
        let height = match chunks_y.checked_mul(chunk_size) {
            Some(v) => v,
            None => return None,
        };
        let n = match width.checked_mul(height) {
            Some(v) => v,
            None => return None,
        };
        let nchunks = match chunks_x.checked_mul(chunks_y) {
            Some(v) => v,
            None => return None,
        };
        if tiles.len() != n as usize {
            return None;
        }
        let mut dirty: Vec<bool> = Vec::new();
        let mut i: u32 = 0;
        while i < nchunks
            invariant
                i <= nchunks,
                dirty@.len() == i,
                forall|j: int| 0 <= j < i ==> !#[trigger] dirty@[j],
            decreases nchunks - i,
        {
            dirty.push(false);
            i = i + 1;
        }
        let macro_dirty = dirty.clone();
        proof {
            assert(macro_dirty@ =~= dirty@);
        }
        Some(MapData {
            tile_size,
            chunk_size,
            tiles,
            width,
            height,
            chunks_x,
            chunks_y,
            dirty_chunks: dirty,
            macro_dirty_chunks: macro_dirty,
        })
    }

    /// Returns the map width in tiles.
    pub fn width_tiles(&self) -> (r: u32)
        ensures
            r == self.width_spec(),
    {
        self.width
    }

    /// Returns the map height in tiles.
    pub fn height_tiles(&self) -> (r: u32)
        ensures
            r == self.height_spec(),
    {
        self.height
    }

    /// Returns the tile type at the given tile coordinates.
    pub fn get_tile(&self, x: u32, y: u32) -> (r: TileType)
        requires
            self.wf(),
            self.in_bounds(x as int, y as int),
        ensures
            r == self.tile_at(x as int, y as int),
    {
        proof {
            lemma_cell_index(self.width as int, self.height as int, y as int, x as int);
        }
        self.tiles[(y * self.width + x) as usize]
    }

    /// Sets a tile and, when its type changes, marks the containing chunk dirty in
    /// both flag sets, and marks dirty (standard flags only) each neighbouring chunk
    /// across a border the tile sits on. Returns whether the type changed; when it
    /// did not, nothing is modified.
    pub fn set_tile(&mut self, x: u32, y: u32, tile_type: TileType) -> (changed: bool)
        requires
            old(self).wf(),
            old(self).in_bounds(x as int, y as int),
        ensures
            old(self).set_tile_post(&*final(self), x as int, y as int, tile_type, changed),
    {
        proof {
            lemma_cell_index(self.width as int, self.height as int, y as int, x as int);
        }
        let idx = (y * self.width + x) as usize;
        if self.tiles[idx] == tile_type {
            proof {
                assert(self.tiles@ =~= old(self).tiles@.update(idx as int, tile_type));
            }
            return false;
        }
        self.tiles.set(idx, tile_type);
        let cs = self.chunk_size;
        let cx = x / cs;
        let cy = y / cs;
        proof {
            lemma_div_below(x as int, self.chunks_x as int, cs as int);
            lemma_div_below(y as int, self.chunks_y as int, cs as int);
            lemma_cell_index(self.chunks_x as int, self.chunks_y as int, cy as int, cx as int);
        }
        let cxn = self.chunks_x;
        let ci = (cy * cxn + cx) as usize;
        self.dirty_chunks.set(ci, true);
        self.macro_dirty_chunks.set(ci, true);
        let ghost after_own = self.dirty_chunks@;
        let lx = x % cs;
        let ly = y % cs;
        let ghost mut marked: Set<int> = set![ci as int];
        if lx == 0 && cx > 0 {
            self.dirty_chunks.set((cy * cxn + (cx - 1)) as usize, true);
            proof {
                marked = marked.insert(cy * cxn + (cx - 1));
            }
        }
        if lx == cs - 1 && cx + 1 < cxn {
            proof {
                lemma_cell_index(self.chunks_x as int, self.chunks_y as int, cy as int, cx + 1);
            }
            self.dirty_chunks.set((cy * cxn + (cx + 1)) as usize, true);
            proof {
                marked = marked.insert(cy * cxn + (cx + 1));
            }
        }
        if ly == 0 && cy > 0 {
            proof {
                lemma_cell_index(self.chunks_x as int, self.chunks_y as int, cy - 1, cx as int);
            }
            self.dirty_chunks.set(((cy - 1) * cxn + cx) as usize, true);
            proof {
                marked = marked.insert((cy - 1) * cxn + cx);
            }
        }
        if ly == cs - 1 && cy + 1 < self.chunks_y {
            proof {
                lemma_cell_index(self.chunks_x as int, self.chunks_y as int, cy + 1, cx as int);
            }
            self.dirty_chunks.set(((cy + 1) * cxn + cx) as usize, true);
            proof {
                marked = marked.insert((cy + 1) * cxn + cx);
            }
        }
        proof {
            assert forall|j: int| 0 <= j < old(self).dirty_chunks@.len() implies #[trigger] self.dirty_chunks@[j] == (
            old(self).dirty_chunks@[j] || old(self).dirtied_by(x as int, y as int, j)) by {
                assert(marked.contains(j) <==> old(self).dirtied_by(x as int, y as int, j));
            }
        }
        true
    }

    /// Reads and clears the dirty flag of chunk (cx, cy). Returns whether it was dirty.
    pub fn take_chunk_dirty(&mut self, cx: u32, cy: u32) -> (was: bool)
        requires
            old(self).wf(),
            old(self).chunk_in_bounds(cx as int, cy as int),
        ensures
            final(self).wf(),
            old(self).same_shape(&*final(self)),
            final(self).tiles_view() == old(self).tiles_view(),
            was == old(self).dirty_chunks@[old(self).chunk_index(cx as int, cy as int)],
            final(self).dirty_chunks@ == old(self).dirty_chunks@.update(
                old(self).chunk_index(cx as int, cy as int),
                false,
            ),
            final(self).macro_dirty_chunks@ == old(self).macro_dirty_chunks@,
    {
        proof {
            lemma_cell_index(self.chunks_x as int, self.chunks_y as int, cy as int, cx as int);
        }
        let idx = (cy * self.chunks_x + cx) as usize;
        let was = self.dirty_chunks[idx];
        self.dirty_chunks.set(idx, false);
        was
    }

    /// Reads and clears the macro dirty flag of chunk (cx, cy). Returns whether it was dirty.
    pub fn take_macro_chunk_dirty(&mut self, cx: u32, cy: u32) -> (was: bool)
        requires
            old(self).wf(),
            old(self).chunk_in_bounds(cx as int, cy as int),
        ensures
            final(self).wf(),
            old(self).same_shape(&*final(self)),
            final(self).tiles_view() == old(self).tiles_view(),
            was == old(self).macro_dirty_chunks@[old(self).chunk_index(cx as int, cy as int)],
            final(self).macro_dirty_chunks@ == old(self).macro_dirty_chunks@.update(
                old(self).chunk_index(cx as int, cy as int),
                false,
            ),
            final(self).dirty_chunks@ == old(self).dirty_chunks@,
    {
        proof {
            lemma_cell_index(self.chunks_x as int, self.chunks_y as int, cy as int, cx as int);
        }
        let idx = (cy * self.chunks_x + cx) as usize;
        let was = self.macro_dirty_chunks[idx];
        self.macro_dirty_chunks.set(idx, false);
        was
    }
}

/// Reading back a written tile gives the written type, and every other cell keeps its type.
pub proof fn law_set_tile_read_back(m: MapData, next: MapData, x: int, y: int, t: TileType, changed: bool, x2: int, y2: int)
    requires
        m.wf(),
        m.in_bounds(x, y),
        m.in_bounds(x2, y2),
        m.set_tile_post(&next, x, y, t, changed),
    ensures
        next.tile_at(x, y) == t,
        (x2 != x || y2 != y) ==> next.tile_at(x2, y2) == m.tile_at(x2, y2),
{
    lemma_cell_index(m.width_spec(), m.height_spec(), y, x);
    lemma_cell_index(m.width_spec(), m.height_spec(), y2, x2);
    if x2 != x || y2 != y {
        crate::arith::lemma_cell_coords(m.width_spec(), y, x);
        crate::arith::lemma_cell_coords(m.width_spec(), y2, x2);
    }
}

/// Writing the same tile type twice in a row: the second write reports no change and
/// leaves the map exactly as the first write left it.
pub proof fn law_set_tile_idempotent(
    m: MapData,
    m1: MapData,
    m2: MapData,
    x: int,
    y: int,
    t: TileType,
    c1: bool,
    c2: bool,
)
    requires
        m.wf(),
        m.in_bounds(x, y),
        m.set_tile_post(&m1, x, y, t, c1),
        m1.set_tile_post(&m2, x, y, t, c2),
    ensures
        !c2,
        m2.tiles_view() == m1.tiles_view(),
        m2.dirty_chunks@ == m1.dirty_chunks@,
        m2.macro_dirty_chunks@ == m1.macro_dirty_chunks@,
{
    law_set_tile_read_back(m, m1, x, y, t, c1, x, y);
    lemma_cell_index(m.width_spec(), m.height_spec(), y, x);
    assert(m2.tiles_view() =~= m1.tiles_view());
    assert(m2.dirty_chunks@ =~= m1.dirty_chunks@);
}

/// A write that changes a tile leaves the chunk holding it dirty in both flag sets,
/// and no write ever clears a flag.
pub proof fn law_set_tile_marks_chunk(m: MapData, next: MapData, x: int, y: int, t: TileType, changed: bool)
    requires
        m.wf(),
        m.in_bounds(x, y),
        m.set_tile_post(&next, x, y, t, changed),
    ensures
        0 <= m.chunk_index_of_cell(x, y) < m.dirty_chunks@.len(),
        changed ==> next.dirty_chunks@[m.chunk_index_of_cell(x, y)],
        changed ==> next.macro_dirty_chunks@[m.chunk_index_of_cell(x, y)],
        forall|j: int| 0 <= j < m.dirty_chunks@.len() && m.dirty_chunks@[j] ==> #[trigger] next.dirty_chunks@[j],
        forall|j: int|
            0 <= j < m.macro_dirty_chunks@.len() && m.macro_dirty_chunks@[j]
                ==> #[trigger] next.macro_dirty_chunks@[j],
{
    let cs = m.chunk_size as int;
    lemma_div_below(x, m.chunks_x as int, cs);
    lemma_div_below(y, m.chunks_y as int, cs);
    lemma_cell_index(m.chunks_x as int, m.chunks_y as int, y / cs, x / cs);
}

/// (nx, ny) is one of the four cells that share a side with (x, y).
pub open spec fn is_side_neighbour(x: int, y: int, nx: int, ny: int) -> bool {
    ||| (nx == x - 1 && ny == y)
    ||| (nx == x + 1 && ny == y)
    ||| (nx == x && ny == y - 1)
    ||| (nx == x && ny == y + 1)
}

/// Stepping one cell along an axis of `n` chunks of `cs` cells moves to the next
/// chunk exactly when the cell lies on that side's chunk border.
proof fn lemma_axis_step(v: int, n: int, cs: int)
    requires
        0 < cs,
        0 <= v < n * cs,
    ensures
        0 <= v / cs < n,
        0 <= v % cs < cs,
        v > 0 ==> (v - 1) / cs == (if v % cs == 0 { v / cs - 1 } else { v / cs }),
        v > 0 && v % cs == 0 ==> v / cs > 0,
        v % cs == 0 && v / cs > 0 ==> v > 0,
        v + 1 < n * cs ==> (v + 1) / cs == (if v % cs == cs - 1 { v / cs + 1 } else { v / cs }),
        v % cs == cs - 1 && v / cs + 1 < n ==> v + 1 < n * cs,
        v % cs == cs - 1 && v + 1 < n * cs ==> v / cs + 1 < n,
{
    let c = v / cs;
    let l = v % cs;
    assert(cs * n == n * cs) by (nonlinear_arith);
    lemma_index_split(cs, n, v);
    if v > 0 {
        if l == 0 {
            assert(c > 0) by (nonlinear_arith)
                requires
                    v == c * cs + l,
                    l == 0,
                    v > 0,
                    cs > 0,
            ;
            assert(v - 1 == (c - 1) * cs + (cs - 1)) by (nonlinear_arith)
                requires
                    v == c * cs + l,
                    l == 0,
            ;
            crate::arith::lemma_cell_coords(cs, c - 1, cs - 1);
        } else {
            crate::arith::lemma_cell_coords(cs, c, l - 1);
        }
    }
    if l == cs - 1 {
        assert(v + 1 == (c + 1) * cs + 0) by (nonlinear_arith)
            requires
                v == c * cs + l,
                l == cs - 1,
        ;
        crate::arith::lemma_cell_coords(cs, c + 1, 0);
        if c + 1 < n {
            assert((c + 1) * cs + cs <= n * cs) by (nonlinear_arith)
                requires
                    c + 1 < n,
                    cs > 0,
            ;
        }
        if v + 1 < n * cs {
            assert(c + 1 < n) by (nonlinear_arith)
                requires
                    v + 1 == (c + 1) * cs,
                    v + 1 < n * cs,
                    cs > 0,
            ;
        }
    } else if v + 1 < n * cs {
        crate::arith::lemma_cell_coords(cs, c, l + 1);
    }
    if l == 0 && c > 0 {
        assert(v > 0) by (nonlinear_arith)
            requires
                v == c * cs + l,
                l == 0,
                c > 0,
                cs > 0,
        ;
    }
}

/// A tile change redraws every chunk whose texture can show it, and no other: after
/// a `set_tile` that changed cell (x, y), the chunk holding the cell and the chunk
/// holding each of its side neighbours on the map are dirty (a neighbour's edge
/// overlays depend on the cell), and every chunk that became dirty holds the cell or
/// one of those neighbours. A write that changed nothing dirties nothing.
pub proof fn law_set_tile_dirties_neighbour_chunks(m: MapData, next: MapData, x: int, y: int, t: TileType, changed: bool)
    requires
        m.wf(),
        m.in_bounds(x, y),
        m.set_tile_post(&next, x, y, t, changed),
    ensures
        changed ==> next.dirty_chunks@[m.chunk_index_of_cell(x, y)],
        forall|nx: int, ny: int|
            changed && m.in_bounds(nx, ny) && is_side_neighbour(x, y, nx, ny) ==> 0 <= m.chunk_index_of_cell(nx, ny)
                < next.dirty_chunks@.len() && next.dirty_chunks@[#[trigger] m.chunk_index_of_cell(nx, ny)],
        forall|j: int|
            0 <= j < m.dirty_chunks@.len() && #[trigger] next.dirty_chunks@[j] && !m.dirty_chunks@[j] ==> changed && (j
                == m.chunk_index_of_cell(x, y) || exists|nx: int, ny: int|
                m.in_bounds(nx, ny) && is_side_neighbour(x, y, nx, ny) && j == #[trigger] m.chunk_index_of_cell(nx, ny)),
{
    let cs = m.chunk_size as int;
    let w = m.chunks_x as int;
    let h = m.chunks_y as int;
    lemma_axis_step(x, w, cs);
    lemma_axis_step(y, h, cs);
    let cx = x / cs;
    let cy = y / cs;
    lemma_cell_index(w, h, cy, cx);
    assert forall|nx: int, ny: int|
        changed && m.in_bounds(nx, ny) && is_side_neighbour(x, y, nx, ny) implies 0 <= m.chunk_index_of_cell(nx, ny)
            < next.dirty_chunks@.len() && next.dirty_chunks@[#[trigger] m.chunk_index_of_cell(nx, ny)] by {
        lemma_axis_step(nx, w, cs);
        lemma_axis_step(ny, h, cs);
        lemma_cell_index(w, h, ny / cs, nx / cs);
        assert(m.dirtied_by(x, y, m.chunk_index_of_cell(nx, ny)));
    }
    assert forall|j: int|
        0 <= j < m.dirty_chunks@.len() && #[trigger] next.dirty_chunks@[j] && !m.dirty_chunks@[j] implies changed && (j
            == m.chunk_index_of_cell(x, y) || exists|nx: int, ny: int|
            m.in_bounds(nx, ny) && is_side_neighbour(x, y, nx, ny) && j == #[trigger] m.chunk_index_of_cell(nx, ny)) by {
        assert(changed && m.dirtied_by(x, y, j));
        let lx = x % cs;
        let ly = y % cs;
        if j == m.chunk_index(cx, cy) {
        } else if lx == 0 && cx > 0 && j == m.chunk_index(cx - 1, cy) {
            assert(m.in_bounds(x - 1, y) && is_side_neighbour(x, y, x - 1, y) && j == m.chunk_index_of_cell(x - 1, y));
        } else if lx == cs - 1 && cx + 1 < w && j == m.chunk_index(cx + 1, cy) {
            assert(m.in_bounds(x + 1, y) && is_side_neighbour(x, y, x + 1, y) && j == m.chunk_index_of_cell(x + 1, y));
        } else if ly == 0 && cy > 0 && j == m.chunk_index(cx, cy - 1) {
            assert(m.in_bounds(x, y - 1) && is_side_neighbour(x, y, x, y - 1) && j == m.chunk_index_of_cell(x, y - 1));
        } else {
            assert(m.in_bounds(x, y + 1) && is_side_neighbour(x, y, x, y + 1) && j == m.chunk_index_of_cell(x, y + 1));
        }
    }
}

/// Taking a chunk's dirty flag twice: the second take reports clean.
pub proof fn law_take_chunk_dirty_twice(m: MapData, m1: MapData, cx: int, cy: int)
    requires
        m.wf(),
        m.chunk_in_bounds(cx, cy),
        m1.dirty_chunks@ == m.dirty_chunks@.update(m.chunk_index(cx, cy), false),
        m1.chunks_x == m.chunks_x,
    ensures
        !m1.dirty_chunks@[m1.chunk_index(cx, cy)],
{
    lemma_cell_index(m.chunks_x as int, m.chunks_y as int, cy, cx);
}

/// Each state of `states` is the one before it after `set_tile` with the matching
/// entry of `edits` (x, y, type, whether it changed).
pub open spec fn set_tile_run(states: Seq<MapData>, edits: Seq<(int, int, TileType, bool)>) -> bool {
    &&& states.len() == edits.len() + 1
    &&& forall|i: int|
        0 <= i < edits.len() ==> {
            &&& #[trigger] states[i].wf()
            &&& states[i].in_bounds(edits[i].0, edits[i].1)
            &&& states[i].set_tile_post(&states[i + 1], edits[i].0, edits[i].1, edits[i].2, edits[i].3)
        }
}

/// Along a run of `set_tile` calls the chunk layout stays, and a dirty flag once set
/// stays set.
proof fn lemma_run_keeps_flag(states: Seq<MapData>, edits: Seq<(int, int, TileType, bool)>, from: int, to: int, j: int)
    requires
        set_tile_run(states, edits),
        0 <= from <= to < states.len(),
        states[from].wf(),
        0 <= j < states[from].dirty_chunks@.len(),
        states[from].dirty_chunks@[j],
    ensures
        states[from].same_shape(&states[to]),
        states[to].wf(),
        states[to].dirty_chunks@.len() == states[from].dirty_chunks@.len(),
        states[to].dirty_chunks@[j],
    decreases to - from,
{
    if from < to {
        assert(states[from].wf());
        let next = states[from + 1];
        assert(states[from].set_tile_post(&next, edits[from].0, edits[from].1, edits[from].2, edits[from].3));
        assert(next.dirty_chunks@[j]);
        lemma_run_keeps_flag(states, edits, from + 1, to, j);
    }
}

/// A painted chunk stays marked for redraw until its flag is taken: when some
/// `set_tile` of a run changed a tile of chunk (cx, cy), that chunk's dirty flag is
/// set at the end of the run, so `take_chunk_dirty` then returns true.
pub proof fn law_dirty_until_taken(
    states: Seq<MapData>,
    edits: Seq<(int, int, TileType, bool)>,
    k: int,
    cx: int,
    cy: int,
)
    requires
        set_tile_run(states, edits),
        0 <= k < edits.len(),
        edits[k].3,
        edits[k].0 / (states[0].chunk_size as int) == cx,
        edits[k].1 / (states[0].chunk_size as int) == cy,
        states[0].wf(),
    ensures
        states.last().dirty_chunks@[states[0].chunk_index(cx, cy)],
        states[0].chunk_in_bounds(cx, cy),
{
    let m0 = states[0];
    let mk = states[k];
    assert(mk.wf());
    assert(mk.in_bounds(edits[k].0, edits[k].1));
    if k > 0 {
        // The layout up to edit k is that of the first state.
        lemma_run_shape(states, edits, 0, k);
    }
    let next = states[k + 1];
    assert(mk.set_tile_post(&next, edits[k].0, edits[k].1, edits[k].2, edits[k].3));
    let j = mk.chunk_index(cx, cy);
    lemma_div_below(edits[k].0, mk.chunks_x as int, mk.chunk_size as int);
    lemma_div_below(edits[k].1, mk.chunks_y as int, mk.chunk_size as int);
    lemma_cell_index(mk.chunks_x as int, mk.chunks_y as int, cy, cx);
    assert(mk.dirtied_by(edits[k].0, edits[k].1, j));
    assert(next.dirty_chunks@[j]);
    lemma_run_keeps_flag(states, edits, k + 1, states.len() - 1, j);
}

/// Along a run of `set_tile` calls the chunk layout stays.
proof fn lemma_run_shape(states: Seq<MapData>, edits: Seq<(int, int, TileType, bool)>, from: int, to: int)
    requires
        set_tile_run(states, edits),
        0 <= from <= to < states.len(),
        states[from].wf(),
    ensures
        states[from].same_shape(&states[to]),
        states[to].wf(),
    decreases to - from,
{
    if from < to {
        assert(states[from].wf());
        lemma_run_shape(states, edits, from + 1, to);
    }
}

} // verus!

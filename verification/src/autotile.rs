use vstd::prelude::*;

use crate::map::MapData;
use crate::tile::{TileDefinition, TileRegistry, TileType};

verus! {

/// Tile-coordinate offset of cardinal direction `dir` (0 = N, 1 = E, 2 = S, 3 = W).
pub open spec fn cardinal_offset_spec(dir: int) -> (int, int) {
    if dir == 0 {
        (0, 1)
    } else if dir == 1 {
        (1, 0)
    } else if dir == 2 {
        (0, -1)
    } else {
        (-1, 0)
    }
}

/// Bitmask value of cardinal direction `dir` (N = 1, E = 2, S = 4, W = 8).
pub open spec fn cardinal_bit_spec(dir: int) -> u8 {
    if dir == 0 {
        1
    } else if dir == 1 {
        2
    } else if dir == 2 {
        4
    } else {
        8
    }
}

/// Tile-coordinate offset of cardinal direction `dir` (0 = N, 1 = E, 2 = S, 3 = W).
pub fn cardinal_offset(dir: usize) -> (r: (i32, i32))
    requires
        dir < 4,
    ensures
        r.0 == cardinal_offset_spec(dir as int).0,
        r.1 == cardinal_offset_spec(dir as int).1,
{
    if dir == 0 {
        (0, 1)
    } else if dir == 1 {
        (1, 0)
    } else if dir == 2 {
        (0, -1)
    } else {
        (-1, 0)
    }
}

/// Render priority of a tile type in a registry; types without a definition count as 0.
pub open spec fn priority_of(reg: Map<TileType, TileDefinition>, t: TileType) -> u8 {
    if reg.contains_key(t) {
        reg[t].priority
    } else {
        0
    }
}

/// The template row to overlay on tile (gx, gy) from its neighbour in direction `dir`:
/// present when the centre type is registered, the neighbour lies on the map, has a
/// different, registered type, and a strictly higher render priority.
pub open spec fn overlay_for_dir(map: MapData, reg: Map<TileType, TileDefinition>, gx: int, gy: int, dir: int) -> Option<usize> {
    let center = map.tile_at(gx, gy);
    let nx = gx + cardinal_offset_spec(dir).0;
    let ny = gy + cardinal_offset_spec(dir).1;
    if !reg.contains_key(center) || !map.in_bounds(nx, ny) {
        None
    } else {
        let nt = map.tile_at(nx, ny);
        if nt == center || priority_of(reg, nt) <= reg[center].priority || !reg.contains_key(nt) {
            None
        } else {
            Some(reg[nt].template_idx)
        }
    }
}

/// For a tile at (gx, gy), returns the template row of a higher-priority neighbour in
/// the given cardinal direction whose edge is drawn over this tile, or `None` when no
/// overlay is needed.
pub fn compute_overlay_for_dir(gx: u32, gy: u32, dir: usize, map_data: &MapData, tile_registry: &TileRegistry) -> (r: Option<usize>)
    requires
        map_data.wf(),
        map_data.in_bounds(gx as int, gy as int),
        dir < 4,
    ensures
        r == overlay_for_dir(*map_data, tile_registry@, gx as int, gy as int, dir as int),
{
    let center_type = map_data.get_tile(gx, gy);
    let center_def = match tile_registry.get(center_type) {
        Some(d) => d,
        None => return None,
    };
    let (dx, dy) = cardinal_offset(dir);
    let nx = gx as i64 + dx as i64;
    let ny = gy as i64 + dy as i64;
    if nx < 0 || ny < 0 || nx >= map_data.width_tiles() as i64 || ny >= map_data.height_tiles() as i64 {
        return None;
    }
    let neighbor_type = map_data.get_tile(nx as u32, ny as u32);
    if neighbor_type == center_type {
        return None;
    }
    let neighbor_priority = match tile_registry.get(neighbor_type) {
        Some(d) => d.priority,
        None => 0,
    };
    if neighbor_priority <= center_def.priority {
        return None;
    }
    match tile_registry.get(neighbor_type) {
        Some(d) => Some(d.template_idx),
        None => None,
    }
}

/// Bitmask value of cardinal direction `dir` (N = 1, E = 2, S = 4, W = 8).
pub fn cardinal_bit(dir: usize) -> (r: u8)
    requires
        dir < 4,
    ensures
        r == cardinal_bit_spec(dir as int),
{
    if dir == 0 {
        1
    } else if dir == 1 {
        2
    } else if dir == 2 {
        4
    } else {
        8
    }
}

/// The neighbour of (x, y) in direction `dir` lies on the map, has type `t`, which
/// differs from `center` and has a render priority above `center_priority`.
pub open spec fn overlays_from(
    map: MapData,
    reg: Map<TileType, TileDefinition>,
    x: int,
    y: int,
    center: TileType,
    center_priority: u8,
    dir: int,
    t: TileType,
) -> bool {
    let nx = x + cardinal_offset_spec(dir).0;
    let ny = y + cardinal_offset_spec(dir).1;
    &&& map.in_bounds(nx, ny)
    &&& map.tile_at(nx, ny) == t
    &&& t != center
    &&& priority_of(reg, t) > center_priority
}

/// Type `t` overlays (x, y) from one of the first `upto` directions.
pub open spec fn overlays_before(
    map: MapData,
    reg: Map<TileType, TileDefinition>,
    x: int,
    y: int,
    center: TileType,
    center_priority: u8,
    t: TileType,
    upto: int,
) -> bool {
    exists|d: int| 0 <= d < upto && #[trigger] overlays_from(map, reg, x, y, center, center_priority, d, t)
}

/// The bits of the directions among the first `upto` from which type `t` overlays.
pub open spec fn overlay_mask(
    map: MapData,
    reg: Map<TileType, TileDefinition>,
    x: int,
    y: int,
    center: TileType,
    center_priority: u8,
    t: TileType,
    upto: int,
) -> u8
    decreases upto,
{
    if upto <= 0 {
        0
    } else {
        let m = overlay_mask(map, reg, x, y, center, center_priority, t, upto - 1);
        if overlays_from(map, reg, x, y, center, center_priority, upto - 1, t) {
            m | cardinal_bit_spec(upto - 1)
        } else {
            m
        }
    }
}

/// `per_type` lists, once each and in order of the first direction they come from,
/// the types that overlay (x, y) from one of the first `upto` directions, each with
/// the bits of those directions.
pub open spec fn overlay_analysis_ok(
    per_type: Seq<(TileType, u8)>,
    map: MapData,
    reg: Map<TileType, TileDefinition>,
    x: int,
    y: int,
    center: TileType,
    center_priority: u8,
    upto: int,
) -> bool {
    &&& forall|a: int, b: int| 0 <= a < b < per_type.len() ==> #[trigger] per_type[a].0 != #[trigger] per_type[b].0
    &&& forall|k: int|
        0 <= k < per_type.len() ==> #[trigger] per_type[k].1 == overlay_mask(
            map,
            reg,
            x,
            y,
            center,
            center_priority,
            per_type[k].0,
            upto,
        )
    &&& forall|k: int|
        0 <= k < per_type.len() ==> #[trigger] overlays_before(map, reg, x, y, center, center_priority, per_type[k].0, upto)
    &&& forall|d: int, t: TileType|
        0 <= d < upto && #[trigger] overlays_from(map, reg, x, y, center, center_priority, d, t) ==> exists|k: int|
            0 <= k < per_type.len() && per_type[k].0 == t
    &&& forall|a: int, b: int, d: int|
        #![trigger per_type[a], overlays_from(map, reg, x, y, center, center_priority, d, per_type[b].0)]
        0 <= a < b < per_type.len() && 0 <= d < upto && overlays_from(
            map,
            reg,
            x,
            y,
            center,
            center_priority,
            d,
            per_type[b].0,
        ) ==> overlays_before(map, reg, x, y, center, center_priority, per_type[a].0, d)
}

/// Which cardinal directions of tile (x, y) have a neighbour of a higher render
/// priority, grouped by the neighbour's type: one `(type, bitmask)` entry per type,
/// in the order in which the types are first met going N, E, S, W.
pub fn analyze_overlay(
    x: u32,
    y: u32,
    center_type: TileType,
    center_priority: u8,
    map_data: &MapData,
    tile_registry: &TileRegistry,
) -> (per_type: Vec<(TileType, u8)>)
    requires
        map_data.wf(),
    ensures
        overlay_analysis_ok(per_type@, *map_data, tile_registry@, x as int, y as int, center_type, center_priority, 4),
{
    let ghost m = *map_data;
    let ghost reg = tile_registry@;
    let mut per_type: Vec<(TileType, u8)> = Vec::new();
    let mut i: usize = 0;
    while i < 4
        invariant
            i <= 4,
            m == *map_data,
            reg == tile_registry@,
            map_data.wf(),
            overlay_analysis_ok(per_type@, m, reg, x as int, y as int, center_type, center_priority, i as int),
        decreases 4 - i,
    {
        let ghost before = per_type@;
        let (dx, dy) = cardinal_offset(i);
        let nx = x as i64 + dx as i64;
        let ny = y as i64 + dy as i64;
        let mut hit: Option<TileType> = None;
        if !(nx < 0 || ny < 0 || nx >= map_data.width_tiles() as i64 || ny >= map_data.height_tiles() as i64) {
            let neighbor_type = map_data.get_tile(nx as u32, ny as u32);
            if neighbor_type != center_type {
                let priority = match tile_registry.get(neighbor_type) {
                    Some(d) => d.priority,
                    None => 0,
                };
                if priority > center_priority {
                    hit = Some(neighbor_type);
                }
            }
        }
        proof {
            assert forall|t: TileType| #[trigger] overlays_from(m, reg, x as int, y as int, center_type, center_priority, i as int, t)
                <==> hit == Some(t) by {}
        }
        match hit {
            Some(t) => {
                let bit = cardinal_bit(i);
                let mut k: usize = 0;
                let mut found = false;
                while k < per_type.len()
                    invariant_except_break
                        !found,
                    invariant
                        k <= per_type@.len(),
                        per_type@ == before,
                        forall|j: int| 0 <= j < k ==> #[trigger] per_type@[j].0 != t,
                    ensures
                        per_type@ == before,
                        found ==> k < per_type@.len() && per_type@[k as int].0 == t,
                        !found ==> forall|j: int| 0 <= j < per_type@.len() ==> #[trigger] per_type@[j].0 != t,
                    decreases per_type@.len() - k,
                {
                    if per_type[k].0 == t {
                        found = true;
                        break;
                    }
                    k = k + 1;
                }
                if found {
                    let old_mask = per_type[k].1;
                    per_type.set(k, (t, old_mask | bit));
                } else {
                    per_type.push((t, bit));
                }
                proof {
                    lemma_analysis_step(before, per_type@, m, reg, x as int, y as int, center_type, center_priority, i as int, Some(t), k as int, found);
                }
            },
            None => {
                proof {
                    lemma_analysis_step(before, per_type@, m, reg, x as int, y as int, center_type, center_priority, i as int, None, 0, false);
                }
            },
        }
        i = i + 1;
    }
    per_type
}

/// Processing direction `i` extends the analysis from the first `i` directions to the
/// first `i + 1`.
proof fn lemma_analysis_step(
    before: Seq<(TileType, u8)>,
    after: Seq<(TileType, u8)>,
    m: MapData,
    reg: Map<TileType, TileDefinition>,
    x: int,
    y: int,
    center: TileType,
    cp: u8,
    i: int,
    hit: Option<TileType>,
    k: int,
    found: bool,
)
    requires
        0 <= i < 4,
        overlay_analysis_ok(before, m, reg, x, y, center, cp, i),
        forall|t: TileType| #[trigger] overlays_from(m, reg, x, y, center, cp, i, t) <==> hit == Some(t),
        hit is None ==> after == before,
        hit matches Some(t) ==> (found ==> 0 <= k < before.len() && before[k].0 == t && after == before.update(
            k,
            (t, (before[k].1 | cardinal_bit_spec(i))),
        )),
        hit matches Some(t) ==> (!found ==> (forall|j: int| 0 <= j < before.len() ==> #[trigger] before[j].0 != t)
            && after == before.push((t, cardinal_bit_spec(i)))),
    ensures
        overlay_analysis_ok(after, m, reg, x, y, center, cp, i + 1),
{
    assert forall|k2: int| 0 <= k2 < after.len() implies #[trigger] after[k2].1 == overlay_mask(
        m,
        reg,
        x,
        y,
        center,
        cp,
        after[k2].0,
        i + 1,
    ) by {
        if k2 < before.len() {
            assert(before[k2].1 == overlay_mask(m, reg, x, y, center, cp, before[k2].0, i));
        } else {
            assert(overlay_mask(m, reg, x, y, center, cp, after[k2].0, i) == 0) by {
                lemma_mask_zero(m, reg, x, y, center, cp, after[k2].0, i);
            }
            let b = cardinal_bit_spec(i);
            assert(0u8 | b == b) by (bit_vector);
        }
    }
    assert forall|k2: int| 0 <= k2 < after.len() implies #[trigger] overlays_before(m, reg, x, y, center, cp, after[k2].0, i + 1) by {
        if k2 < before.len() {
            assert(after[k2].0 == before[k2].0);
            assert(overlays_before(m, reg, x, y, center, cp, before[k2].0, i));
            let d = choose|d: int| 0 <= d < i && #[trigger] overlays_from(m, reg, x, y, center, cp, d, before[k2].0);
        } else {
            assert(overlays_from(m, reg, x, y, center, cp, i, after[k2].0));
        }
    }
    assert forall|d: int, t: TileType|
        0 <= d < i + 1 && #[trigger] overlays_from(m, reg, x, y, center, cp, d, t) implies exists|k2: int|
        0 <= k2 < after.len() && after[k2].0 == t by {
        if d < i {
            let k3 = choose|k3: int| 0 <= k3 < before.len() && before[k3].0 == t;
            assert(after[k3].0 == t);
        } else {
            if found {
                assert(after[k].0 == t);
            } else {
                assert(after[before.len() as int].0 == t);
            }
        }
    }
    assert forall|a: int, b: int, d: int|
        #![trigger after[a], overlays_from(m, reg, x, y, center, cp, d, after[b].0)]
        0 <= a < b < after.len() && 0 <= d < i + 1 && overlays_from(m, reg, x, y, center, cp, d, after[b].0)
            implies overlays_before(m, reg, x, y, center, cp, after[a].0, d) by {
        assert(after[a].0 == before[a].0);
        if b < before.len() {
            assert(after[b].0 == before[b].0);
            if d == i {
                // before[b] already overlays from an earlier direction e0 < i
                assert(overlays_before(m, reg, x, y, center, cp, before[b].0, i));
                let e0 = choose|e0: int| 0 <= e0 < i && #[trigger] overlays_from(m, reg, x, y, center, cp, e0, before[b].0);
                assert(before[a] == before[a]);
                assert(overlays_before(m, reg, x, y, center, cp, before[a].0, e0));
                let e = choose|e: int| 0 <= e < e0 && #[trigger] overlays_from(m, reg, x, y, center, cp, e, before[a].0);
            } else {
                assert(before[a] == before[a]);
            }
        } else {
            // the new entry overlays from direction i only
            assert(d == i) by {
                if d < i {
                    let k3 = choose|k3: int| 0 <= k3 < before.len() && before[k3].0 == after[b].0;
                }
            }
            assert(overlays_before(m, reg, x, y, center, cp, before[a].0, i));
        }
    }
}

proof fn lemma_mask_zero(
    m: MapData,
    reg: Map<TileType, TileDefinition>,
    x: int,
    y: int,
    center: TileType,
    cp: u8,
    t: TileType,
    upto: int,
)
    requires
        forall|d: int| 0 <= d < upto ==> !#[trigger] overlays_from(m, reg, x, y, center, cp, d, t),
    ensures
        overlay_mask(m, reg, x, y, center, cp, t, upto) == 0,
    decreases upto,
{
    if upto > 0 {
        lemma_mask_zero(m, reg, x, y, center, cp, t, upto - 1);
    }
}

/// Order of tile positions by x, then by y.
pub open spec fn pos_lt(a: (u32, u32), b: (u32, u32)) -> bool {
    a.0 < b.0 || (a.0 == b.0 && a.1 < b.1)
}

/// Positions sorted strictly increasing (so also free of duplicates).
pub open spec fn positions_sorted(v: Seq<(u32, u32)>) -> bool {
    forall|i: int, j: int| 0 <= i < j < v.len() ==> pos_lt(#[trigger] v[i], #[trigger] v[j])
}

/// `p` is tile `c` itself or one of its side neighbours on a `map_w` x `map_h` map.
pub open spec fn near(c: (u32, u32), p: (u32, u32), map_w: int, map_h: int) -> bool {
    ||| p == c
    ||| (p.0 < map_w && p.1 < map_h && ((p.0 == c.0 && (p.1 == c.1 + 1 || p.1 + 1 == c.1)) || (p.1 == c.1 && (p.0 == c.0
        + 1 || p.0 + 1 == c.0))))
}

/// Inserts `p` into a sorted vector unless it is already there.
fn insert_sorted(v: &mut Vec<(u32, u32)>, p: (u32, u32))
    requires
        positions_sorted(old(v)@),
    ensures
        positions_sorted(final(v)@),
        forall|q: (u32, u32)| #[trigger] final(v)@.contains(q) <==> (old(v)@.contains(q) || q == p),
{
    let mut i: usize = 0;
    while i < v.len()
        invariant
            i <= v@.len(),
            v@ == old(v)@,
            forall|j: int| 0 <= j < i ==> pos_lt(#[trigger] v@[j], p),
        ensures
            i <= v@.len(),
            v@ == old(v)@,
            forall|j: int| 0 <= j < i ==> pos_lt(#[trigger] v@[j], p),
            i < v@.len() ==> !pos_lt(v@[i as int], p),
        decreases v@.len() - i,
    {
        let q = v[i];
        if !(q.0 < p.0 || (q.0 == p.0 && q.1 < p.1)) {
            break;
        }
        i = i + 1;
    }
    let ghost s0 = v@;
    if i < v.len() && v[i].0 == p.0 && v[i].1 == p.1 {
        return;
    }
    v.insert(i, p);
    proof {
        assert forall|a: int, b: int| 0 <= a < b < v@.len() implies pos_lt(#[trigger] v@[a], #[trigger] v@[b]) by {
            if b < i {
            } else if a < i && b == i {
            } else if a < i {
                assert(v@[b] == s0[b - 1]);
                if b - 1 > a {
                    assert(pos_lt(s0[a], s0[b - 1]));
                }
            } else if a == i {
                assert(v@[b] == s0[b - 1]);
                assert(!pos_lt(s0[i as int], p));
                if b - 1 > i {
                    assert(pos_lt(s0[i as int], s0[b - 1]));
                }
            } else {
                assert(v@[a] == s0[a - 1] && v@[b] == s0[b - 1]);
                assert(pos_lt(s0[a - 1], s0[b - 1]));
            }
        }
        assert forall|q: (u32, u32)| #[trigger] v@.contains(q) <==> (s0.contains(q) || q == p) by {
            if v@.contains(q) {
                let k = choose|k: int| 0 <= k < v@.len() && v@[k] == q;
                if k < i {
                    assert(s0[k] == q);
                } else if k > i {
                    assert(s0[k - 1] == q);
                }
            }
            if s0.contains(q) {
                let k = choose|k: int| 0 <= k < s0.len() && s0[k] == q;
                if k < i {
                    assert(v@[k] == q);
                } else {
                    assert(v@[k + 1] == q);
                }
            }
            if q == p {
                assert(v@[i as int] == p);
            }
        }
    }
}

/// Positions whose overlays must be refreshed after the tiles at `changed` changed:
/// each changed tile and its side neighbours that lie on the `map_w` x `map_h` map,
/// sorted by x then y, each once.
pub fn affected_positions(changed: &Vec<(u32, u32)>, map_w: u32, map_h: u32) -> (positions: Vec<(u32, u32)>)
    ensures
        positions_sorted(positions@),
        forall|p: (u32, u32)| #[trigger] positions@.contains(p) <==> exists|k: int|
            0 <= k < changed@.len() && near(changed@[k], p, map_w as int, map_h as int),
{
    let mut v: Vec<(u32, u32)> = Vec::new();
    let mut k: usize = 0;
    while k < changed.len()
        invariant
            k <= changed@.len(),
            positions_sorted(v@),
            forall|p: (u32, u32)| #[trigger] v@.contains(p) <==> exists|k2: int|
                0 <= k2 < k && near(changed@[k2], p, map_w as int, map_h as int),
        decreases changed@.len() - k,
    {
        let c = changed[k];
        let ghost v0 = v@;
        insert_sorted(&mut v, c);
        let mut dir: usize = 0;
        while dir < 4
            invariant
                dir <= 4,
                c == changed@[k as int],
                positions_sorted(v@),
                forall|p: (u32, u32)| #[trigger] v@.contains(p) <==> (v0.contains(p) || p == c || (exists|d: int|
                    0 <= d < dir && p.0 == c.0 + cardinal_offset_spec(d).0 && p.1 == c.1 + cardinal_offset_spec(d).1
                        && p.0 < map_w && p.1 < map_h)),
            decreases 4 - dir,
        {
            let (dx, dy) = cardinal_offset(dir);
            let nx = c.0 as i64 + dx as i64;
            let ny = c.1 as i64 + dy as i64;
            let ghost v1 = v@;
            if nx >= 0 && ny >= 0 && nx < map_w as i64 && ny < map_h as i64 {
                insert_sorted(&mut v, (nx as u32, ny as u32));
            }
            proof {
                assert forall|p: (u32, u32)| #[trigger] v@.contains(p) <==> (v0.contains(p) || p == c || (exists|d: int|
                    0 <= d < dir + 1 && p.0 == c.0 + cardinal_offset_spec(d).0 && p.1 == c.1 + cardinal_offset_spec(d).1
                        && p.0 < map_w && p.1 < map_h)) by {
                    if v1.contains(p) {
                    }
                }
            }
            dir = dir + 1;
        }
        proof {
            assert forall|p: (u32, u32)| #[trigger] v@.contains(p) <==> exists|k2: int|
                0 <= k2 < k + 1 && near(changed@[k2], p, map_w as int, map_h as int) by {
                if v@.contains(p) {
                    if v0.contains(p) {
                        let k3 = choose|k3: int| 0 <= k3 < k && near(changed@[k3], p, map_w as int, map_h as int);
                    } else {
                        assert(near(changed@[k as int], p, map_w as int, map_h as int)) by {
                            if p != c {
                                let d = choose|d: int|
                                    0 <= d < 4 && p.0 == c.0 + cardinal_offset_spec(d).0 && p.1 == c.1 + cardinal_offset_spec(
                                        d,
                                    ).1 && p.0 < map_w && p.1 < map_h;
                            }
                        }
                    }
                }
                if exists|k2: int| 0 <= k2 < k + 1 && near(changed@[k2], p, map_w as int, map_h as int) {
                    let k2 = choose|k2: int| 0 <= k2 < k + 1 && near(changed@[k2], p, map_w as int, map_h as int);
                    if k2 < k {
                        assert(v0.contains(p));
                    } else if p != c {
                        if p.0 == c.0 && p.1 == c.1 + 1 {
                            assert(p.0 == c.0 + cardinal_offset_spec(0).0 && p.1 == c.1 + cardinal_offset_spec(0).1);
                        } else if p.0 == c.0 + 1 && p.1 == c.1 {
                            assert(p.0 == c.0 + cardinal_offset_spec(1).0 && p.1 == c.1 + cardinal_offset_spec(1).1);
                        } else if p.0 == c.0 && p.1 + 1 == c.1 {
                            assert(p.0 == c.0 + cardinal_offset_spec(2).0 && p.1 == c.1 + cardinal_offset_spec(2).1);
                        } else {
                            assert(p.0 == c.0 + cardinal_offset_spec(3).0 && p.1 == c.1 + cardinal_offset_spec(3).1);
                        }
                    }
                }
            }
        }
        k = k + 1;
    }
    v
}

/// `m2` holds the same tiles as `m1` everywhere but at the positions of `changed`.
pub open spec fn differ_only_at(m1: MapData, m2: MapData, changed: Seq<(u32, u32)>) -> bool {
    &&& m1.same_shape(&m2)
    &&& forall|px: int, py: int|
        m1.in_bounds(px, py) && !changed.contains((px as u32, py as u32)) ==> #[trigger] m1.tile_at(px, py) == m2.tile_at(
            px,
            py,
        )
}

/// A tile's overlays depend only on the tile and its four side neighbours: when
/// tiles change only at `changed`, every position that `affected_positions` does not
/// list keeps its overlays, so refreshing the listed positions is enough.
pub proof fn law_overlays_change_only_near_edits(
    m1: MapData,
    m2: MapData,
    reg: Map<TileType, TileDefinition>,
    changed: Seq<(u32, u32)>,
    x: int,
    y: int,
    dir: int,
    t: TileType,
)
    requires
        m1.wf(),
        m2.wf(),
        differ_only_at(m1, m2, changed),
        m1.in_bounds(x, y),
        0 <= dir < 4,
        forall|k: int|
            0 <= k < changed.len() ==> !near(#[trigger] changed[k], (x as u32, y as u32), m1.width_spec(), m1.height_spec()),
    ensures
        overlay_for_dir(m1, reg, x, y, dir) == overlay_for_dir(m2, reg, x, y, dir),
        overlays_from(m1, reg, x, y, m1.tile_at(x, y), priority_of(reg, m1.tile_at(x, y)), dir, t) == overlays_from(
            m2,
            reg,
            x,
            y,
            m2.tile_at(x, y),
            priority_of(reg, m2.tile_at(x, y)),
            dir,
            t,
        ),
{
    let w = m1.width_spec();
    let h = m1.height_spec();
    let nx = x + cardinal_offset_spec(dir).0;
    let ny = y + cardinal_offset_spec(dir).1;
    assert(!changed.contains((x as u32, y as u32))) by {
        if changed.contains((x as u32, y as u32)) {
            let k = choose|k: int| 0 <= k < changed.len() && changed[k] == (x as u32, y as u32);
            assert(near(changed[k], (x as u32, y as u32), w, h));
        }
    }
    assert(m1.tile_at(x, y) == m2.tile_at(x, y));
    if m1.in_bounds(nx, ny) {
        assert(!changed.contains((nx as u32, ny as u32))) by {
            if changed.contains((nx as u32, ny as u32)) {
                let k = choose|k: int| 0 <= k < changed.len() && changed[k] == (nx as u32, ny as u32);
                assert(near(changed[k], (x as u32, y as u32), w, h));
            }
        }
        assert(m1.tile_at(nx, ny) == m2.tile_at(nx, ny));
    }
}

} // verus!

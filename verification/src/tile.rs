use vstd::prelude::*;

verus! {

/// Terrain type identifier for each map cell.
#[derive(Clone, Copy, PartialEq, Eq, Hash, Debug, Structural)]
pub enum TileType {
    PlainGrass,
    ForestGrass,
    Sand,
    Hill,
    Mountain,
    ShallowWater,
    DeepWater,
    Ocean,
}

/// Number of distinct tile types.
pub const TILE_TYPE_COUNT: usize = 8;

/// Position of a tile type in declaration order.
pub open spec fn tile_index(t: TileType) -> int {
    match t {
        TileType::PlainGrass => 0,
        TileType::ForestGrass => 1,
        TileType::Sand => 2,
        TileType::Hill => 3,
        TileType::Mountain => 4,
        TileType::ShallowWater => 5,
        TileType::DeepWater => 6,
        TileType::Ocean => 7,
    }
}

impl TileType {
    /// Position of this tile type in declaration order (0..8).
    pub fn index(&self) -> (r: usize)
        ensures
            r == tile_index(*self),
            r < TILE_TYPE_COUNT,
    {
        match self {
            TileType::PlainGrass => 0,
            TileType::ForestGrass => 1,
            TileType::Sand => 2,
            TileType::Hill => 3,
            TileType::Mountain => 4,
            TileType::ShallowWater => 5,
            TileType::DeepWater => 6,
            TileType::Ocean => 7,
        }
    }
}

/// Visual and gameplay properties for a tile type.
#[derive(Clone, Copy, Debug)]
pub struct TileDefinition {
    /// Index of the 8x8 template sprite row for this tile type in the tileset.
    pub template_idx: usize,
    /// Render priority: higher-priority types overlay onto lower-priority tiles.
    pub priority: u8,
    /// Color used on the macro (zoomed-out) map.
    pub macro_color: [u8; 3],
}

/// The definition each tile type has in the default registry.
pub open spec fn default_tile_definition(t: TileType) -> TileDefinition {
    match t {
        TileType::PlainGrass => TileDefinition { template_idx: 0, priority: 4, macro_color: [125, 172, 69] },
        TileType::ForestGrass => TileDefinition { template_idx: 1, priority: 5, macro_color: [88, 144, 56] },
        TileType::Sand => TileDefinition { template_idx: 2, priority: 3, macro_color: [247, 232, 152] },
        TileType::Hill => TileDefinition { template_idx: 3, priority: 6, macro_color: [87, 87, 87] },
        TileType::Mountain => TileDefinition { template_idx: 4, priority: 7, macro_color: [61, 61, 61] },
        TileType::ShallowWater => TileDefinition { template_idx: 5, priority: 2, macro_color: [92, 181, 240] },
        TileType::DeepWater => TileDefinition { template_idx: 6, priority: 1, macro_color: [64, 132, 226] },
        TileType::Ocean => TileDefinition { template_idx: 7, priority: 0, macro_color: [51, 112, 204] },
    }
}

/// Central registry mapping each TileType to its definition.
pub struct TileRegistry {
    /// One slot per tile type, indexed by `TileType::index`.
    slots: [Option<TileDefinition>; 8],
}

impl View for TileRegistry {
    type V = Map<TileType, TileDefinition>;

    closed spec fn view(&self) -> Map<TileType, TileDefinition> {
        Map::new(
            |t: TileType| self.slots@[tile_index(t)] is Some,
            |t: TileType| self.slots@[tile_index(t)]->Some_0,
        )
    }
}

impl TileRegistry {
    /// An empty registry.
    pub fn new() -> (r: Self)
        ensures
            r@ == Map::<TileType, TileDefinition>::empty(),
    {
        let r = TileRegistry { slots: [None; 8] };
        assert(r@ =~= Map::<TileType, TileDefinition>::empty());
        r
    }

    /// Stores `def` as the definition of `t`, replacing any earlier one.
    pub fn insert(&mut self, t: TileType, def: TileDefinition)
        ensures
            final(self)@ == old(self)@.insert(t, def),
    {
        let i = t.index();
        self.slots[i] = Some(def);
        proof {
            assert forall|u: TileType| tile_index(u) == tile_index(t) implies u == t by {}
            assert(self@ =~= old(self)@.insert(t, def));
        }
    }

    /// Looks up the definition of `t`.
    pub fn get(&self, t: TileType) -> (r: Option<TileDefinition>)
        ensures
            r == (if self@.contains_key(t) { Some(self@[t]) } else { None }),
    {
        self.slots[t.index()]
    }

    /// The registry holding the built-in definition of every tile type.
    pub fn default() -> (r: Self)
        ensures
            forall|t: TileType| #[trigger] r@.contains_key(t) && r@[t] == default_tile_definition(t),
    {
        let mut r = TileRegistry::new();
        r.insert(TileType::PlainGrass, TileDefinition { template_idx: 0, priority: 4, macro_color: [125, 172, 69] });
        r.insert(TileType::ForestGrass, TileDefinition { template_idx: 1, priority: 5, macro_color: [88, 144, 56] });
        r.insert(TileType::Sand, TileDefinition { template_idx: 2, priority: 3, macro_color: [247, 232, 152] });
        r.insert(TileType::Hill, TileDefinition { template_idx: 3, priority: 6, macro_color: [87, 87, 87] });
        r.insert(TileType::Mountain, TileDefinition { template_idx: 4, priority: 7, macro_color: [61, 61, 61] });
        r.insert(TileType::ShallowWater, TileDefinition { template_idx: 5, priority: 2, macro_color: [92, 181, 240] });
        r.insert(TileType::DeepWater, TileDefinition { template_idx: 6, priority: 1, macro_color: [64, 132, 226] });
        r.insert(TileType::Ocean, TileDefinition { template_idx: 7, priority: 0, macro_color: [51, 112, 204] });
        r
    }
}

} // verus!

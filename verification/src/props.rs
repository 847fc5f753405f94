use vstd::prelude::*;

use crate::coords::UVec2;
use crate::spritesheet::{SpritesheetID, SpritesheetRegistry};

verus! {

/// Identifies the kind of prop (used as a component and registry key).
#[derive(Clone, Copy, PartialEq, Eq, Hash, Debug, Structural)]
pub enum PropType {
    HouseTier0,
    HouseTier1,
    HouseTier2,
    HouseTier3,
    HouseTier4,
    HouseTier5,
    HouseTier6,
    HumanImperialWalking,
    HumanForestWalking,
    HumanNorthernWalking,
    HumanTribalWalking,
}

/// Position of a prop type in declaration order.
pub open spec fn prop_index(t: PropType) -> int {
    match t {
        PropType::HouseTier0 => 0,
        PropType::HouseTier1 => 1,
        PropType::HouseTier2 => 2,
        PropType::HouseTier3 => 3,
        PropType::HouseTier4 => 4,
        PropType::HouseTier5 => 5,
        PropType::HouseTier6 => 6,
        PropType::HumanImperialWalking => 7,
        PropType::HumanForestWalking => 8,
        PropType::HumanNorthernWalking => 9,
        PropType::HumanTribalWalking => 10,
    }
}

impl PropType {
    /// Position of this prop type in declaration order (0..11).
    pub fn index(&self) -> (r: usize)
        ensures
            r == prop_index(*self),
    {
        match self {
            PropType::HouseTier0 => 0,
            PropType::HouseTier1 => 1,
            PropType::HouseTier2 => 2,
            PropType::HouseTier3 => 3,
            PropType::HouseTier4 => 4,
            PropType::HouseTier5 => 5,
            PropType::HouseTier6 => 6,
            PropType::HumanImperialWalking => 7,
            PropType::HumanForestWalking => 8,
            PropType::HumanNorthernWalking => 9,
            PropType::HumanTribalWalking => 10,
        }
    }
}

/// Describes the animation layout of a prop in its spritesheet.
#[derive(Clone, Copy, Debug)]
pub enum PropSprite {
    Static,
    /// Frames are stacked in successive rows within the chosen variation column.
    Animated {
        /// Total number of animation frames (number of rows used).
        frame_count: u32,
        /// Milliseconds between frame advances.
        period_ms: u32,
    },
}

impl PropSprite {
    /// Number of animation frames: 1 for a static sprite.
    pub open spec fn frame_count_spec(&self) -> int {
        match self {
            PropSprite::Static => 1,
            PropSprite::Animated { frame_count, .. } => *frame_count as int,
        }
    }

    /// Returns the total number of animation frames (1 for static).
    pub fn frame_count(&self) -> (r: usize)
        ensures
            r == self.frame_count_spec(),
    {
        match self {
            PropSprite::Static => 1,
            PropSprite::Animated { frame_count, .. } => *frame_count as usize,
        }
    }

    /// Returns the animation period in milliseconds, or `None` for static sprites.
    pub fn period(&self) -> (r: Option<u32>)
        ensures
            r == (match self {
                PropSprite::Static => None,
                PropSprite::Animated { period_ms, .. } => Some(*period_ms),
            }),
    {
        match self {
            PropSprite::Static => None,
            PropSprite::Animated { period_ms, .. } => Some(*period_ms),
        }
    }

    /// Returns the spritesheet grid origin (column = variation, row = frame) of a
    /// variation and animation frame.
    pub fn frame_origin(&self, variation: u32, frame: usize) -> (r: UVec2)
        requires
            frame <= u32::MAX,
        ensures
            r.x == variation,
            r.y == frame,
    {
        UVec2 { x: variation, y: frame as u32 }
    }

    /// The frame that follows `current` in the animation cycle.
    pub fn next_frame(&self, current: usize) -> (r: usize)
        requires
            self.frame_count_spec() > 0,
            current < usize::MAX,
        ensures
            r == (current + 1) % self.frame_count_spec(),
    {
        (current + 1) % self.frame_count()
    }
}

/// Full definition of a prop: spritesheet, size, animation and variation count.
#[derive(Clone, Copy, Debug)]
pub struct PropDefinition {
    /// Which spritesheet this prop's sprites live in.
    pub sheet_id: SpritesheetID,
    /// Size in world tiles.
    pub size_tiles: UVec2,
    /// Sprite layout (static or animated).
    pub sprite: PropSprite,
    /// Number of variation columns available in the spritesheet.
    pub variation_count: u32,
}

/// The definition each prop type has in the default registry.
pub open spec fn default_prop_definition(t: PropType) -> PropDefinition {
    match t {
        PropType::HouseTier0 => PropDefinition { sheet_id: SpritesheetID::HouseTier0, size_tiles: UVec2 { x: 2, y: 2 }, sprite: PropSprite::Static, variation_count: 1 },
        PropType::HouseTier1 => PropDefinition { sheet_id: SpritesheetID::HouseTier1, size_tiles: UVec2 { x: 2, y: 2 }, sprite: PropSprite::Static, variation_count: 4 },
        PropType::HouseTier2 => PropDefinition { sheet_id: SpritesheetID::HouseTier2, size_tiles: UVec2 { x: 2, y: 2 }, sprite: PropSprite::Static, variation_count: 4 },
        PropType::HouseTier3 => PropDefinition { sheet_id: SpritesheetID::HouseTier3, size_tiles: UVec2 { x: 2, y: 2 }, sprite: PropSprite::Static, variation_count: 4 },
        PropType::HouseTier4 => PropDefinition { sheet_id: SpritesheetID::HouseTier4, size_tiles: UVec2 { x: 3, y: 3 }, sprite: PropSprite::Static, variation_count: 4 },
        PropType::HouseTier5 => PropDefinition { sheet_id: SpritesheetID::HouseTier5, size_tiles: UVec2 { x: 4, y: 4 }, sprite: PropSprite::Static, variation_count: 4 },
        PropType::HouseTier6 => PropDefinition { sheet_id: SpritesheetID::HouseTier6, size_tiles: UVec2 { x: 4, y: 4 }, sprite: PropSprite::Static, variation_count: 4 },
        PropType::HumanImperialWalking => PropDefinition { sheet_id: SpritesheetID::HumanImperialWalking, size_tiles: UVec2 { x: 1, y: 1 }, sprite: PropSprite::Animated { frame_count: 4, period_ms: 80 }, variation_count: 1 },
        PropType::HumanForestWalking => PropDefinition { sheet_id: SpritesheetID::HumanForestWalking, size_tiles: UVec2 { x: 1, y: 1 }, sprite: PropSprite::Animated { frame_count: 4, period_ms: 80 }, variation_count: 1 },
        PropType::HumanNorthernWalking => PropDefinition { sheet_id: SpritesheetID::HumanNorthernWalking, size_tiles: UVec2 { x: 1, y: 1 }, sprite: PropSprite::Animated { frame_count: 4, period_ms: 80 }, variation_count: 1 },
        PropType::HumanTribalWalking => PropDefinition { sheet_id: SpritesheetID::HumanTribalWalking, size_tiles: UVec2 { x: 1, y: 1 }, sprite: PropSprite::Animated { frame_count: 4, period_ms: 80 }, variation_count: 1 },
    }
}

/// Central registry mapping each PropType to its definition.
pub struct PropRegistry {
    props: [Option<PropDefinition>; 11],
}

impl View for PropRegistry {
    type V = Map<PropType, PropDefinition>;

    closed spec fn view(&self) -> Map<PropType, PropDefinition> {
        Map::new(
            |t: PropType| self.props@[prop_index(t)] is Some,
            |t: PropType| self.props@[prop_index(t)]->Some_0,
        )
    }
}

impl PropRegistry {
    /// An empty registry.
    pub fn new() -> (r: Self)
        ensures
            r@ == Map::<PropType, PropDefinition>::empty(),
    {
        let r = PropRegistry { props: [None; 11] };
        assert(r@ =~= Map::<PropType, PropDefinition>::empty());
        r
    }

    /// Stores `def` as the definition of `t`, replacing any earlier one.
    pub fn insert(&mut self, t: PropType, def: PropDefinition)
        ensures
            final(self)@ == old(self)@.insert(t, def),
    {
        let i = t.index();
        self.props[i] = Some(def);
        proof {
            assert forall|u: PropType| prop_index(u) == prop_index(t) implies u == t by {}
            assert(self@ =~= old(self)@.insert(t, def));
        }
    }

    /// Looks up the definition of `t`.
    pub fn get(&self, t: PropType) -> (r: Option<&PropDefinition>)
        ensures
            r is Some <==> self@.contains_key(t),
            r matches Some(d) ==> *d == self@[t],
    {
        match &self.props[t.index()] {
            Some(d) => Some(d),
            None => None,
        }
    }

    /// The registry holding the built-in definition of every prop type.
    pub fn default() -> (r: Self)
        ensures
            forall|t: PropType| #[trigger] r@.contains_key(t) && r@[t] == default_prop_definition(t),
    {
        let mut r = PropRegistry::new();
        r.insert(PropType::HouseTier0, PropDefinition { sheet_id: SpritesheetID::HouseTier0, size_tiles: UVec2 { x: 2, y: 2 }, sprite: PropSprite::Static, variation_count: 1 });
        r.insert(PropType::HouseTier1, PropDefinition { sheet_id: SpritesheetID::HouseTier1, size_tiles: UVec2 { x: 2, y: 2 }, sprite: PropSprite::Static, variation_count: 4 });
        r.insert(PropType::HouseTier2, PropDefinition { sheet_id: SpritesheetID::HouseTier2, size_tiles: UVec2 { x: 2, y: 2 }, sprite: PropSprite::Static, variation_count: 4 });
        r.insert(PropType::HouseTier3, PropDefinition { sheet_id: SpritesheetID::HouseTier3, size_tiles: UVec2 { x: 2, y: 2 }, sprite: PropSprite::Static, variation_count: 4 });
        r.insert(PropType::HouseTier4, PropDefinition { sheet_id: SpritesheetID::HouseTier4, size_tiles: UVec2 { x: 3, y: 3 }, sprite: PropSprite::Static, variation_count: 4 });
        r.insert(PropType::HouseTier5, PropDefinition { sheet_id: SpritesheetID::HouseTier5, size_tiles: UVec2 { x: 4, y: 4 }, sprite: PropSprite::Static, variation_count: 4 });
        r.insert(PropType::HouseTier6, PropDefinition { sheet_id: SpritesheetID::HouseTier6, size_tiles: UVec2 { x: 4, y: 4 }, sprite: PropSprite::Static, variation_count: 4 });
        let human_sprite = PropSprite::Animated { frame_count: 4, period_ms: 80 };
        r.insert(PropType::HumanImperialWalking, PropDefinition { sheet_id: SpritesheetID::HumanImperialWalking, size_tiles: UVec2 { x: 1, y: 1 }, sprite: human_sprite, variation_count: 1 });
        r.insert(PropType::HumanForestWalking, PropDefinition { sheet_id: SpritesheetID::HumanForestWalking, size_tiles: UVec2 { x: 1, y: 1 }, sprite: human_sprite, variation_count: 1 });
        r.insert(PropType::HumanNorthernWalking, PropDefinition { sheet_id: SpritesheetID::HumanNorthernWalking, size_tiles: UVec2 { x: 1, y: 1 }, sprite: human_sprite, variation_count: 1 });
        r.insert(PropType::HumanTribalWalking, PropDefinition { sheet_id: SpritesheetID::HumanTribalWalking, size_tiles: UVec2 { x: 1, y: 1 }, sprite: human_sprite, variation_count: 1 });
        r
    }
}

/// A uniformly random `u32` from the thread-local generator.
///
/// Calls `rand::random::<u32>()`. Nothing is claimed of the value: every `u32` can
/// come back, and two calls may differ.
#[verifier::external_body]
fn random_u32() -> u32 {
    rand::random::<u32>()
}

/// Number of variation columns a prop type can use: its registered count, at least 1
/// (1 when the type is not registered).
pub open spec fn variation_choices(reg: Map<PropType, PropDefinition>, t: PropType) -> int {
    let c = if reg.contains_key(t) { reg[t].variation_count as int } else { 1 };
    if c >= 1 { c } else { 1 }
}

/// The variation column used for a requested variation (1-based, 0 = random): the
/// requested one clamped to the available columns, or `random` reduced to them.
pub open spec fn resolved_variation(choices: int, requested: int, random: int) -> int {
    if requested == 0 {
        random % choices
    } else if requested - 1 <= choices - 1 {
        requested - 1
    } else {
        choices - 1
    }
}

/// Level of a house prop type (0 for tier 0 and for every non-house type).
pub open spec fn house_tier_spec(t: PropType) -> u32 {
    match t {
        PropType::HouseTier0 => 0,
        PropType::HouseTier1 => 1,
        PropType::HouseTier2 => 2,
        PropType::HouseTier3 => 3,
        PropType::HouseTier4 => 4,
        PropType::HouseTier5 => 5,
        PropType::HouseTier6 => 6,
        _ => 0,
    }
}

/// Level of a house prop type (0 for tier 0 and for every non-house type).
pub fn house_tier(t: PropType) -> (r: u32)
    ensures
        r == house_tier_spec(t),
{
    match t {
        PropType::HouseTier0 => 0,
        PropType::HouseTier1 => 1,
        PropType::HouseTier2 => 2,
        PropType::HouseTier3 => 3,
        PropType::HouseTier4 => 4,
        PropType::HouseTier5 => 5,
        PropType::HouseTier6 => 6,
        _ => 0,
    }
}

impl PropRegistry {
    /// Resolves a requested variation (1-based, 0 = random) of prop type `t` against a
    /// given random value.
    pub fn resolve_variation_with(&self, t: PropType, requested: u32, random: u32) -> (r: u32)
        ensures
            r == resolved_variation(variation_choices(self@, t), requested as int, random as int),
            r < variation_choices(self@, t),
    {
        let count = match self.get(t) {
            Some(d) => d.variation_count,
            None => 1,
        };
        let count = if count >= 1 { count } else { 1 };
        if requested == 0 {
            random % count
        } else if requested - 1 <= count - 1 {
            requested - 1
        } else {
            count - 1
        }
    }

    /// Resolves a requested variation (1-based, 0 = random) of prop type `t`: the
    /// requested column clamped to the available ones, or a random available column.
    pub fn resolve_variation(&self, t: PropType, requested: u32) -> (r: u32)
        ensures
            r < variation_choices(self@, t),
            requested != 0 ==> r == resolved_variation(variation_choices(self@, t), requested as int, 0),
    {
        let random = if requested == 0 { random_u32() } else { 0 };
        self.resolve_variation_with(t, requested, random)
    }

    /// Atlas index of animation frame `frame` of variation `variation` of prop type `t`:
    /// `frame * columns + variation` in the grid of its spritesheet. `None` when the
    /// prop type or its spritesheet is not registered.
    pub fn atlas_index(&self, t: PropType, variation: u32, frame: usize, sheets: &SpritesheetRegistry) -> (r: Option<usize>)
        requires
            frame <= u32::MAX,
            self@.contains_key(t) && sheets@.contains_key(self@[t].sheet_id) ==> frame * sheets@[self@[t].sheet_id].grid.x
                + variation <= u32::MAX,
        ensures
            r is Some <==> self@.contains_key(t) && sheets@.contains_key(self@[t].sheet_id),
            r matches Some(i) ==> i == frame * sheets@[self@[t].sheet_id].grid.x + variation,
    {
        let def = match self.get(t) {
            Some(d) => d,
            None => return None,
        };
        let sheet = match sheets.get(def.sheet_id) {
            Some(s) => s,
            None => return None,
        };
        let origin = def.sprite.frame_origin(variation, frame);
        Some((origin.y * sheet.grid.x + origin.x) as usize)
    }
}

/// Which variation column of its spritesheet a prop shows.
#[derive(Clone, Copy, PartialEq, Eq, Debug, Structural)]
pub struct VariationIndex(pub u32);

/// A house and its level.
#[derive(Clone, Copy, PartialEq, Eq, Debug, Structural)]
pub struct House {
    pub tier: u32,
}

impl House {
    /// The house of a building prop type, at that type's level.
    pub fn of_prop(t: PropType) -> (r: Self)
        ensures
            r.tier == house_tier_spec(t),
    {
        House { tier: house_tier(t) }
    }
}

} // verus!

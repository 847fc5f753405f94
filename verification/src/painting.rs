use vstd::prelude::*;

use crate::coords::IVec2;
use crate::faction::FactionId;
use crate::props::{house_tier_spec, PropType};
use crate::tile::{default_tile_definition, TileType};

verus! {

/// What the left mouse button paints or places.
#[derive(Clone, Copy, PartialEq, Eq, Debug, Structural)]
pub enum ToolMode {
    Tile,
    Building,
    Human,
}

/// Number of tile types offered by the tile tool.
pub const TILE_LIST_LEN: usize = 8;

/// Number of buildings offered by the building tool.
pub const BUILDING_LIST_LEN: usize = 7;

/// Number of humans offered by the human tool.
pub const HUMAN_LIST_LEN: usize = 4;

/// Entry `i` of the tile tool's list.
pub open spec fn tile_list(i: int) -> TileType {
    if i == 0 {
        TileType::Ocean
    } else if i == 1 {
        TileType::DeepWater
    } else if i == 2 {
        TileType::ShallowWater
    } else if i == 3 {
        TileType::Sand
    } else if i == 4 {
        TileType::PlainGrass
    } else if i == 5 {
        TileType::ForestGrass
    } else if i == 6 {
        TileType::Hill
    } else {
        TileType::Mountain
    }
}

/// Entry `i` of the building tool's list.
pub open spec fn building_list(i: int) -> PropType {
    if i == 0 {
        PropType::HouseTier0
    } else if i == 1 {
        PropType::HouseTier1
    } else if i == 2 {
        PropType::HouseTier2
    } else if i == 3 {
        PropType::HouseTier3
    } else if i == 4 {
        PropType::HouseTier4
    } else if i == 5 {
        PropType::HouseTier5
    } else {
        PropType::HouseTier6
    }
}

/// Entry `i` of the human tool's list.
pub open spec fn human_list(i: int) -> PropType {
    if i == 0 {
        PropType::HumanImperialWalking
    } else if i == 1 {
        PropType::HumanForestWalking
    } else if i == 2 {
        PropType::HumanNorthernWalking
    } else {
        PropType::HumanTribalWalking
    }
}

/// Length of the item list of a tool mode.
pub open spec fn list_len_spec(mode: ToolMode) -> int {
    match mode {
        ToolMode::Tile => TILE_LIST_LEN as int,
        ToolMode::Building => BUILDING_LIST_LEN as int,
        ToolMode::Human => HUMAN_LIST_LEN as int,
    }
}

/// Editing tool state: mode, selected item, selected faction and eraser toggle.
#[derive(Clone, Copy, Debug)]
pub struct ToolState {
    pub mode: ToolMode,
    pub item_index: usize,
    /// 0 = no faction; k >= 1 selects active faction k - 1 (cyclically).
    pub faction_index: usize,
    pub eraser_active: bool,
}

/// Keys pressed this frame (just pressed, not held).
#[derive(Clone, Copy, Debug)]
pub struct ToolInput {
    /// Selects the tile tool.
    pub numpad1: bool,
    /// Selects the building tool.
    pub numpad2: bool,
    /// Selects the human tool.
    pub numpad3: bool,
    /// Previous item.
    pub numpad4: bool,
    /// Next item.
    pub numpad6: bool,
    /// Next faction.
    pub numpad0: bool,
    /// Toggles the eraser.
    pub numpad8: bool,
}

/// What the left mouse button does this frame.
#[derive(Clone, Copy, PartialEq, Eq, Debug, Structural)]
pub enum ToolAction {
    Nothing,
    Erase,
    PaintTile(TileType),
    PlaceBuilding(PropType),
    PlaceHuman(PropType),
}

/// `s` with the tool switched to `mode`, first item selected and the eraser off.
pub open spec fn switch_mode(s: ToolState, mode: ToolMode) -> ToolState {
    ToolState { mode, item_index: 0, eraser_active: false, ..s }
}

/// The tool state after this frame's mode switches and "previous item" key.
pub open spec fn after_switch_and_prev(s: ToolState, input: ToolInput) -> ToolState {
    let s1 = if input.numpad1 { switch_mode(s, ToolMode::Tile) } else { s };
    let s2 = if input.numpad2 { switch_mode(s1, ToolMode::Building) } else { s1 };
    let s3 = if input.numpad3 { switch_mode(s2, ToolMode::Human) } else { s2 };
    let len = list_len_spec(s3.mode);
    if input.numpad4 {
        ToolState { item_index: (if s3.item_index == 0 { len - 1 } else { s3.item_index - 1 }) as usize, ..s3 }
    } else {
        s3
    }
}

/// The tool state after one frame of key input, with `active_factions` factions.
pub open spec fn after_input(s: ToolState, input: ToolInput, active_factions: int) -> ToolState {
    let s4 = after_switch_and_prev(s, input);
    let len = list_len_spec(s4.mode);
    let s5 = if input.numpad6 { ToolState { item_index: ((s4.item_index + 1) % len) as usize, ..s4 } } else { s4 };
    let s6 = if input.numpad0 {
        ToolState { faction_index: ((s5.faction_index + 1) % (1 + active_factions)) as usize, ..s5 }
    } else {
        s5
    };
    if input.numpad8 { ToolState { eraser_active: !s6.eraser_active, ..s6 } } else { s6 }
}

/// Input of a frame in which only the "previous item" key went down.
pub open spec fn prev_item_input() -> ToolInput {
    ToolInput {
        numpad1: false,
        numpad2: false,
        numpad3: false,
        numpad4: true,
        numpad6: false,
        numpad0: false,
        numpad8: false,
    }
}

/// Input of a frame in which only the "next item" key went down.
pub open spec fn next_item_input() -> ToolInput {
    ToolInput { numpad4: false, numpad6: true, ..prev_item_input() }
}

/// The tool state's indices stay in range: the item index inside the current
/// mode's list and the faction index inside "no faction" plus the active factions,
/// whatever keys go down.
pub proof fn law_tool_indices_stay_valid(s: ToolState, input: ToolInput, active_factions: int)
    requires
        0 <= active_factions,
        s.item_index < list_len_spec(s.mode),
        s.faction_index < 1 + active_factions,
    ensures
        after_input(s, input, active_factions).item_index < list_len_spec(after_input(s, input, active_factions).mode),
        after_input(s, input, active_factions).faction_index < 1 + active_factions,
{
}

/// Stepping to the previous item and then to the next gives back the tool state
/// (for an item index inside the list).
pub proof fn law_prev_then_next_restores(s: ToolState, active_factions: int)
    requires
        0 <= active_factions,
        s.item_index < list_len_spec(s.mode),
    ensures
        after_input(after_input(s, prev_item_input(), active_factions), next_item_input(), active_factions) == s,
{
    let len = list_len_spec(s.mode);
    let p = after_input(s, prev_item_input(), active_factions);
    let q = after_input(p, next_item_input(), active_factions);
    assert(p.mode == s.mode);
    if s.item_index == 0 {
        assert(p.item_index == len - 1);
    } else {
        assert(p.item_index == s.item_index - 1);
    }
    assert(q.item_index == (p.item_index + 1) % len);
    assert(q.item_index == s.item_index) by {
        vstd::arithmetic::div_mod::lemma_small_mod(s.item_index as nat, len as nat);
        vstd::arithmetic::div_mod::lemma_mod_self_0(len);
    }
}

/// Stepping to the next item and then to the previous gives back the tool state
/// (for an item index inside the list).
pub proof fn law_next_then_prev_restores(s: ToolState, active_factions: int)
    requires
        0 <= active_factions,
        s.item_index < list_len_spec(s.mode),
    ensures
        after_input(after_input(s, next_item_input(), active_factions), prev_item_input(), active_factions) == s,
{
    let len = list_len_spec(s.mode);
    let p = after_input(s, next_item_input(), active_factions);
    let q = after_input(p, prev_item_input(), active_factions);
    assert(p.mode == s.mode);
    if s.item_index + 1 == len {
        assert(p.item_index == 0) by {
            vstd::arithmetic::div_mod::lemma_mod_self_0(len);
        }
    } else {
        assert(p.item_index == s.item_index + 1) by {
            vstd::arithmetic::div_mod::lemma_small_mod((s.item_index + 1) as nat, len as nat);
        }
    }
    assert(q.item_index == s.item_index);
}

/// One frame of tool keys: the last of the mode keys 1, 2, 3 pressed picks the tile,
/// building or human tool, with the first item and the eraser off; key 0 steps the
/// faction cyclically over "no faction" and the active factions; key 8 toggles the
/// eraser; the item index stays inside the list.
pub proof fn law_tool_keys(s: ToolState, input: ToolInput, active_factions: int)
    requires
        0 <= active_factions,
        s.item_index < list_len_spec(s.mode),
    ensures
        ({
            let r = after_input(s, input, active_factions);
            let switched = input.numpad1 || input.numpad2 || input.numpad3;
            &&& input.numpad3 ==> r.mode == ToolMode::Human
            &&& input.numpad2 && !input.numpad3 ==> r.mode == ToolMode::Building
            &&& input.numpad1 && !input.numpad2 && !input.numpad3 ==> r.mode == ToolMode::Tile
            &&& !switched ==> r.mode == s.mode
            &&& switched && !input.numpad4 && !input.numpad6 ==> r.item_index == 0
            &&& !input.numpad4 && !input.numpad6 && !switched ==> r.item_index == s.item_index
            &&& r.faction_index == (if input.numpad0 {
                ((s.faction_index + 1) % (1 + active_factions)) as usize
            } else {
                s.faction_index
            })
            &&& r.eraser_active == ((if switched { false } else { s.eraser_active }) != input.numpad8)
            &&& r.item_index < list_len_spec(r.mode)
        }),
{
    let s4 = after_switch_and_prev(s, input);
    let len = list_len_spec(s4.mode);
    assert(s4.item_index < len);
    if input.numpad6 {
        assert((s4.item_index + 1) % len < len) by {
            vstd::arithmetic::div_mod::lemma_mod_bound((s4.item_index + 1) as int, len);
        }
    }
}

/// The tool lists run in order: item `i` of the tile tool is the tile type whose
/// default definition has render priority `i` (from ocean at 0 up to mountain at 7),
/// so each tile type is offered exactly once; item `i` of the building tool is the
/// house of tier `i`.
pub proof fn law_tool_lists_ordered()
    ensures
        forall|i: int| 0 <= i < TILE_LIST_LEN ==> default_tile_definition(#[trigger] tile_list(i)).priority == i,
        forall|i: int| 0 <= i < BUILDING_LIST_LEN ==> house_tier_spec(#[trigger] building_list(i)) == i,
{
}

impl ToolState {
    /// Tile tool, first item, no faction, eraser off.
    pub fn default() -> (r: Self)
        ensures
            r.mode == ToolMode::Tile,
            r.item_index == 0,
            r.faction_index == 0,
            !r.eraser_active,
    {
        ToolState { mode: ToolMode::Tile, item_index: 0, faction_index: 0, eraser_active: false }
    }

    /// Length of the item list of the current mode.
    pub fn list_len(&self) -> (r: usize)
        ensures
            r == list_len_spec(self.mode),
    {
        match self.mode {
            ToolMode::Tile => TILE_LIST_LEN,
            ToolMode::Building => BUILDING_LIST_LEN,
            ToolMode::Human => HUMAN_LIST_LEN,
        }
    }

    /// The selected tile type (the last one when the index is past the list).
    pub fn selected_tile(&self) -> (r: TileType)
        ensures
            r == tile_list(if self.item_index < TILE_LIST_LEN { self.item_index as int } else { TILE_LIST_LEN - 1 }),
            default_tile_definition(r).priority == (if self.item_index < TILE_LIST_LEN {
                self.item_index as int
            } else {
                TILE_LIST_LEN - 1
            }),
    {
        let i = if self.item_index < TILE_LIST_LEN { self.item_index } else { TILE_LIST_LEN - 1 };
        if i == 0 {
            TileType::Ocean
        } else if i == 1 {
            TileType::DeepWater
        } else if i == 2 {
            TileType::ShallowWater
        } else if i == 3 {
            TileType::Sand
        } else if i == 4 {
            TileType::PlainGrass
        } else if i == 5 {
            TileType::ForestGrass
        } else if i == 6 {
            TileType::Hill
        } else {
            TileType::Mountain
        }
    }

    /// The selected building (the last one when the index is past the list).
    pub fn selected_building(&self) -> (r: PropType)
        ensures
            r == building_list(
                if self.item_index < BUILDING_LIST_LEN { self.item_index as int } else { BUILDING_LIST_LEN - 1 },
            ),
            house_tier_spec(r) == (if self.item_index < BUILDING_LIST_LEN {
                self.item_index as int
            } else {
                BUILDING_LIST_LEN - 1
            }),
    {
        let i = if self.item_index < BUILDING_LIST_LEN { self.item_index } else { BUILDING_LIST_LEN - 1 };
        if i == 0 {
            PropType::HouseTier0
        } else if i == 1 {
            PropType::HouseTier1
        } else if i == 2 {
            PropType::HouseTier2
        } else if i == 3 {
            PropType::HouseTier3
        } else if i == 4 {
            PropType::HouseTier4
        } else if i == 5 {
            PropType::HouseTier5
        } else {
            PropType::HouseTier6
        }
    }

    /// The selected human (the last one when the index is past the list).
    pub fn selected_human(&self) -> (r: PropType)
        ensures
            r == human_list(if self.item_index < HUMAN_LIST_LEN { self.item_index as int } else { HUMAN_LIST_LEN - 1 }),
    {
        let i = if self.item_index < HUMAN_LIST_LEN { self.item_index } else { HUMAN_LIST_LEN - 1 };
        if i == 0 {
            PropType::HumanImperialWalking
        } else if i == 1 {
            PropType::HumanForestWalking
        } else if i == 2 {
            PropType::HumanNorthernWalking
        } else {
            PropType::HumanTribalWalking
        }
    }

    /// The selected faction among the active ones: none for index 0 or when no faction
    /// exists, otherwise active faction `(faction_index - 1) % count`.
    pub fn selected_faction(&self, active_ids: &Vec<FactionId>) -> (r: Option<FactionId>)
        ensures
            (self.faction_index == 0 || active_ids@.len() == 0) ==> r is None,
            (self.faction_index != 0 && active_ids@.len() != 0) ==> r == Some(
                active_ids@[(self.faction_index - 1) % (active_ids@.len() as int)],
            ),
    {
        if self.faction_index == 0 || active_ids.len() == 0 {
            return None;
        }
        let idx = (self.faction_index - 1) % active_ids.len();
        Some(active_ids[idx])
    }

    /// Applies one frame of key input: tool switches, item cycling, faction cycling
    /// (over "no faction" and the `active_factions` factions) and the eraser toggle.
    pub fn apply_input(&mut self, input: ToolInput, active_factions: usize)
        requires
            input.numpad6 ==> after_switch_and_prev(*old(self), input).item_index < usize::MAX,
            input.numpad0 ==> active_factions < usize::MAX && old(self).faction_index < usize::MAX,
        ensures
            *final(self) == after_input(*old(self), input, active_factions as int),
    {
        if input.numpad1 {
            self.mode = ToolMode::Tile;
            self.item_index = 0;
            self.eraser_active = false;
        }
        if input.numpad2 {
            self.mode = ToolMode::Building;
            self.item_index = 0;
            self.eraser_active = false;
        }
        if input.numpad3 {
            self.mode = ToolMode::Human;
            self.item_index = 0;
            self.eraser_active = false;
        }
        let list_len = self.list_len();
        if input.numpad4 {
            self.item_index = if self.item_index == 0 { list_len - 1 } else { self.item_index - 1 };
        }
        if input.numpad6 {
            self.item_index = (self.item_index + 1) % list_len;
        }
        if input.numpad0 {
            let cycle_len = 1 + active_factions;
            self.faction_index = (self.faction_index + 1) % cycle_len;
        }
        if input.numpad8 {
            self.eraser_active = !self.eraser_active;
        }
    }

    /// What a left click does: nothing without a press; erase when the eraser is on;
    /// paint the selected tile while the button is held; place the selected building
    /// or human only on the frame the button goes down.
    pub fn action(&self, pressed: bool, just_pressed: bool) -> (r: ToolAction)
        ensures
            !pressed ==> r == ToolAction::Nothing,
            pressed && self.eraser_active ==> r == ToolAction::Erase,
            pressed && !self.eraser_active && self.mode == ToolMode::Tile ==> r == ToolAction::PaintTile(
                tile_list(if self.item_index < TILE_LIST_LEN { self.item_index as int } else { TILE_LIST_LEN - 1 }),
            ),
            pressed && !self.eraser_active && self.mode == ToolMode::Tile ==> default_tile_definition(
                r->PaintTile_0,
            ).priority == (if self.item_index < TILE_LIST_LEN { self.item_index as int } else { TILE_LIST_LEN - 1 }),
            pressed && !self.eraser_active && self.mode == ToolMode::Building ==> r == (if just_pressed {
                ToolAction::PlaceBuilding(
                    building_list(
                        if self.item_index < BUILDING_LIST_LEN { self.item_index as int } else { BUILDING_LIST_LEN - 1 },
                    ),
                )
            } else {
                ToolAction::Nothing
            }),
            pressed && !self.eraser_active && self.mode == ToolMode::Human ==> r == (if just_pressed {
                ToolAction::PlaceHuman(
                    human_list(if self.item_index < HUMAN_LIST_LEN { self.item_index as int } else { HUMAN_LIST_LEN - 1 }),
                )
            } else {
                ToolAction::Nothing
            }),
    {
        if !pressed {
            return ToolAction::Nothing;
        }
        if self.eraser_active {
            return ToolAction::Erase;
        }
        match self.mode {
            ToolMode::Tile => ToolAction::PaintTile(self.selected_tile()),
            ToolMode::Building => {
                if !just_pressed {
                    return ToolAction::Nothing;
                }
                ToolAction::PlaceBuilding(self.selected_building())
            },
            ToolMode::Human => {
                if !just_pressed {
                    return ToolAction::Nothing;
                }
                ToolAction::PlaceHuman(self.selected_human())
            },
        }
    }
}

/// The grid cell under the cursor, when it lies strictly inside the map's
/// non-editable one-tile border.
pub fn interior_cell(grid: IVec2, map_w: u32, map_h: u32) -> (r: Option<(u32, u32)>)
    ensures
        r is Some <==> (0 < grid.x < map_w - 1 && 0 < grid.y < map_h - 1),
        r matches Some(c) ==> c.0 == grid.x && c.1 == grid.y,
{
    let mw = map_w as i64;
    let mh = map_h as i64;
    let gx = grid.x as i64;
    let gy = grid.y as i64;
    if gx <= 0 || gy <= 0 || gx >= mw - 1 || gy >= mh - 1 {
        return None;
    }
    Some((grid.x as u32, grid.y as u32))
}

} // verus!

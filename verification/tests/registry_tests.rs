use worldbox::coords::{GridPos, IVec2, UVec2};
use worldbox::faction::{FactionId, FactionRegistry};
use worldbox::painting::{interior_cell, ToolAction, ToolInput, ToolMode, ToolState};
use worldbox::props::{house_tier, PropDefinition, PropRegistry, PropSprite, PropType};
use worldbox::spritesheet::{register_spritesheets, SpritesheetID, SpritesheetRegistry};
use worldbox::tile::{TileDefinition, TileRegistry, TileType};
use worldbox::chunks::ChunkCoord;
use worldbox::faction::BuildingColor;
use worldbox::macro_map::MacroMapEntity;
use worldbox::props::House;
use worldbox::spritesheet::atlas_cell_size;

fn no_keys() -> ToolInput {
    ToolInput {
        numpad1: false,
        numpad2: false,
        numpad3: false,
        numpad4: false,
        numpad6: false,
        numpad0: false,
        numpad8: false,
    }
}

#[test]
fn faction_add_hands_out_increasing_ids() {
    let mut r = FactionRegistry::default();
    let a = r.add("Empire".to_string(), [15, 59, 125]);
    let b = r.add("Forest Clan".to_string(), [34, 120, 56]);
    assert_eq!(a, FactionId(0));
    assert_eq!(b, FactionId(1));
    assert_eq!(r.get(b).unwrap().name, "Forest Clan");
    assert_eq!(r.color(a), Some([15, 59, 125]));
    assert_eq!(r.active_ids(), vec![FactionId(0), FactionId(1)]);
}

#[test]
fn faction_remove_leaves_slot_and_queues_id() {
    let mut r = FactionRegistry::default();
    let a = r.add("A".to_string(), [1, 2, 3]);
    let b = r.add("B".to_string(), [4, 5, 6]);
    r.remove(a);
    assert!(r.get(a).is_none());
    assert_eq!(r.color(a), None);
    assert_eq!(r.active_ids(), vec![b]);
    assert!(r.has_deletions());
    assert!(r.was_deleted(a));
    assert!(!r.was_deleted(b));
    let c = r.add("C".to_string(), [7, 8, 9]);
    assert_eq!(c, FactionId(2));
    r.clear_deleted();
    assert!(!r.has_deletions());
    assert!(!r.was_deleted(a));
}

#[test]
fn faction_remove_unknown_id_changes_nothing() {
    let mut r = FactionRegistry::default();
    r.add("A".to_string(), [1, 2, 3]);
    r.remove(FactionId(5));
    assert!(!r.has_deletions());
    assert_eq!(r.active_ids(), vec![FactionId(0)]);
}

#[test]
fn faction_set_color_through_get_mut() {
    let mut r = FactionRegistry::default();
    let a = r.add("A".to_string(), [1, 2, 3]);
    r.get_mut(a).unwrap().color = [9, 9, 9];
    assert_eq!(r.color(a), Some([9, 9, 9]));
    assert!(r.get_mut(FactionId(3)).is_none());
}

#[test]
fn tile_registry_default_definitions() {
    let r = TileRegistry::default();
    let ocean = r.get(TileType::Ocean).unwrap();
    assert_eq!(ocean.template_idx, 7);
    assert_eq!(ocean.priority, 0);
    assert_eq!(ocean.macro_color, [51, 112, 204]);
    assert_eq!(r.get(TileType::Mountain).unwrap().priority, 7);
    assert!(TileRegistry::new().get(TileType::Sand).is_none());
}

#[test]
fn tile_registry_insert_replaces() {
    let mut r = TileRegistry::new();
    r.insert(TileType::Sand, TileDefinition { template_idx: 1, priority: 1, macro_color: [1, 1, 1] });
    r.insert(TileType::Sand, TileDefinition { template_idx: 2, priority: 2, macro_color: [2, 2, 2] });
    assert_eq!(r.get(TileType::Sand).unwrap().template_idx, 2);
    assert!(r.get(TileType::Hill).is_none());
}

#[test]
fn spritesheets_registered_in_order() {
    let mut s = SpritesheetRegistry::default();
    register_spritesheets(&mut s);
    let ordered = s.iter_ordered();
    assert_eq!(ordered.len(), 12);
    assert_eq!(ordered[0].0, SpritesheetID::Terrain);
    assert_eq!(ordered[0].1.path, "art/sprites/tileset.png");
    assert_eq!(ordered[11].0, SpritesheetID::HouseTier6);
    let t1 = s.get(SpritesheetID::HouseTier1).unwrap();
    assert_eq!(t1.grid, UVec2 { x: 4, y: 1 });
    assert_eq!(t1.macro_path, Some("art/sprites/house_tier1_macro.png"));
}

#[test]
fn spritesheet_reregistration_keeps_first_position() {
    let mut s = SpritesheetRegistry::default();
    s.register(SpritesheetID::HouseTier0, "a.png", None, UVec2 { x: 1, y: 1 });
    s.register(SpritesheetID::Terrain, "t.png", None, UVec2 { x: 1, y: 8 });
    s.register(SpritesheetID::HouseTier0, "b.png", None, UVec2 { x: 2, y: 1 });
    let ordered = s.iter_ordered();
    assert_eq!(ordered.len(), 2);
    assert_eq!(ordered[0].0, SpritesheetID::HouseTier0);
    assert_eq!(ordered[0].1.path, "b.png");
    assert_eq!(ordered[1].0, SpritesheetID::Terrain);
}

#[test]
fn prop_registry_default_and_animation() {
    let r = PropRegistry::default();
    let h = r.get(PropType::HumanTribalWalking).unwrap();
    assert_eq!(h.sprite.frame_count(), 4);
    assert_eq!(h.sprite.period(), Some(80));
    assert_eq!(h.sprite.next_frame(3), 0);
    assert_eq!(h.sprite.next_frame(1), 2);
    let house = r.get(PropType::HouseTier5).unwrap();
    assert_eq!(house.size_tiles, UVec2 { x: 4, y: 4 });
    assert_eq!(house.sprite.frame_count(), 1);
    assert_eq!(house.sprite.period(), None);
    assert_eq!(house.sprite.frame_origin(2, 0), UVec2 { x: 2, y: 0 });
}

#[test]
fn house_tiers() {
    assert_eq!(house_tier(PropType::HouseTier0), 0);
    assert_eq!(house_tier(PropType::HouseTier4), 4);
    assert_eq!(house_tier(PropType::HouseTier6), 6);
    assert_eq!(house_tier(PropType::HumanForestWalking), 0);
}

#[test]
fn resolve_variation_clamps_requests() {
    let r = PropRegistry::default();
    assert_eq!(r.resolve_variation_with(PropType::HouseTier1, 1, 0), 0);
    assert_eq!(r.resolve_variation_with(PropType::HouseTier1, 3, 0), 2);
    assert_eq!(r.resolve_variation_with(PropType::HouseTier1, 9, 0), 3);
    assert_eq!(r.resolve_variation_with(PropType::HouseTier1, 0, 7), 3);
    assert_eq!(r.resolve_variation_with(PropType::HouseTier0, 0, 7), 0);
    assert_eq!(r.resolve_variation(PropType::HouseTier2, 2), 1);
}

#[test]
fn resolve_variation_random_stays_in_range_and_varies() {
    let r = PropRegistry::default();
    let mut seen = [false; 4];
    for _ in 0..400 {
        let v = r.resolve_variation(PropType::HouseTier3, 0);
        assert!(v < 4);
        seen[v as usize] = true;
    }
    assert!(seen.iter().filter(|s| **s).count() > 1);
}

#[test]
fn resolve_variation_unregistered_type_has_one_choice() {
    let r = PropRegistry::new();
    assert_eq!(r.resolve_variation(PropType::HouseTier3, 5), 0);
    assert_eq!(r.resolve_variation(PropType::HouseTier3, 0), 0);
}

#[test]
fn prop_registry_insert_custom() {
    let mut r = PropRegistry::new();
    r.insert(
        PropType::HouseTier2,
        PropDefinition {
            sheet_id: SpritesheetID::HouseTier2,
            size_tiles: UVec2 { x: 1, y: 1 },
            sprite: PropSprite::Animated { frame_count: 3, period_ms: 100 },
            variation_count: 2,
        },
    );
    assert_eq!(r.resolve_variation_with(PropType::HouseTier2, 0, 5), 1);
    assert_eq!(r.get(PropType::HouseTier2).unwrap().sprite.next_frame(2), 0);
}

#[test]
fn atlas_index_is_row_times_columns_plus_column() {
    let props = PropRegistry::default();
    let mut sheets = SpritesheetRegistry::default();
    register_spritesheets(&mut sheets);
    assert_eq!(props.atlas_index(PropType::HouseTier1, 3, 0, &sheets), Some(3));
    assert_eq!(props.atlas_index(PropType::HumanImperialWalking, 0, 2, &sheets), Some(2));
    let empty = SpritesheetRegistry::default();
    assert_eq!(props.atlas_index(PropType::HouseTier1, 3, 0, &empty), None);
}

#[test]
fn grid_pos_new() {
    assert_eq!(GridPos::new(3, -4), GridPos(IVec2 { x: 3, y: -4 }));
}

#[test]
fn tool_default_and_mode_switch() {
    let mut t = ToolState::default();
    assert_eq!(t.mode, ToolMode::Tile);
    assert_eq!(t.list_len(), 8);
    assert_eq!(t.selected_tile(), TileType::Ocean);
    t.apply_input(ToolInput { numpad2: true, ..no_keys() }, 0);
    assert_eq!(t.mode, ToolMode::Building);
    assert_eq!(t.list_len(), 7);
    assert_eq!(t.selected_building(), PropType::HouseTier0);
    t.apply_input(ToolInput { numpad3: true, ..no_keys() }, 0);
    assert_eq!(t.list_len(), 4);
    assert_eq!(t.selected_human(), PropType::HumanImperialWalking);
}

#[test]
fn tool_item_cycling_wraps_and_prev_next_restore() {
    let mut t = ToolState::default();
    t.apply_input(ToolInput { numpad4: true, ..no_keys() }, 0);
    assert_eq!(t.item_index, 7);
    assert_eq!(t.selected_tile(), TileType::Mountain);
    t.apply_input(ToolInput { numpad6: true, ..no_keys() }, 0);
    assert_eq!(t.item_index, 0);
    t.apply_input(ToolInput { numpad6: true, ..no_keys() }, 0);
    t.apply_input(ToolInput { numpad6: true, ..no_keys() }, 0);
    assert_eq!(t.selected_tile(), TileType::ShallowWater);
    t.apply_input(ToolInput { numpad4: true, ..no_keys() }, 0);
    t.apply_input(ToolInput { numpad6: true, ..no_keys() }, 0);
    assert_eq!(t.item_index, 2);
}

#[test]
fn tool_switch_resets_item_and_eraser() {
    let mut t = ToolState::default();
    t.apply_input(ToolInput { numpad6: true, numpad8: true, ..no_keys() }, 0);
    assert_eq!(t.item_index, 1);
    assert!(t.eraser_active);
    t.apply_input(ToolInput { numpad1: true, ..no_keys() }, 0);
    assert_eq!(t.item_index, 0);
    assert!(!t.eraser_active);
}

#[test]
fn tool_faction_cycles_through_none_and_active() {
    let mut t = ToolState::default();
    let ids = vec![FactionId(0), FactionId(3)];
    assert_eq!(t.selected_faction(&ids), None);
    t.apply_input(ToolInput { numpad0: true, ..no_keys() }, 2);
    assert_eq!(t.selected_faction(&ids), Some(FactionId(0)));
    t.apply_input(ToolInput { numpad0: true, ..no_keys() }, 2);
    assert_eq!(t.selected_faction(&ids), Some(FactionId(3)));
    t.apply_input(ToolInput { numpad0: true, ..no_keys() }, 2);
    assert_eq!(t.faction_index, 0);
    assert_eq!(t.selected_faction(&ids), None);
    t.faction_index = 5;
    assert_eq!(t.selected_faction(&ids), Some(FactionId(0)));
    assert_eq!(t.selected_faction(&vec![]), None);
}

#[test]
fn tool_selection_clamps_past_list() {
    let t = ToolState { mode: ToolMode::Human, item_index: 20, faction_index: 0, eraser_active: false };
    assert_eq!(t.selected_human(), PropType::HumanTribalWalking);
    assert_eq!(t.selected_building(), PropType::HouseTier6);
    assert_eq!(t.selected_tile(), TileType::Mountain);
}

#[test]
fn tool_actions() {
    let mut t = ToolState::default();
    assert_eq!(t.action(false, false), ToolAction::Nothing);
    assert_eq!(t.action(true, false), ToolAction::PaintTile(TileType::Ocean));
    t.apply_input(ToolInput { numpad2: true, ..no_keys() }, 0);
    assert_eq!(t.action(true, false), ToolAction::Nothing);
    assert_eq!(t.action(true, true), ToolAction::PlaceBuilding(PropType::HouseTier0));
    t.apply_input(ToolInput { numpad3: true, numpad6: true, ..no_keys() }, 0);
    assert_eq!(t.action(true, true), ToolAction::PlaceHuman(PropType::HumanForestWalking));
    t.apply_input(ToolInput { numpad8: true, ..no_keys() }, 0);
    assert_eq!(t.action(true, false), ToolAction::Erase);
}

#[test]
fn interior_cell_excludes_border() {
    assert_eq!(interior_cell(IVec2 { x: 1, y: 1 }, 10, 10), Some((1, 1)));
    assert_eq!(interior_cell(IVec2 { x: 8, y: 8 }, 10, 10), Some((8, 8)));
    assert_eq!(interior_cell(IVec2 { x: 0, y: 5 }, 10, 10), None);
    assert_eq!(interior_cell(IVec2 { x: 9, y: 5 }, 10, 10), None);
    assert_eq!(interior_cell(IVec2 { x: 5, y: -3 }, 10, 10), None);
    assert_eq!(interior_cell(IVec2 { x: 1, y: 1 }, 2, 2), None);
}

#[test]
fn small_value_types() {
    assert_eq!(BuildingColor::default().color, [200, 200, 200]);
    assert_eq!(MacroMapEntity::with_faction_color([1, 2, 3]).color, [1, 2, 3, 255]);
    assert_eq!(ChunkCoord { cx: 3, cy: 2 }.flat_index(110), 223);
    assert_eq!(House::of_prop(PropType::HouseTier3), House { tier: 3 });
    assert_eq!(atlas_cell_size(64, 33, UVec2 { x: 4, y: 1 }), UVec2 { x: 16, y: 33 });
    let mut r = FactionRegistry::default();
    r.add("A".to_string(), [0, 0, 0]);
    r.remove(FactionId(0));
    assert_eq!(r.slot_count(), 1);
}

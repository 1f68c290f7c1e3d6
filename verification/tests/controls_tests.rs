use arc_maze::controls::{
    equip_selected_bag_item, interact_system, pause_return_to_menu, pause_toggle_settings, sync_window_cursor, take_selected_chest_item,
    ui_toggle_system, CollisionDebugSettings,
    MenuFocusState, MenuFocusTarget, OpenChest, UIFlags, UISelection, UiKeys,
};
use arc_maze::inventory::{BagGrid, Chest, ChestTier, Equipment};
use arc_maze::items::{consumable_item, equipment_item, ConsumableKind, EquipSlot, Item, Rarity, WeaponKind};
use arc_maze::menu::{AppState, PlayerWallet};
use arc_maze::stats::PlayerStats;

fn keys() -> UiKeys {
    UiKeys { tab: false, key_e: false, escape: false, key_v: false, key_c: false, f3: false, f4: false }
}

fn potion() -> Item {
    consumable_item(Rarity::Common, ConsumableKind::SmallHeal)
}

fn press(k: &UiKeys, flags: &mut UIFlags, open: &OpenChest, focus: &mut MenuFocusState) -> bool {
    let mut third = false;
    let mut dbg = CollisionDebugSettings::default();
    let fx = ui_toggle_system(k, flags, open, focus, &mut third, &mut dbg);
    fx.flip_shoulder
}

#[test]
fn tab_toggles_inventory_and_focus() {
    let mut flags = UIFlags::default();
    let mut focus = MenuFocusState::default();
    let open = OpenChest::default();
    let tab = UiKeys { tab: true, ..keys() };
    press(&tab, &mut flags, &open, &mut focus);
    assert!(flags.inventory_open);
    assert_eq!(focus.target, Some(MenuFocusTarget::Inventory));
    assert!(focus.pending);
    focus.pending = false;
    press(&tab, &mut flags, &open, &mut focus);
    assert!(!flags.inventory_open);
    // nothing else to focus: the request stays as it was
    assert!(!focus.pending);
}

#[test]
fn closing_a_window_hands_focus_to_the_open_chest() {
    let mut flags = UIFlags { inventory_open: true, ..UIFlags::default() };
    let mut focus = MenuFocusState::default();
    let open = OpenChest(Some(77));
    press(&UiKeys { tab: true, ..keys() }, &mut flags, &open, &mut focus);
    assert_eq!(focus.target, Some(MenuFocusTarget::Chest(77)));
}

#[test]
fn closing_spells_returns_to_inventory() {
    let mut flags = UIFlags { inventory_open: true, spell_menu_open: true, ..UIFlags::default() };
    let mut focus = MenuFocusState::default();
    press(&UiKeys { key_e: true, ..keys() }, &mut flags, &OpenChest::default(), &mut focus);
    assert!(!flags.spell_menu_open);
    assert_eq!(focus.target, Some(MenuFocusTarget::Inventory));
}

#[test]
fn escape_closes_pause_and_its_settings() {
    let mut flags = UIFlags { pause_menu_open: true, pause_settings_open: true, spell_menu_open: true, ..UIFlags::default() };
    let mut focus = MenuFocusState::default();
    press(&UiKeys { escape: true, ..keys() }, &mut flags, &OpenChest::default(), &mut focus);
    assert!(!flags.pause_menu_open);
    assert!(!flags.pause_settings_open);
    assert_eq!(focus.target, Some(MenuFocusTarget::Spells));
    press(&UiKeys { escape: true, ..keys() }, &mut flags, &OpenChest::default(), &mut focus);
    assert!(flags.pause_menu_open);
    assert_eq!(focus.target, Some(MenuFocusTarget::Pause));
}

#[test]
fn pressing_twice_restores_the_windows() {
    let start = UIFlags { inventory_open: true, ..UIFlags::default() };
    for k in [UiKeys { tab: true, ..keys() }, UiKeys { key_e: true, ..keys() }, UiKeys { escape: true, ..keys() }] {
        let mut flags = UIFlags { ..start };
        let mut focus = MenuFocusState::default();
        press(&k, &mut flags, &OpenChest::default(), &mut focus);
        press(&k, &mut flags, &OpenChest::default(), &mut focus);
        assert_eq!(
            (flags.inventory_open, flags.spell_menu_open, flags.pause_menu_open, flags.pause_settings_open),
            (start.inventory_open, start.spell_menu_open, start.pause_menu_open, start.pause_settings_open)
        );
    }
}

#[test]
fn camera_and_debug_keys() {
    let mut flags = UIFlags::default();
    let mut focus = MenuFocusState::default();
    let mut third = false;
    let mut dbg = CollisionDebugSettings::default();
    let k = UiKeys { key_v: true, key_c: true, f3: true, f4: true, ..keys() };
    let fx = ui_toggle_system(&k, &mut flags, &OpenChest::default(), &mut focus, &mut third, &mut dbg);
    assert!(third);
    assert!(dbg.enabled);
    assert!(fx.flip_shoulder);
    assert!(fx.clear_snag_markers);
    let fx = ui_toggle_system(&keys(), &mut flags, &OpenChest::default(), &mut focus, &mut third, &mut dbg);
    assert!(third && dbg.enabled && !fx.flip_shoulder && !fx.clear_snag_markers);
}

#[test]
fn interacting_opens_claims_gold_and_closes() {
    let mut open = OpenChest::default();
    let mut focus = MenuFocusState::default();
    let mut wallet = PlayerWallet { gold: 100 };
    let mut chest = Chest { items: vec![potion()], gold: 40, tier: ChestTier::Rare };
    let gained = interact_system(&mut open, &mut focus, &mut wallet, Some(9), &mut chest);
    assert_eq!(gained, 40);
    assert_eq!(wallet.gold, 140);
    assert_eq!(chest.gold, 0);
    assert_eq!(open.0, Some(9));
    assert_eq!(focus.target, Some(MenuFocusTarget::Chest(9)));
    // the same chest again: it closes, no more gold
    let gained = interact_system(&mut open, &mut focus, &mut wallet, Some(9), &mut chest);
    assert_eq!(gained, 0);
    assert_eq!(open.0, None);
    assert_eq!(wallet.gold, 140);
    // reopening finds the gold already claimed
    let gained = interact_system(&mut open, &mut focus, &mut wallet, Some(9), &mut chest);
    assert_eq!(gained, 0);
    assert_eq!(open.0, Some(9));
    // nothing in reach closes the window
    interact_system(&mut open, &mut focus, &mut wallet, None, &mut chest);
    assert_eq!(open.0, None);
}

#[test]
fn taking_from_a_chest() {
    let mut sel = UISelection::default();
    let mut chest = Chest {
        items: vec![potion(), equipment_item(Rarity::Common, EquipSlot::TwoHanded, Some(WeaponKind::Scythe), &vec![(0, 2)])],
        gold: 0,
        tier: ChestTier::Common,
    };
    let mut bag = BagGrid::new(2, 2);
    sel.selected_chest_idx = Some(1);
    assert!(!take_selected_chest_item(&mut sel, &mut chest, &mut bag));
    assert_eq!(chest.items.len(), 2);
    assert_eq!(chest.items[1].name, "Scythe");
    assert!(sel.selected_chest_idx.is_none());
    sel.selected_chest_idx = Some(0);
    assert!(take_selected_chest_item(&mut sel, &mut chest, &mut bag));
    assert_eq!(chest.items.len(), 1);
    assert_eq!(bag.cells[0].as_ref().unwrap().name, "Small Heal Potion");
    sel.selected_chest_idx = Some(5);
    assert!(!take_selected_chest_item(&mut sel, &mut chest, &mut bag));
    assert!(!take_selected_chest_item(&mut sel, &mut chest, &mut bag));
}

#[test]
fn equipping_the_selected_bag_item() {
    let mut sel = UISelection::default();
    let mut bag = BagGrid::new(4, 4);
    let mut equip = Equipment::default();
    let mut ps = PlayerStats::default();
    equip.gloves = Some(equipment_item(Rarity::Common, EquipSlot::Gloves, None, &vec![(1, 1)]));
    bag.place(2, 1, equipment_item(Rarity::Rare, EquipSlot::Gloves, None, &vec![(1, 4), (0, 2), (3, -1)]));
    sel.selected_bag_cell = Some((2, 1));
    assert!(equip_selected_bag_item(&mut sel, &mut bag, &mut equip, &mut ps));
    assert!(sel.selected_bag_cell.is_none());
    assert_eq!(equip.gloves.as_ref().unwrap().rarity, Rarity::Rare);
    // the old gloves went back into the bag at its first fit
    assert_eq!(bag.cells[0].as_ref().unwrap().rarity, Rarity::Common);
    assert!(bag.cells[1 * 4 + 2].is_none());
    assert_eq!((ps.bonus.strength, ps.bonus.vigor, ps.bonus.magic), (4, 2, -1));
    // nothing selected, or an empty cell: nothing happens
    assert!(!equip_selected_bag_item(&mut sel, &mut bag, &mut equip, &mut ps));
    sel.selected_bag_cell = Some((3, 3));
    assert!(!equip_selected_bag_item(&mut sel, &mut bag, &mut equip, &mut ps));
}

#[test]
fn pause_menu_buttons() {
    assert_eq!(AppState::default(), AppState::Menu);
    let mut flags = UIFlags::default();
    // the pause menu is closed: its buttons do nothing
    pause_toggle_settings(&mut flags);
    assert!(!flags.pause_settings_open);
    assert_eq!(pause_return_to_menu(&mut flags), None);
    flags.pause_menu_open = true;
    pause_toggle_settings(&mut flags);
    assert!(flags.pause_settings_open);
    pause_toggle_settings(&mut flags);
    assert!(!flags.pause_settings_open);
    pause_toggle_settings(&mut flags);
    flags.inventory_open = true;
    assert_eq!(pause_return_to_menu(&mut flags), Some(AppState::Menu));
    assert!(!flags.pause_menu_open && !flags.pause_settings_open && flags.inventory_open);
}

#[test]
fn cursor_follows_the_menus() {
    let mut focus = MenuFocusState { target: Some(MenuFocusTarget::Inventory), pending: true };
    let closed = UIFlags::default();
    // in the maze with nothing open the cursor is grabbed and the request waits
    assert_eq!(sync_window_cursor(AppState::InGame, &closed, &OpenChest::default(), &mut focus), (false, false));
    assert!(focus.pending);
    // an open chest frees it and serves the request once
    assert_eq!(sync_window_cursor(AppState::InGame, &closed, &OpenChest(Some(3)), &mut focus), (true, true));
    assert!(!focus.pending);
    assert_eq!(focus.target, Some(MenuFocusTarget::Inventory));
    assert_eq!(sync_window_cursor(AppState::InGame, &closed, &OpenChest(Some(3)), &mut focus), (true, false));
    // the start screen always has the cursor
    assert_eq!(sync_window_cursor(AppState::Menu, &closed, &OpenChest::default(), &mut focus), (true, false));
    let paused = UIFlags { pause_menu_open: true, ..UIFlags::default() };
    assert_eq!(sync_window_cursor(AppState::InGame, &paused, &OpenChest::default(), &mut focus).0, true);
}

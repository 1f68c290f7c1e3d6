use arc_maze::inventory::{BagGrid, ChestTier, Equipment};
use arc_maze::items::{consumable_item, equipment_item, ConsumableKind, EquipSlot, Item, Rarity, WeaponKind};
use arc_maze::menu::{
    buy_merchant_item, chest_tier_name, equip_menu_item_from_bag, equip_menu_item_from_stash, equipped_item_for_slot,
    first_empty_slot, format_signed_i32, matches_trader_filter, menu_equipment_slots, merchant_refresh_cost,
    move_bag_item_to_stash, move_stash_item_to_bag, pick_up_gold, place_item_in_menu_storage, push_buyback_item, rebuy_item,
    recompute_menu_stats, sell_stash_item, sync_player_stats_from_equipment, take_equipped_item, try_refresh_merchant,
    unequip_menu_slot, MerchantBuyback, MerchantState, MerchantStore, PlayerWallet, Stash, StartMenuState,
    StartMenuTab, TraderShelfFilter, first_max_index, lower_attribute, merchant_item_score, press_play, raise_attribute,
    refresh_fill_chance, refresh_merchant_inventory, refresh_stock, restock, AppState, Attribute, OPENING_STOCK_FILL_PERCENT,
    OPENING_STOCK_SEED, apply_trader_clicks, TraderClicks,
};
use arc_maze::rng::Dice;
use arc_maze::stats::{PlayerStats, Stats};

fn potion() -> Item {
    consumable_item(Rarity::Common, ConsumableKind::SmallHeal)
}

fn gloves(str_bonus: i32) -> Item {
    equipment_item(Rarity::Common, EquipSlot::Gloves, None, &vec![(1, str_bonus)])
}

fn weapon(slot: EquipSlot, kind: WeaponKind) -> Item {
    equipment_item(Rarity::Common, slot, Some(kind), &vec![(2, 1)])
}

fn fresh_stats() -> PlayerStats {
    PlayerStats::default()
}

#[test]
fn defaults() {
    let stash = Stash::default();
    assert_eq!(stash.slots.len(), 100);
    assert!(stash.slots.iter().all(|s| s.is_none()));
    assert_eq!(PlayerWallet::default().gold, 180);
    let ms = MerchantState::default();
    assert_eq!(ms.refreshes_remaining, 3);
    assert_eq!(ms.refresh_seed, 0xA11C_E551);
    assert!(MerchantBuyback::default().items.is_empty());
    let menu = StartMenuState::default();
    assert_eq!(menu.active, StartMenuTab::Main);
    assert_eq!(menu.trader_filter, TraderShelfFilter::All);
    let ps = PlayerStats::default();
    assert_eq!(ps.base, Stats::base());
    assert_eq!(ps.bonus, Stats { vigor: 0, strength: 0, agility: 0, magic: 0, endurance: 0 });
}

#[test]
fn initial_stock_is_fixed() {
    let a = MerchantStore::default();
    let b = MerchantStore::default();
    assert_eq!(a.slots.len(), 48);
    let na: Vec<Option<String>> = a.slots.iter().map(|s| s.as_ref().map(|i| i.name.clone())).collect();
    let nb: Vec<Option<String>> = b.slots.iter().map(|s| s.as_ref().map(|i| i.name.clone())).collect();
    assert_eq!(na, nb);
    let filled = a.slots.iter().filter(|s| s.is_some()).count();
    assert!(filled > 10 && filled < 40);
}

#[test]
fn first_empty() {
    let mut v: Vec<Option<Item>> = vec![Some(potion()), None, None];
    assert_eq!(first_empty_slot(&v), Some(1));
    v[1] = Some(potion());
    v[2] = Some(potion());
    assert_eq!(first_empty_slot(&v), None);
}

#[test]
fn signed_numbers() {
    assert_eq!(format_signed_i32(5), "+5");
    assert_eq!(format_signed_i32(0), "+0");
    assert_eq!(format_signed_i32(-37), "-37");
    assert_eq!(format_signed_i32(i32::MIN), "-2147483648");
}

#[test]
fn chest_tier_names() {
    assert_eq!(chest_tier_name(ChestTier::Common), "Common");
    assert_eq!(chest_tier_name(ChestTier::Rare), "Rare");
    assert_eq!(chest_tier_name(ChestTier::Epic), "Epic");
    assert_eq!(chest_tier_name(ChestTier::Royal), "Royal");
}

#[test]
fn trader_filters() {
    let w = weapon(EquipSlot::MainHand, WeaponKind::Dagger);
    let g = gloves(2);
    let p = potion();
    let premium = equipment_item(Rarity::Legendary, EquipSlot::Hat, None, &vec![(0, 7), (1, 7)]);
    assert!(matches_trader_filter(&w, TraderShelfFilter::Weapons));
    assert!(!matches_trader_filter(&g, TraderShelfFilter::Weapons));
    assert!(matches_trader_filter(&g, TraderShelfFilter::Gear));
    assert!(!matches_trader_filter(&w, TraderShelfFilter::Gear));
    assert!(matches_trader_filter(&p, TraderShelfFilter::Consumables));
    assert!(!matches_trader_filter(&p, TraderShelfFilter::Premium));
    assert!(matches_trader_filter(&premium, TraderShelfFilter::Premium));
    assert!(matches_trader_filter(&p, TraderShelfFilter::All));
}

#[test]
fn equipment_slot_labels() {
    let slots = menu_equipment_slots();
    assert_eq!(slots.len(), 12);
    assert_eq!(slots[0].0, "Watch");
    assert_eq!(slots[6].0, "Hat");
    assert!(slots.iter().any(|(label, slot)| *label == "Two Handed" && *slot == EquipSlot::TwoHanded));
    assert!(slots.iter().any(|(label, slot)| *label == "Main Hand" && *slot == EquipSlot::MainHand));
}

#[test]
fn slot_access() {
    let mut e = Equipment::default();
    e.gloves = Some(gloves(3));
    assert_eq!(equipped_item_for_slot(&e, EquipSlot::Gloves).unwrap().mods.strength, 3);
    assert!(equipped_item_for_slot(&e, EquipSlot::Hat).is_none());
    let taken = take_equipped_item(&mut e, EquipSlot::Gloves).unwrap();
    assert_eq!(taken.mods.strength, 3);
    assert!(e.gloves.is_none());
}

#[test]
fn storage_prefers_stash_or_bag() {
    let mut bag = BagGrid::new(2, 2);
    let mut stash = Stash::default();
    assert!(place_item_in_menu_storage(potion(), &mut bag, &mut stash, true).is_ok());
    assert!(stash.slots[0].is_some());
    assert!(bag.cells.iter().all(|c| c.is_none()));
    assert!(place_item_in_menu_storage(potion(), &mut bag, &mut stash, false).is_ok());
    assert!(bag.cells[0].is_some());
    assert!(stash.slots[1].is_none());
}

#[test]
fn storage_hands_back_when_full() {
    let mut bag = BagGrid::new(1, 1);
    bag.place(0, 0, potion());
    let mut stash = Stash { slots: vec![Some(potion())] };
    let r = place_item_in_menu_storage(gloves(1), &mut bag, &mut stash, false);
    assert_eq!(r.unwrap_err().mods.strength, 1);
}

#[test]
fn stats_follow_equipment() {
    let mut e = Equipment::default();
    e.gloves = Some(gloves(4));
    let mut ps = fresh_stats();
    recompute_menu_stats(&mut ps, &e);
    assert_eq!(ps.bonus.strength, 4);
    assert_eq!(ps.total().strength, 9);
    assert!(!sync_player_stats_from_equipment(&e, &mut ps));
    e.gloves = None;
    assert!(sync_player_stats_from_equipment(&e, &mut ps));
    assert_eq!(ps.bonus.strength, 0);
}

#[test]
fn equip_from_bag_moves_displaced_item_to_stash() {
    let mut bag = BagGrid::new(5, 14);
    let mut stash = Stash::default();
    let mut e = Equipment::default();
    let mut ps = fresh_stats();
    e.gloves = Some(gloves(1));
    bag.place(0, 0, gloves(6));
    equip_menu_item_from_bag(0, &mut bag, &mut stash, &mut e, &mut ps);
    assert!(bag.cells[0].is_none());
    assert_eq!(e.gloves.as_ref().unwrap().mods.strength, 6);
    assert_eq!(stash.slots[0].as_ref().unwrap().mods.strength, 1);
    assert_eq!(ps.bonus.strength, 6);
}

#[test]
fn equip_from_bag_ignores_items_without_slot() {
    let mut bag = BagGrid::new(2, 2);
    let mut stash = Stash::default();
    let mut e = Equipment::default();
    let mut ps = fresh_stats();
    bag.place(1, 0, potion());
    equip_menu_item_from_bag(1, &mut bag, &mut stash, &mut e, &mut ps);
    assert!(bag.cells[1].is_some());
    equip_menu_item_from_bag(3, &mut bag, &mut stash, &mut e, &mut ps);
    equip_menu_item_from_bag(40, &mut bag, &mut stash, &mut e, &mut ps);
    assert!(stash.slots.iter().all(|s| s.is_none()));
}

#[test]
fn equip_from_stash_keeps_displaced_in_its_slot_when_full() {
    let mut bag = BagGrid::new(1, 1);
    bag.place(0, 0, potion());
    let mut stash = Stash { slots: vec![Some(gloves(5))] };
    let mut e = Equipment::default();
    e.gloves = Some(gloves(2));
    let mut ps = fresh_stats();
    equip_menu_item_from_stash(0, &mut bag, &mut stash, &mut e, &mut ps);
    assert_eq!(e.gloves.as_ref().unwrap().mods.strength, 5);
    assert_eq!(stash.slots[0].as_ref().unwrap().mods.strength, 2);
    assert_eq!(ps.bonus.strength, 5);
}

#[test]
fn unequip_goes_to_bag_then_stash() {
    let mut bag = BagGrid::new(2, 2);
    let mut stash = Stash::default();
    let mut e = Equipment::default();
    e.gloves = Some(gloves(3));
    let mut ps = fresh_stats();
    recompute_menu_stats(&mut ps, &e);
    unequip_menu_slot(EquipSlot::Gloves, &mut bag, &mut stash, &mut e, &mut ps);
    assert!(e.gloves.is_none());
    assert_eq!(bag.cells[0].as_ref().unwrap().mods.strength, 3);
    assert_eq!(ps.bonus.strength, 0);
}

#[test]
fn unequip_with_nowhere_to_go_keeps_the_item() {
    let mut bag = BagGrid::new(1, 1);
    bag.place(0, 0, potion());
    let mut stash = Stash { slots: vec![] };
    let mut e = Equipment::default();
    e.gloves = Some(gloves(3));
    let mut ps = fresh_stats();
    recompute_menu_stats(&mut ps, &e);
    unequip_menu_slot(EquipSlot::Gloves, &mut bag, &mut stash, &mut e, &mut ps);
    assert_eq!(e.gloves.as_ref().unwrap().mods.strength, 3);
    assert_eq!(ps.bonus.strength, 3);
}

#[test]
fn moving_between_bag_and_stash() {
    let mut bag = BagGrid::new(2, 2);
    let mut stash = Stash::default();
    bag.place(1, 1, potion());
    move_bag_item_to_stash(3, &mut bag, &mut stash);
    assert!(bag.cells[3].is_none());
    assert!(stash.slots[0].is_some());
    move_stash_item_to_bag(0, &mut bag, &mut stash);
    assert!(stash.slots[0].is_none());
    assert!(bag.cells[0].is_some());
    // an empty or out-of-range slot changes nothing
    move_stash_item_to_bag(5, &mut bag, &mut stash);
    move_bag_item_to_stash(99, &mut bag, &mut stash);
    assert_eq!(bag.cells.iter().filter(|c| c.is_some()).count(), 1);
}

#[test]
fn refresh_costs_rise_and_run_out() {
    let mut state = MerchantState::default();
    let mut wallet = PlayerWallet { gold: 1000 };
    assert_eq!(merchant_refresh_cost(&state), 40);
    assert!(try_refresh_merchant(&mut state, &mut wallet));
    assert_eq!(wallet.gold, 960);
    assert_eq!(state.refreshes_remaining, 2);
    assert_eq!(state.refresh_seed, 10114697524324055279);
    assert_eq!(merchant_refresh_cost(&state), 58);
    assert!(try_refresh_merchant(&mut state, &mut wallet));
    assert_eq!(merchant_refresh_cost(&state), 76);
    assert!(try_refresh_merchant(&mut state, &mut wallet));
    assert_eq!(wallet.gold, 1000 - 40 - 58 - 76);
    assert_eq!(state.refreshes_remaining, 0);
    let before = state;
    assert!(!try_refresh_merchant(&mut state, &mut wallet));
    assert_eq!(state, before);
}

#[test]
fn refresh_refused_when_poor() {
    let mut state = MerchantState::default();
    let mut wallet = PlayerWallet { gold: 39 };
    assert!(!try_refresh_merchant(&mut state, &mut wallet));
    assert_eq!(wallet.gold, 39);
    assert_eq!(state.refreshes_remaining, 3);
}

#[test]
fn buyback_shelf_keeps_sixteen_newest() {
    let mut b = MerchantBuyback::default();
    for i in 0..20 {
        push_buyback_item(&mut b, gloves(i));
    }
    assert_eq!(b.items.len(), 16);
    assert_eq!(b.items[0].mods.strength, 19);
    assert_eq!(b.items[15].mods.strength, 4);
}

#[test]
fn sell_then_rebuy() {
    let mut stash = Stash::default();
    stash.slots[2] = Some(gloves(7));
    let mut buyback = MerchantBuyback::default();
    let mut wallet = PlayerWallet { gold: 10 };
    sell_stash_item(2, 25, &mut stash, &mut buyback, &mut wallet);
    assert!(stash.slots[2].is_none());
    assert_eq!(wallet.gold, 35);
    assert_eq!(buyback.items[0].mods.strength, 7);
    let mut bag = BagGrid::new(3, 3);
    rebuy_item(0, 30, &mut buyback, &mut bag, &mut wallet);
    assert_eq!(wallet.gold, 5);
    assert!(buyback.items.is_empty());
    assert_eq!(bag.cells[0].as_ref().unwrap().mods.strength, 7);
    // selling an empty slot does nothing
    sell_stash_item(2, 25, &mut stash, &mut buyback, &mut wallet);
    assert_eq!(wallet.gold, 5);
}

#[test]
fn rebuy_refused_when_poor() {
    let mut buyback = MerchantBuyback { items: vec![gloves(1)] };
    let mut bag = BagGrid::new(3, 3);
    let mut wallet = PlayerWallet { gold: 5 };
    rebuy_item(0, 6, &mut buyback, &mut bag, &mut wallet);
    assert_eq!(buyback.items.len(), 1);
    assert_eq!(wallet.gold, 5);
}

#[test]
fn buying_from_the_shelf() {
    let mut merchant = MerchantStore { slots: vec![Some(gloves(2)), None, Some(weapon(EquipSlot::TwoHanded, WeaponKind::Scythe))] };
    let mut bag = BagGrid::new(2, 2);
    let mut wallet = PlayerWallet { gold: 50 };
    buy_merchant_item(0, 20, &mut merchant, &mut bag, &mut wallet);
    assert_eq!(wallet.gold, 30);
    assert!(merchant.slots[0].is_none());
    assert!(bag.cells[0].is_some());
    // the scythe (2x4) does not fit a 2x2 bag
    buy_merchant_item(2, 10, &mut merchant, &mut bag, &mut wallet);
    assert_eq!(wallet.gold, 30);
    assert!(merchant.slots[2].is_some());
    // too expensive
    let mut merchant2 = MerchantStore { slots: vec![Some(potion())] };
    buy_merchant_item(0, 31, &mut merchant2, &mut bag, &mut wallet);
    assert!(merchant2.slots[0].is_some());
    assert_eq!(wallet.gold, 30);
}

#[test]
fn moves_between_bag_and_stash_keep_every_item() {
    let mut bag = BagGrid::new(3, 3);
    let mut stash = Stash { slots: vec![None, Some(gloves(9)), None] };
    bag.place(0, 0, potion());
    bag.place(2, 1, gloves(4));
    let count = |bag: &BagGrid, stash: &Stash| {
        bag.cells.iter().filter(|c| c.is_some()).count() + stash.slots.iter().filter(|c| c.is_some()).count()
    };
    assert_eq!(count(&bag, &stash), 3);
    move_bag_item_to_stash(5, &mut bag, &mut stash);
    assert_eq!(count(&bag, &stash), 3);
    assert_eq!(stash.slots[0].as_ref().unwrap().mods.strength, 4);
    move_stash_item_to_bag(1, &mut bag, &mut stash);
    assert_eq!(count(&bag, &stash), 3);
    move_bag_item_to_stash(0, &mut bag, &mut stash);
    move_bag_item_to_stash(1, &mut bag, &mut stash);
    assert_eq!(count(&bag, &stash), 3);
}

#[test]
fn picking_up_gold() {
    let mut wallet = PlayerWallet::default();
    assert!(pick_up_gold(&mut wallet, 25));
    assert_eq!(wallet.gold, 205);
    assert!(!pick_up_gold(&mut wallet, 0));
    assert!(!pick_up_gold(&mut wallet, -7));
    assert_eq!(wallet.gold, 205);
}

#[test]
fn attribute_buttons_step_by_one_and_stop_at_one() {
    let mut s = Stats::base();
    let start = s;
    raise_attribute(&mut s, Attribute::Magic);
    assert_eq!(s.magic, start.magic + 1);
    lower_attribute(&mut s, Attribute::Magic);
    assert_eq!(s, start);
    let mut low = Stats { vigor: 1, strength: 2, agility: 0, magic: 5, endurance: 5 };
    lower_attribute(&mut low, Attribute::Vigor);
    assert_eq!(low.vigor, 1);
    lower_attribute(&mut low, Attribute::Strength);
    assert_eq!(low.strength, 1);
    lower_attribute(&mut low, Attribute::Agility);
    assert_eq!(low.agility, 1);
    assert_eq!((low.magic, low.endurance), (5, 5));
}

#[test]
fn play_takes_the_edited_attributes() {
    let mut ps = PlayerStats::default();
    let bonus = ps.bonus;
    let edited = Stats { vigor: 7, strength: 4, agility: 5, magic: 5, endurance: 6 };
    assert_eq!(press_play(&mut ps, edited), AppState::InGame);
    assert_eq!(ps.base, edited);
    assert_eq!(ps.bonus, bonus);
}

#[test]
fn wallet_never_goes_negative_through_the_trader() {
    let mut wallet = PlayerWallet { gold: 10 };
    let mut merchant = MerchantStore { slots: vec![Some(consumable_item(Rarity::Common, ConsumableKind::SmallHeal))] };
    let mut bag = BagGrid::new(2, 2);
    buy_merchant_item(0, 11, &mut merchant, &mut bag, &mut wallet);
    assert_eq!(wallet.gold, 10);
    buy_merchant_item(0, 10, &mut merchant, &mut bag, &mut wallet);
    assert_eq!(wallet.gold, 0);
    let mut state = MerchantState { refreshes_remaining: 3, refresh_seed: 1 };
    assert!(!try_refresh_merchant(&mut state, &mut wallet));
    assert_eq!(wallet.gold, 0);
}

#[test]
fn refresh_fill_chance_rises_with_refreshes_used() {
    let chance = |r: u8| refresh_fill_chance(&MerchantState { refreshes_remaining: r, refresh_seed: 0 });
    assert_eq!(chance(3), 68);
    assert_eq!(chance(2), 75);
    assert_eq!(chance(1), 82);
    assert_eq!(chance(0), 89);
    assert_eq!(chance(9), 68);
}

#[test]
fn stock_scores_and_best_pick() {
    let c = consumable_item(Rarity::Legendary, ConsumableKind::BigHeal);
    assert_eq!(merchant_item_score(&c, 37), 537);
    let u = consumable_item(Rarity::Unique, ConsumableKind::BigHeal);
    assert_eq!(merchant_item_score(&u, -5), 795);
    assert_eq!(first_max_index(&vec![3, 9, 2, 9, 1]), 1);
    assert_eq!(first_max_index(&vec![4]), 0);
    assert_eq!(first_max_index(&vec![-1, -1, 0]), 2);
}

#[test]
fn refresh_rerolls_the_stock_from_the_new_seed() {
    let mut merchant = MerchantStore { slots: vec![None; 48] };
    let mut state = MerchantState { refreshes_remaining: 3, refresh_seed: 42 };
    let mut wallet = PlayerWallet { gold: 100 };
    let value = |_: &Item| 0;
    assert!(refresh_stock(&mut merchant, &mut state, &mut wallet, &value));
    assert_eq!(wallet.gold, 60);
    assert_eq!(state.refreshes_remaining, 2);
    assert_eq!(merchant.slots.len(), 48);
    let filled = merchant.slots.iter().filter(|s| s.is_some()).count();
    assert!(filled > 0 && filled < 48);
    // the same seed and state give the same stock
    let mut again = MerchantStore { slots: vec![None; 48] };
    refresh_merchant_inventory(&mut again, state.refresh_seed, &state, &value);
    let names = |m: &MerchantStore| m.slots.iter().map(|s| s.as_ref().map(|i| i.name.clone())).collect::<Vec<_>>();
    assert_eq!(names(&again), names(&merchant));
    // too poor: nothing changes
    let mut poor = PlayerWallet { gold: 10 };
    let before = names(&merchant);
    assert!(!refresh_stock(&mut merchant, &mut state, &mut poor, &value));
    assert_eq!(poor.gold, 10);
    assert_eq!(names(&merchant), before);
}

#[test]
fn opening_stock_is_rolled_from_its_seed() {
    let names = |m: &MerchantStore| m.slots.iter().map(|s| s.as_ref().map(|i| i.name.clone())).collect::<Vec<_>>();
    let a = MerchantStore::default();
    let b = MerchantStore::roll_opening(&mut Dice::from_seed(OPENING_STOCK_SEED));
    assert_eq!(names(&a), names(&b));
    assert_eq!(a.slots.len(), 48);
    assert_eq!(OPENING_STOCK_FILL_PERCENT, 52);
    let filled = a.slots.iter().filter(|s| s.is_some()).count();
    assert!(filled > 10 && filled < 40);
}

#[test]
fn restock_matches_a_refresh_from_the_same_seed() {
    let names = |m: &MerchantStore| m.slots.iter().map(|s| s.as_ref().map(|i| i.name.clone())).collect::<Vec<_>>();
    let state = MerchantState { refreshes_remaining: 1, refresh_seed: 77 };
    let value = |it: &Item| it.size.0 as i32 * 10;
    let mut a = MerchantStore { slots: vec![None; 20] };
    refresh_merchant_inventory(&mut a, 77, &state, &value);
    let mut b = MerchantStore { slots: vec![None; 20] };
    restock(&mut b, &mut Dice::from_seed(77), &state, &value);
    assert_eq!(names(&a), names(&b));
    assert_eq!(a.slots.len(), 20);
}

#[test]
fn one_frame_of_trader_clicks_keeps_the_wallet_out_of_debt() {
    let mut merchant = MerchantStore { slots: vec![Some(consumable_item(Rarity::Common, ConsumableKind::SmallHeal)); 4] };
    let mut state = MerchantState { refreshes_remaining: 3, refresh_seed: 5 };
    let mut wallet = PlayerWallet { gold: 45 };
    let mut stash = Stash { slots: vec![Some(consumable_item(Rarity::Rare, ConsumableKind::BigBandage)), None] };
    let mut buyback = MerchantBuyback { items: vec![] };
    let mut bag = BagGrid::new(3, 3);
    let clicks = TraderClicks { refresh: true, sell: Some((0, 7)), buy: Some((1, 13)), rebuy: Some((0, 3)) };
    apply_trader_clicks(&clicks, &mut merchant, &mut state, &mut wallet, &mut stash, &mut buyback, &mut bag, &|_: &Item| 0);
    // refresh 45 -> 5, sale +7 -> 12, purchase of 13 refused, buy-back of 3 -> 9
    assert_eq!(wallet.gold, 9);
    assert_eq!(state.refreshes_remaining, 2);
    assert!(stash.slots[0].is_none());
    assert!(buyback.items.is_empty());
    assert!(wallet.gold >= 0);
}

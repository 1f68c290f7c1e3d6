use arc_maze::inventory::{BagGrid, ChestTier, Chest, Equipment};
use arc_maze::items::{consumable_item, equipment_item, BagSize, ConsumableKind, EquipSlot, Item, Rarity, StatMods, WeaponKind};
use arc_maze::stats::Stats;

fn potion() -> Item {
    consumable_item(Rarity::Common, ConsumableKind::SmallHeal)
}

fn weapon(slot: EquipSlot, kind: WeaponKind) -> Item {
    equipment_item(Rarity::Common, slot, Some(kind), &vec![(1, 2)])
}

fn names(cells: &[Option<Item>]) -> Vec<Option<String>> {
    cells.iter().map(|c| c.as_ref().map(|i| i.name.clone())).collect()
}

#[test]
fn new_bag_is_empty() {
    let b = BagGrid::new(3, 2);
    assert_eq!(b.w, 3);
    assert_eq!(b.h, 2);
    assert_eq!(b.cells.len(), 6);
    assert!(b.cells.iter().all(|c| c.is_none()));
    assert!(b.is_consistent());
    let broken = BagGrid { w: 3, h: 2, cells: vec![None; 5] };
    assert!(!broken.is_consistent());
}

#[test]
fn try_add_uses_first_fit_in_row_major_order() {
    let mut b = BagGrid::new(3, 2);
    let sword = weapon(EquipSlot::MainHand, WeaponKind::ShortSword); // 2x2
    assert!(b.try_add(sword));
    assert_eq!(b.cells[0].as_ref().unwrap().name, "ShortSword");
    // the sword takes the left 2x2 cells, so a second 2x2 item has no room
    assert!(!b.try_add(weapon(EquipSlot::MainHand, WeaponKind::Dagger)));
    assert!(b.cells[1].is_none());
    assert!(b.try_add(potion()));
    assert_eq!(b.cells[2].as_ref().unwrap().name, "Small Heal Potion");
    assert!(b.cells[1].is_none());
}

#[test]
fn small_item_avoids_the_area_of_a_large_one() {
    let mk = |n: &str, s: (u8, u8)| Item {
        name: n.into(),
        rarity: Rarity::Common,
        equip_slot: None,
        weapon: None,
        consumable: None,
        size: s,
        mods: StatMods::default(),
        extra_rolls: vec![],
    };
    let mut g = BagGrid::new(3, 2);
    assert!(g.try_add(mk("A", (2, 2))));
    let r = g.try_add(mk("B", (1, 1)));
    assert!(r);
    assert_eq!(g.cells[0].as_ref().unwrap().name, "A");
    assert!(g.cells[1].is_none());
    assert_eq!(g.cells[2].as_ref().unwrap().name, "B");
    // the right column is now full as well
    assert!(g.try_add(mk("C", (1, 1))));
    assert_eq!(g.cells[5].as_ref().unwrap().name, "C");
    assert!(!g.try_add(mk("D", (1, 1))));
}

#[test]
fn try_add_refuses_an_item_too_large() {
    let mut b = BagGrid::new(2, 2);
    let staff = weapon(EquipSlot::TwoHanded, WeaponKind::MagicStaff); // 2x4
    assert!(!b.try_add(staff));
    assert!(b.cells.iter().all(|c| c.is_none()));
    let back = b.try_add_or_return(weapon(EquipSlot::TwoHanded, WeaponKind::Book));
    assert_eq!(back.unwrap_err().name, "Book");
}

#[test]
fn full_bag_refuses() {
    let mut b = BagGrid::new(1, 1);
    assert!(b.try_add(potion()));
    assert!(!b.try_add(potion()));
}

#[test]
fn place_then_remove_gives_the_item_back() {
    let mut b = BagGrid::new(4, 3);
    b.place(2, 1, potion());
    assert!(b.cells[1 * 4 + 2].is_some());
    let it = b.remove_at(2, 1).unwrap();
    assert_eq!(it.name, "Small Heal Potion");
    assert!(b.cells.iter().all(|c| c.is_none()));
    assert!(b.remove_at(2, 1).is_none());
}

#[test]
fn resize_keeps_items_in_order_and_drops_what_no_longer_fits() {
    let mut b = BagGrid::new(3, 3);
    b.place(0, 0, weapon(EquipSlot::MainHand, WeaponKind::Dagger));
    b.place(2, 2, consumable_item(Rarity::Common, ConsumableKind::BigBandage));
    b.place(1, 0, potion());
    b.resize_to(BagSize { w: 2, h: 2 });
    assert_eq!((b.w, b.h), (2, 2));
    assert_eq!(b.cells.len(), 4);
    // Dagger (2x2) goes to (0,0) and takes the whole bag; the potion and the
    // bandage no longer find room.
    assert_eq!(names(&b.cells), vec![Some("Dagger".to_string()), None, None, None]);
    let mut tiny = BagGrid::new(3, 3);
    tiny.place(0, 0, weapon(EquipSlot::TwoHanded, WeaponKind::Scythe));
    tiny.resize_to(BagSize { w: 1, h: 1 });
    assert!(tiny.cells[0].is_none());
}

#[test]
fn equip_swaps_ordinary_slots() {
    let mut e = Equipment::default();
    let mut bag = BagGrid::new(5, 14);
    let hat1 = equipment_item(Rarity::Common, EquipSlot::Hat, None, &vec![(0, 2)]);
    let hat2 = equipment_item(Rarity::Rare, EquipSlot::Hat, None, &vec![(2, 4)]);
    assert!(e.equip(hat1, &mut bag).is_none());
    let back = e.equip(hat2, &mut bag).unwrap();
    assert_eq!(back.rarity, Rarity::Common);
    assert_eq!(e.hat.as_ref().unwrap().rarity, Rarity::Rare);
}

#[test]
fn hands_and_two_handed_are_exclusive() {
    let mut e = Equipment::default();
    let mut bag = BagGrid::new(5, 14);
    assert!(e.equip(weapon(EquipSlot::TwoHanded, WeaponKind::DoubleAxe), &mut bag).is_none());
    // a main-hand weapon frees the two-handed slot and hands the axe back
    let back = e.equip(weapon(EquipSlot::MainHand, WeaponKind::Dagger), &mut bag).unwrap();
    assert_eq!(back.name, "DoubleAxe");
    assert!(e.twohand.is_none());
    // a two-handed weapon frees the main hand and hands the dagger back
    let back = e.equip(weapon(EquipSlot::TwoHanded, WeaponKind::Scythe), &mut bag).unwrap();
    assert_eq!(back.name, "Dagger");
    assert!(e.mainhand.is_none());
    assert!(e.offhand.is_none());
}

#[test]
fn two_handed_over_both_hands_returns_the_main_hand_only() {
    let mut e = Equipment::default();
    let mut bag = BagGrid::new(5, 14);
    e.equip(weapon(EquipSlot::MainHand, WeaponKind::Dagger), &mut bag);
    e.equip(weapon(EquipSlot::OffHand, WeaponKind::Lantern), &mut bag);
    let back = e.equip(weapon(EquipSlot::TwoHanded, WeaponKind::Book), &mut bag).unwrap();
    assert_eq!(back.name, "Dagger");
    assert!(e.offhand.is_none());
}

#[test]
fn non_equipment_comes_straight_back() {
    let mut e = Equipment::default();
    let mut bag = BagGrid::new(2, 2);
    let back = e.equip(potion(), &mut bag).unwrap();
    assert_eq!(back.name, "Small Heal Potion");
}

#[test]
fn bag_upgrade_resizes_the_bag() {
    let mut e = Equipment::default();
    let mut bag = BagGrid::new(2, 2);
    bag.place(1, 1, potion());
    let new_bag = equipment_item(Rarity::Uncommon, EquipSlot::Bag, None, &vec![(4, 3), (0, 1)]);
    assert!(e.equip(new_bag, &mut bag).is_none());
    assert_eq!((bag.w, bag.h), (6, 20));
    assert_eq!(bag.cells.len(), 120);
    assert_eq!(bag.cells[0].as_ref().unwrap().name, "Small Heal Potion");
}

#[test]
fn worn_mods_sum_into_stats() {
    let mut e = Equipment::default();
    let mut bag = BagGrid::new(5, 14);
    e.equip(equipment_item(Rarity::Common, EquipSlot::Gloves, None, &vec![(1, 2)]), &mut bag);
    e.equip(equipment_item(Rarity::Uncommon, EquipSlot::Shoes, None, &vec![(2, 3), (1, -1)]), &mut bag);
    let mut s = Stats::base();
    e.sum_mods_into(&mut s);
    assert_eq!(s, Stats { vigor: 5, strength: 6, agility: 8, magic: 5, endurance: 5 });
}

#[test]
fn chest_holds_items_and_gold() {
    let c = Chest { items: vec![potion()], gold: 12, tier: ChestTier::Rare };
    assert_eq!(c.items.len(), 1);
    assert_eq!(c.tier, ChestTier::Rare);
}

#[test]
fn a_longer_cell_vector_is_accepted_and_its_extra_cells_ignored() {
    let mut cells = vec![None; 6];
    cells.push(Some(potion()));
    let mut b = BagGrid { w: 3, h: 2, cells };
    assert!(b.is_consistent());
    assert!(b.try_add(weapon(EquipSlot::MainHand, WeaponKind::Dagger)));
    assert_eq!(b.cells[0].as_ref().unwrap().name, "Dagger");
    b.resize_to(BagSize { w: 2, h: 2 });
    // the potion lay outside the 3x2 grid, so it is not carried over
    assert_eq!(names(&b.cells), vec![Some("Dagger".to_string()), None, None, None]);
}

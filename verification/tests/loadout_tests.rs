use arc_maze::inventory::Equipment;
use arc_maze::items::{consumable_item, equipment_item, ConsumableKind, EquipSlot, Item, Rarity, WeaponKind};
use arc_maze::loadout::{
    active_weapon_item, apply_weapon_keys, next_combo_count, ActiveWeapon, avatar_part_equipped_item, equipped_hand_items, equipped_item_for_comparison, equipped_primary_item,
    equipped_secondary_item, is_heavy_cleave_weapon, is_two_handed_item, lantern_speed_roll, AvatarPart, WeaponSlot,
};

fn weapon(slot: EquipSlot, kind: WeaponKind) -> Item {
    equipment_item(Rarity::Common, slot, Some(kind), &vec![(1, 2)])
}

fn gear(slot: EquipSlot) -> Item {
    equipment_item(Rarity::Common, slot, None, &vec![(0, 2)])
}

#[test]
fn heavy_cleave_weapons() {
    assert!(is_heavy_cleave_weapon(Some(&weapon(EquipSlot::TwoHanded, WeaponKind::DoubleAxe))));
    assert!(is_heavy_cleave_weapon(Some(&weapon(EquipSlot::TwoHanded, WeaponKind::Scythe))));
    assert!(is_heavy_cleave_weapon(Some(&weapon(EquipSlot::TwoHanded, WeaponKind::GiantHammer))));
    assert!(is_heavy_cleave_weapon(Some(&weapon(EquipSlot::TwoHanded, WeaponKind::TwoHandedSword))));
    assert!(!is_heavy_cleave_weapon(Some(&weapon(EquipSlot::TwoHanded, WeaponKind::LongSword))));
    assert!(!is_heavy_cleave_weapon(Some(&weapon(EquipSlot::MainHand, WeaponKind::Dagger))));
    assert!(!is_heavy_cleave_weapon(None));
}

#[test]
fn primary_prefers_two_handed() {
    let mut e = Equipment::default();
    assert!(equipped_primary_item(&e).is_none());
    e.mainhand = Some(weapon(EquipSlot::MainHand, WeaponKind::Dagger));
    assert_eq!(equipped_primary_item(&e).unwrap().name, "Dagger");
    e.twohand = Some(weapon(EquipSlot::TwoHanded, WeaponKind::Book));
    assert_eq!(equipped_primary_item(&e).unwrap().name, "Book");
    e.offhand = Some(weapon(EquipSlot::OffHand, WeaponKind::Lantern));
    assert_eq!(equipped_secondary_item(&e).unwrap().name, "Lantern");
    assert!(is_two_handed_item(e.twohand.as_ref().unwrap()));
    assert!(!is_two_handed_item(e.mainhand.as_ref().unwrap()));
}

#[test]
fn avatar_parts_show_their_items() {
    let mut e = Equipment::default();
    e.hat = Some(gear(EquipSlot::Hat));
    e.mainhand = Some(weapon(EquipSlot::MainHand, WeaponKind::Hatchet));
    assert_eq!(avatar_part_equipped_item(AvatarPart::Hat, &e).unwrap().name, "Hat");
    assert_eq!(avatar_part_equipped_item(AvatarPart::MainHand, &e).unwrap().name, "Hatchet");
    assert!(avatar_part_equipped_item(AvatarPart::Head, &e).is_none());
    assert!(avatar_part_equipped_item(AvatarPart::Shirt, &e).is_none());
}

#[test]
fn comparison_targets() {
    let mut e = Equipment::default();
    let new_main = weapon(EquipSlot::MainHand, WeaponKind::ShortSword);
    assert!(equipped_item_for_comparison(&new_main, &e).is_none());
    e.twohand = Some(weapon(EquipSlot::TwoHanded, WeaponKind::Scythe));
    let (it, hand) = equipped_item_for_comparison(&new_main, &e).unwrap();
    assert_eq!(it.name, "Scythe");
    assert_eq!(hand, WeaponSlot::Primary);
    e.offhand = Some(weapon(EquipSlot::OffHand, WeaponKind::CrystalBall));
    let new_off = weapon(EquipSlot::OffHand, WeaponKind::Lantern);
    let (it, hand) = equipped_item_for_comparison(&new_off, &e).unwrap();
    assert_eq!(it.name, "CrystalBall");
    assert_eq!(hand, WeaponSlot::Secondary);
    let potion = consumable_item(Rarity::Common, ConsumableKind::BigHeal);
    assert!(equipped_item_for_comparison(&potion, &e).is_none());
    assert_eq!(WeaponSlot::default(), WeaponSlot::Primary);
}

#[test]
fn hand_items_in_order() {
    let mut e = Equipment::default();
    assert!(equipped_hand_items(&e).is_empty());
    e.offhand = Some(weapon(EquipSlot::OffHand, WeaponKind::Lantern));
    e.twohand = Some(weapon(EquipSlot::TwoHanded, WeaponKind::MagicStaff));
    let names: Vec<&str> = equipped_hand_items(&e).iter().map(|i| i.name.as_str()).collect();
    assert_eq!(names, vec!["Lantern", "MagicStaff"]);
}

#[test]
fn lantern_speed_is_the_best_lantern_roll() {
    let mut e = Equipment::default();
    assert_eq!(lantern_speed_roll(&e), 0);
    e.mainhand = Some(weapon(EquipSlot::MainHand, WeaponKind::Dagger));
    assert_eq!(lantern_speed_roll(&e), 0);
    let l = equipment_item(Rarity::Uncommon, EquipSlot::OffHand, Some(WeaponKind::Lantern), &vec![(1, 3), (0, -4)]);
    e.offhand = Some(l);
    assert_eq!(lantern_speed_roll(&e), 58);
    let l2 = equipment_item(Rarity::Common, EquipSlot::MainHand, Some(WeaponKind::Lantern), &vec![(3, 0)]);
    e.mainhand = Some(l2);
    assert_eq!(lantern_speed_roll(&e), 69);
}

#[test]
fn weapon_keys_draw_switch_and_sheathe() {
    let mut a = ActiveWeapon::default();
    assert_eq!((a.slot, a.drawn), (WeaponSlot::Primary, false));
    apply_weapon_keys(&mut a, true, false);
    assert_eq!((a.slot, a.drawn), (WeaponSlot::Primary, true));
    apply_weapon_keys(&mut a, true, false);
    assert_eq!((a.slot, a.drawn), (WeaponSlot::Primary, false));
    apply_weapon_keys(&mut a, false, true);
    assert_eq!((a.slot, a.drawn), (WeaponSlot::Secondary, true));
    apply_weapon_keys(&mut a, true, false);
    assert_eq!((a.slot, a.drawn), (WeaponSlot::Primary, true));
    // both keys in one frame: 1 sheathes the drawn primary, then 2 draws the secondary
    apply_weapon_keys(&mut a, true, true);
    assert_eq!((a.slot, a.drawn), (WeaponSlot::Secondary, true));
}

#[test]
fn active_hand_item() {
    let mut e = Equipment::default();
    e.mainhand = Some(weapon(EquipSlot::MainHand, WeaponKind::Hatchet));
    e.offhand = Some(weapon(EquipSlot::OffHand, WeaponKind::Lantern));
    let mut a = ActiveWeapon::default();
    assert_eq!(active_weapon_item(&a, &e).unwrap().name, "Hatchet");
    a.slot = WeaponSlot::Secondary;
    assert_eq!(active_weapon_item(&a, &e).unwrap().name, "Lantern");
}

#[test]
fn combo_count_caps_at_three() {
    assert_eq!(next_combo_count(0), 1);
    assert_eq!(next_combo_count(1), 2);
    assert_eq!(next_combo_count(2), 3);
    assert_eq!(next_combo_count(3), 3);
}

use arc_maze::items::{
    bag_size_for_rarity, consumable_from_draws, consumable_item, equip_category_at, equipment_from_draws, equipment_item,
    item_descriptor, roll_equip_category, roll_item, weapon_choice_count, ConsumableKind, EquipSlot, Item, Rarity, StatMods,
    WeaponKind,
};
use arc_maze::stats::Stats;
use arc_maze::rng::Dice;

fn lantern(rolls: &Vec<(i32, i32)>) -> Item {
    equipment_item(Rarity::Uncommon, EquipSlot::OffHand, Some(WeaponKind::Lantern), rolls)
}

#[test]
fn rarity_order_and_weights() {
    let all = Rarity::all();
    assert_eq!(all, [
        Rarity::Common,
        Rarity::Uncommon,
        Rarity::Rare,
        Rarity::UltraRare,
        Rarity::Legendary,
        Rarity::Unique
    ]);
    let w = Rarity::weights();
    assert_eq!(w, [30, 25, 20, 14, 10, 1]);
    assert_eq!(w.iter().sum::<u32>(), 100);
}

#[test]
fn rarity_colors_come_from_hex_codes() {
    assert_eq!(Rarity::Common.color(), (0x9E, 0x9E, 0x9E));
    assert_eq!(Rarity::Uncommon.color(), (0x2C, 0xB9, 0x56));
    assert_eq!(Rarity::Rare.color(), (0x4E, 0x87, 0xFF));
    assert_eq!(Rarity::UltraRare.color(), (0xB5, 0x51, 0xFF));
    assert_eq!(Rarity::Legendary.color(), (0xFF, 0xA0, 0x36));
    assert_eq!(Rarity::Unique.color(), (0xFF, 0xD7, 0x00));
}

#[test]
fn bag_sizes_per_rarity() {
    let sizes: Vec<(u8, u8)> = Rarity::all()
        .iter()
        .map(|r| {
            let b = bag_size_for_rarity(*r);
            (b.w, b.h)
        })
        .collect();
    assert_eq!(sizes, vec![(5, 14), (6, 20), (8, 22), (10, 20), (24, 24), (100, 100)]);
}

#[test]
fn consumables_have_fixed_names_and_sizes() {
    let big = consumable_item(Rarity::Rare, ConsumableKind::BigHeal);
    assert_eq!(big.name, "Big Heal Potion");
    assert_eq!(big.size, (1, 2));
    assert_eq!(big.rarity, Rarity::Rare);
    assert_eq!(big.consumable, Some(ConsumableKind::BigHeal));
    assert_eq!(big.equip_slot, None);
    assert_eq!(big.mods, StatMods::default());
    assert!(big.extra_rolls.is_empty());
    let small = consumable_item(Rarity::Common, ConsumableKind::SmallBandage);
    assert_eq!(small.name, "Small Bandage");
    assert_eq!(small.size, (1, 1));
    assert_eq!(consumable_item(Rarity::Common, ConsumableKind::SmallHeal).name, "Small Heal Potion");
    assert_eq!(consumable_item(Rarity::Common, ConsumableKind::BigBandage).size, (1, 2));
}

#[test]
fn equipment_names_sizes_and_mods() {
    let bag = equipment_item(Rarity::Common, EquipSlot::Bag, None, &vec![(4, 2)]);
    assert_eq!(bag.name, "Common Bag 5x14");
    assert_eq!(bag.size, (2, 3));
    assert!(bag.is_bag_upgrade());
    assert_eq!(bag.mods.endurance, 2);
    assert_eq!(bag.extra_rolls, vec![("endurance".to_string(), 2)]);

    let unique_bag = equipment_item(Rarity::Unique, EquipSlot::Bag, None, &vec![(0, 300)]);
    assert_eq!(unique_bag.name, "Unique Bag 100x100");

    let sword = equipment_item(Rarity::Rare, EquipSlot::TwoHanded, Some(WeaponKind::TwoHandedSword), &vec![]);
    assert_eq!(sword.name, "TwoHandedSword");
    assert_eq!(sword.size, (2, 4));
    assert!(!sword.is_bag_upgrade());

    let l = lantern(&vec![(1, 3), (0, -4), (1, 5)]);
    assert_eq!(l.name, "Lantern");
    assert_eq!(l.size, (2, 2));
    assert_eq!(l.mods, StatMods { vigor: -4, strength: 8, agility: 0, magic: 0, endurance: 0 });
    assert_eq!(
        l.extra_rolls,
        vec![("strength".to_string(), 3), ("vigor".to_string(), -4), ("strength".to_string(), 5)]
    );

    let hat = equipment_item(Rarity::Legendary, EquipSlot::Hat, None, &vec![(2, 7), (3, 7)]);
    assert_eq!(hat.name, "Hat");
    assert_eq!(hat.mods.agility, 7);
    assert_eq!(hat.mods.magic, 7);
}

#[test]
fn stat_mods_add_to_base() {
    let mods = StatMods { vigor: 1, strength: -2, agility: 3, magic: 0, endurance: 10 };
    let mut s = Stats::base();
    mods.add_to(&mut s);
    assert_eq!(s, Stats { vigor: 6, strength: 3, agility: 8, magic: 5, endurance: 15 });
}

fn rolled_item_is_well_formed(it: &Item) {
    match it.consumable {
        Some(kind) => {
            let expected = consumable_item(it.rarity, kind);
            assert_eq!(it.name, expected.name);
            assert_eq!(it.size, expected.size);
            assert_eq!(it.equip_slot, None);
            assert_eq!(it.mods, StatMods::default());
        }
        None => {
            let slot = it.equip_slot.expect("equipment has a slot");
            let expected_rolls = match it.rarity {
                Rarity::Common => 1,
                Rarity::Uncommon => 2,
                Rarity::Rare => 3,
                Rarity::UltraRare => 4,
                Rarity::Legendary => 5,
                Rarity::Unique => 1,
            };
            assert_eq!(it.extra_rolls.len(), expected_rolls);
            match slot {
                EquipSlot::TwoHanded => assert_eq!(it.size, (2, 4)),
                EquipSlot::Bag => assert_eq!(it.size, (2, 3)),
                _ => assert_eq!(it.size, (2, 2)),
            }
            match slot {
                EquipSlot::TwoHanded | EquipSlot::MainHand | EquipSlot::OffHand => assert!(it.weapon.is_some()),
                _ => assert!(it.weapon.is_none()),
            }
            let total: i32 = it.extra_rolls.iter().map(|(_, d)| *d).sum();
            let mods = it.mods;
            assert_eq!(total, mods.vigor + mods.strength + mods.agility + mods.magic + mods.endurance);
        }
    }
}

#[test]
fn rolled_items_follow_the_rules() {
    let mut rng = Dice::from_seed(7);
    for _ in 0..300 {
        let it = roll_item(&mut rng);
        rolled_item_is_well_formed(&it);
    }
}

#[test]
fn rolling_is_deterministic_per_seed() {
    let mut a = Dice::from_seed(1234);
    let mut b = Dice::from_seed(1234);
    for _ in 0..20 {
        let x = roll_item(&mut a);
        let y = roll_item(&mut b);
        assert_eq!(x.name, y.name);
        assert_eq!(x.rarity, y.rarity);
        assert_eq!(x.mods, y.mods);
        assert_eq!(x.extra_rolls, y.extra_rolls);
    }
}

#[test]
fn equip_categories_cover_every_slot() {
    let mut rng = Dice::from_seed(99);
    let mut seen = std::collections::HashSet::new();
    for _ in 0..500 {
        seen.insert(roll_equip_category(&mut rng));
    }
    assert_eq!(seen.len(), 12);
}

#[test]
fn rarities_roll_with_their_weights() {
    let mut rng = Dice::from_seed(2024);
    let mut common = 0;
    let n = 2000;
    for _ in 0..n {
        if roll_item(&mut rng).rarity == Rarity::Common {
            common += 1;
        }
    }
    assert!(common > n * 20 / 100 && common < n * 40 / 100);
}

#[test]
fn item_descriptors() {
    assert_eq!(item_descriptor(&lantern(&vec![(0, 1)])), "Lantern");
    assert_eq!(item_descriptor(&equipment_item(Rarity::Rare, EquipSlot::Shoes, None, &vec![(0, 1)])), "Shoes");
    assert_eq!(item_descriptor(&consumable_item(Rarity::Common, ConsumableKind::BigBandage)), "BigBandage");
    let plain = Item {
        name: "Pebble".to_string(),
        rarity: Rarity::Common,
        equip_slot: None,
        weapon: None,
        consumable: None,
        size: (1, 1),
        mods: StatMods::default(),
        extra_rolls: vec![],
    };
    assert_eq!(item_descriptor(&plain), "Item");
}

#[test]
fn equip_category_at_follows_the_roll_order() {
    assert_eq!(equip_category_at(0), EquipSlot::Watch);
    assert_eq!(equip_category_at(3), EquipSlot::Shirt);
    assert_eq!(equip_category_at(8), EquipSlot::MainHand);
    assert_eq!(equip_category_at(10), EquipSlot::TwoHanded);
    assert_eq!(equip_category_at(11), EquipSlot::Bag);
}

#[test]
fn consumable_from_draws_maps_each_index() {
    let it = consumable_from_draws(0, 0);
    assert_eq!(it.rarity, Rarity::Common);
    assert_eq!(it.consumable, Some(ConsumableKind::BigHeal));
    assert_eq!(it.size, (1, 2));
    let it = consumable_from_draws(5, 3);
    assert_eq!(it.rarity, Rarity::Unique);
    assert_eq!(it.consumable, Some(ConsumableKind::SmallBandage));
    assert_eq!(it.name, "Small Bandage");
    assert_eq!(consumable_from_draws(2, 1).name, "Small Heal Potion");
}

#[test]
fn equipment_from_draws_maps_rarity_slot_weapon_and_rolls() {
    let rolls = vec![(1, 4), (3, -2), (0, 9)];
    let it = equipment_from_draws(2, EquipSlot::TwoHanded, &rolls, 3);
    assert_eq!(it.rarity, Rarity::Rare);
    assert_eq!(it.weapon, Some(WeaponKind::Scythe));
    assert_eq!(it.name, "Scythe");
    assert_eq!(it.size, (2, 4));
    assert_eq!(it.mods.strength, 4);
    assert_eq!(it.mods.magic, -2);
    assert_eq!(it.mods.vigor, 9);
    assert_eq!(it.extra_rolls, vec![("strength".to_string(), 4), ("magic".to_string(), -2), ("vigor".to_string(), 9)]);
    let it = equipment_from_draws(0, EquipSlot::OffHand, &vec![(2, 2)], 4);
    assert_eq!(it.weapon, Some(WeaponKind::Lantern));
    assert_eq!(it.equip_slot, Some(EquipSlot::OffHand));
    let it = equipment_from_draws(4, EquipSlot::Bag, &vec![(2, 7)], 0);
    assert_eq!(it.weapon, None);
    assert_eq!(it.name, "Legendary Bag 24x24");
    assert_eq!(weapon_choice_count(EquipSlot::TwoHanded), 7);
    assert_eq!(weapon_choice_count(EquipSlot::MainHand), 5);
    assert_eq!(weapon_choice_count(EquipSlot::Hat), 0);
}

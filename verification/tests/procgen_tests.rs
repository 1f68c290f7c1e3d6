use arc_maze::items::{consumable_item, equipment_item, ConsumableKind, EquipSlot, Rarity, WeaponKind};
use arc_maze::procgen::{pcm_to_wav_bytes, stable_item_roll, texture_hash};

#[test]
fn texture_hash_values() {
    assert_eq!(texture_hash(0, 0, 0), 0);
    assert_eq!(texture_hash(1, 2, 3), 2980286331);
    assert_eq!(texture_hash(17, 42, 99), 3861932801);
    assert_eq!(texture_hash(u32::MAX, u32::MAX, u32::MAX), 4026893799);
}

#[test]
fn texture_hash_depends_on_seed() {
    assert_ne!(texture_hash(5, 5, 1), texture_hash(5, 5, 2));
}

#[test]
fn stable_roll_is_fnv_of_the_item() {
    let potion = consumable_item(Rarity::Common, ConsumableKind::SmallHeal);
    assert_eq!(stable_item_roll(&potion, 100), 90);
    assert_eq!(stable_item_roll(&potion, 7), 6);
    assert_eq!(stable_item_roll(&potion, 1), 1);
    let l = equipment_item(Rarity::Uncommon, EquipSlot::OffHand, Some(WeaponKind::Lantern), &vec![(1, 3), (0, -4)]);
    assert_eq!(stable_item_roll(&l, 100), 58);
    let l2 = equipment_item(Rarity::Common, EquipSlot::OffHand, Some(WeaponKind::Lantern), &vec![(3, 0)]);
    assert_eq!(stable_item_roll(&l2, 100), 69);
}

#[test]
fn stable_roll_stays_in_range() {
    let potion = consumable_item(Rarity::Rare, ConsumableKind::BigBandage);
    for max in 1..50u32 {
        let r = stable_item_roll(&potion, max);
        assert!(1 <= r && r <= max);
    }
}

#[test]
fn wav_header_layout() {
    let bytes = pcm_to_wav_bytes(&[1, -2, 300], 22050);
    assert_eq!(bytes.len(), 44 + 6);
    assert_eq!(&bytes[0..4], b"RIFF");
    assert_eq!(&bytes[4..8], &(36u32 + 6).to_le_bytes());
    assert_eq!(&bytes[8..12], b"WAVE");
    assert_eq!(&bytes[12..16], b"fmt ");
    assert_eq!(&bytes[16..20], &16u32.to_le_bytes());
    assert_eq!(&bytes[20..22], &1u16.to_le_bytes());
    assert_eq!(&bytes[22..24], &1u16.to_le_bytes());
    assert_eq!(&bytes[24..28], &22050u32.to_le_bytes());
    assert_eq!(&bytes[28..32], &44100u32.to_le_bytes());
    assert_eq!(&bytes[32..34], &2u16.to_le_bytes());
    assert_eq!(&bytes[34..36], &16u16.to_le_bytes());
    assert_eq!(&bytes[36..40], b"data");
    assert_eq!(&bytes[40..44], &6u32.to_le_bytes());
    assert_eq!(&bytes[44..], &[1, 0, 0xfe, 0xff, 0x2c, 0x01]);
}

#[test]
fn wav_of_no_samples_is_just_the_header() {
    let bytes = pcm_to_wav_bytes(&[], 8000);
    assert_eq!(bytes.len(), 44);
    assert_eq!(&bytes[4..8], &36u32.to_le_bytes());
    assert_eq!(&bytes[40..44], &0u32.to_le_bytes());
}

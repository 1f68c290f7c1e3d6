//! What the player holds and wears, as the combat, avatar and comparison
//! views read it.

use crate::inventory::Equipment;
use crate::items::{EquipSlot, Item, WeaponKind};
use crate::procgen::{item_hash, stable_item_roll};
use vstd::prelude::*;

verus! {

/// The item behind an optional reference.
pub open spec fn opt_ref(o: Option<&Item>) -> Option<Item> {
    match o {
        Some(r) => Some(*r),
        None => None,
    }
}

/// Heavy weapons swing in a wide cleave.
pub open spec fn is_heavy_weapon_kind(k: WeaponKind) -> bool {
    k == WeaponKind::DoubleAxe || k == WeaponKind::GiantHammer || k == WeaponKind::TwoHandedSword || k
        == WeaponKind::Scythe
}

/// Whether `item` is a double axe, giant hammer, two-handed sword or scythe.
pub fn is_heavy_cleave_weapon(item: Option<&Item>) -> (b: bool)
    ensures
        b == (opt_ref(item) matches Some(it) && it.weapon matches Some(k) && is_heavy_weapon_kind(k)),
{
    match item {
        Some(entry) => match entry.weapon {
            Some(WeaponKind::DoubleAxe) | Some(WeaponKind::GiantHammer) | Some(WeaponKind::TwoHandedSword) | Some(
                WeaponKind::Scythe,
            ) => true,
            _ => false,
        },
        None => false,
    }
}

/// The primary weapon: the two-handed item, else the main-hand item.
pub open spec fn primary_item(e: Equipment) -> Option<Item> {
    if e.twohand is Some {
        e.twohand
    } else {
        e.mainhand
    }
}

/// The item wielded as primary weapon.
pub fn equipped_primary_item(equipment: &Equipment) -> (r: Option<&Item>)
    ensures
        opt_ref(r) == primary_item(*equipment),
{
    match equipment.twohand.as_ref() {
        Some(it) => Some(it),
        None => equipment.mainhand.as_ref(),
    }
}

/// The item wielded as secondary weapon: the off-hand item.
pub fn equipped_secondary_item(equipment: &Equipment) -> (r: Option<&Item>)
    ensures
        opt_ref(r) == equipment.offhand,
{
    equipment.offhand.as_ref()
}

/// Whether `item` goes in the two-handed slot.
pub fn is_two_handed_item(item: &Item) -> (b: bool)
    ensures
        b == (item.equip_slot == Some(EquipSlot::TwoHanded)),
{
    match item.equip_slot {
        Some(EquipSlot::TwoHanded) => true,
        _ => false,
    }
}

/// The parts of the player's avatar.
#[derive(Clone, Copy, Debug, PartialEq, Eq, Structural)]
pub enum AvatarPart {
    Head,
    Torso,
    LeftArm,
    RightArm,
    LeftLeg,
    RightLeg,
    Shirt,
    Pants,
    Hat,
    Cape,
    MainHand,
    OffHand,
    Shoes,
    Gloves,
    Necklace,
    Bag,
    Watch,
}

/// The item shown on an avatar part; the body parts show none, the main
/// hand shows the primary weapon.
pub open spec fn part_item(part: AvatarPart, e: Equipment) -> Option<Item> {
    match part {
        AvatarPart::Shirt => e.shirt,
        AvatarPart::Pants => e.pants,
        AvatarPart::Hat => e.hat,
        AvatarPart::Cape => e.cape,
        AvatarPart::MainHand => primary_item(e),
        AvatarPart::OffHand => e.offhand,
        AvatarPart::Shoes => e.shoes,
        AvatarPart::Gloves => e.gloves,
        AvatarPart::Necklace => e.necklace,
        AvatarPart::Bag => e.bag,
        AvatarPart::Watch => e.watch,
        _ => None,
    }
}

/// The equipped item that dresses `part` of the avatar.
pub fn avatar_part_equipped_item(part: AvatarPart, equipment: &Equipment) -> (r: Option<&Item>)
    ensures
        opt_ref(r) == part_item(part, *equipment),
{
    match part {
        AvatarPart::Shirt => equipment.shirt.as_ref(),
        AvatarPart::Pants => equipment.pants.as_ref(),
        AvatarPart::Hat => equipment.hat.as_ref(),
        AvatarPart::Cape => equipment.cape.as_ref(),
        AvatarPart::MainHand => equipped_primary_item(equipment),
        AvatarPart::OffHand => equipment.offhand.as_ref(),
        AvatarPart::Shoes => equipment.shoes.as_ref(),
        AvatarPart::Gloves => equipment.gloves.as_ref(),
        AvatarPart::Necklace => equipment.necklace.as_ref(),
        AvatarPart::Bag => equipment.bag.as_ref(),
        AvatarPart::Watch => equipment.watch.as_ref(),
        _ => None,
    }
}

/// Which hand attacks.
#[derive(Clone, Copy, Debug, PartialEq, Eq, Structural)]
pub enum WeaponSlot {
    Primary,
    Secondary,
}

impl Default for WeaponSlot {
    fn default() -> (s: Self)
        ensures
            s == WeaponSlot::Primary,
    {
        WeaponSlot::Primary
    }
}

/// The equipped item that a new item of the same slot would be compared
/// against, with the hand it is held in: the occupant of the slot; for a
/// main-hand item, the main-hand item else the two-handed one; the off hand
/// compares as secondary, everything else as primary.
pub open spec fn comparison_target(item: Item, e: Equipment) -> Option<(Item, WeaponSlot)> {
    match item.equip_slot {
        None => None,
        Some(slot) => {
            let occupant = match slot {
                EquipSlot::Hat => e.hat,
                EquipSlot::Cape => e.cape,
                EquipSlot::Necklace => e.necklace,
                EquipSlot::Shirt => e.shirt,
                EquipSlot::Gloves => e.gloves,
                EquipSlot::Pants => e.pants,
                EquipSlot::Shoes => e.shoes,
                EquipSlot::Bag => e.bag,
                EquipSlot::Watch => e.watch,
                EquipSlot::MainHand => if e.mainhand is Some {
                    e.mainhand
                } else {
                    e.twohand
                },
                EquipSlot::OffHand => e.offhand,
                EquipSlot::TwoHanded => e.twohand,
            };
            let hand = if slot == EquipSlot::OffHand {
                WeaponSlot::Secondary
            } else {
                WeaponSlot::Primary
            };
            match occupant {
                Some(it) => Some((it, hand)),
                None => None,
            }
        },
    }
}

fn paired(o: Option<&Item>, hand: WeaponSlot) -> (r: Option<(&Item, WeaponSlot)>)
    ensures
        r is None <==> o is None,
        r matches Some(p) ==> o == Some(p.0) && p.1 == hand,
{
    match o {
        Some(it) => Some((it, hand)),
        None => None,
    }
}

/// The weapon hand in use, and whether its weapon is drawn.
pub struct ActiveWeapon {
    pub slot: WeaponSlot,
    pub drawn: bool,
}

impl Default for ActiveWeapon {
    /// The primary hand, sheathed.
    fn default() -> (a: Self)
        ensures
            a.slot == WeaponSlot::Primary,
            !a.drawn,
    {
        ActiveWeapon { slot: WeaponSlot::Primary, drawn: false }
    }
}

/// Pressing the key of `hand`: sheathes it when it is the drawn hand,
/// otherwise switches to it and draws.
pub open spec fn press_hand(a: ActiveWeapon, hand: WeaponSlot) -> ActiveWeapon {
    if a.slot == hand && a.drawn {
        ActiveWeapon { slot: a.slot, drawn: false }
    } else {
        ActiveWeapon { slot: hand, drawn: true }
    }
}

/// The weapon keys of one frame: 1 toggles the primary hand, then 2 the
/// secondary hand (see `press_hand`).
pub fn apply_weapon_keys(active: &mut ActiveWeapon, key1: bool, key2: bool)
    ensures
        ({
            let a1 = if key1 {
                press_hand(*old(active), WeaponSlot::Primary)
            } else {
                *old(active)
            };
            *final(active) == if key2 {
                press_hand(a1, WeaponSlot::Secondary)
            } else {
                a1
            }
        }),
{
    if key1 {
        if active.slot == WeaponSlot::Primary && active.drawn {
            active.drawn = false;
        } else {
            active.slot = WeaponSlot::Primary;
            active.drawn = true;
        }
    }
    if key2 {
        if active.slot == WeaponSlot::Secondary && active.drawn {
            active.drawn = false;
        } else {
            active.slot = WeaponSlot::Secondary;
            active.drawn = true;
        }
    }
}

/// The item held in the active hand: the primary weapon or the off-hand item.
pub fn active_weapon_item<'a>(active: &ActiveWeapon, equipment: &'a Equipment) -> (r: Option<&'a Item>)
    ensures
        opt_ref(r) == match active.slot {
            WeaponSlot::Primary => primary_item(*equipment),
            WeaponSlot::Secondary => equipment.offhand,
        },
{
    match active.slot {
        WeaponSlot::Primary => equipped_primary_item(equipment),
        WeaponSlot::Secondary => equipped_secondary_item(equipment),
    }
}

/// Law: pressing the same weapon key twice (in two frames, nothing else
/// pressed) leaves that hand selected; when it was already the selected
/// hand, drawn or sheathed as before, otherwise sheathed.
pub proof fn lemma_weapon_key_twice(a: ActiveWeapon, hand: WeaponSlot)
    ensures
        press_hand(press_hand(a, hand), hand).slot == hand,
        press_hand(press_hand(a, hand), hand).drawn == (a.slot == hand && a.drawn),
{
}

/// The combo counter after a landed hit: one more, at most 3.
pub fn next_combo_count(count: u8) -> (r: u8)
    requires
        count < 255,
    ensures
        r == if count + 1 < 3 {
            count + 1
        } else {
            3
        },
{
    if count + 1 < 3 {
        count + 1
    } else {
        3
    }
}

/// What `item` would be compared against in the trader and inventory views.
pub fn equipped_item_for_comparison<'a>(item: &Item, equip: &'a Equipment) -> (r: Option<(&'a Item, WeaponSlot)>)
    ensures
        r is None <==> comparison_target(*item, *equip) is None,
        r matches Some(p) ==> comparison_target(*item, *equip) == Some((*p.0, p.1)),
{
    match item.equip_slot {
        Some(EquipSlot::Hat) => paired(equip.hat.as_ref(), WeaponSlot::Primary),
        Some(EquipSlot::Cape) => paired(equip.cape.as_ref(), WeaponSlot::Primary),
        Some(EquipSlot::Necklace) => paired(equip.necklace.as_ref(), WeaponSlot::Primary),
        Some(EquipSlot::Shirt) => paired(equip.shirt.as_ref(), WeaponSlot::Primary),
        Some(EquipSlot::Gloves) => paired(equip.gloves.as_ref(), WeaponSlot::Primary),
        Some(EquipSlot::Pants) => paired(equip.pants.as_ref(), WeaponSlot::Primary),
        Some(EquipSlot::Shoes) => paired(equip.shoes.as_ref(), WeaponSlot::Primary),
        Some(EquipSlot::Bag) => paired(equip.bag.as_ref(), WeaponSlot::Primary),
        Some(EquipSlot::Watch) => paired(equip.watch.as_ref(), WeaponSlot::Primary),
        Some(EquipSlot::MainHand) => match equip.mainhand.as_ref() {
            Some(it) => Some((it, WeaponSlot::Primary)),
            None => paired(equip.twohand.as_ref(), WeaponSlot::Primary),
        },
        Some(EquipSlot::OffHand) => paired(equip.offhand.as_ref(), WeaponSlot::Secondary),
        Some(EquipSlot::TwoHanded) => paired(equip.twohand.as_ref(), WeaponSlot::Primary),
        None => None,
    }
}

/// The items in the hands, in the order main hand, off hand, two-handed.
pub open spec fn hand_items(e: Equipment) -> Seq<Item> {
    let s0: Seq<Item> = Seq::empty();
    let s1 = if e.mainhand is Some {
        s0.push(e.mainhand.unwrap())
    } else {
        s0
    };
    let s2 = if e.offhand is Some {
        s1.push(e.offhand.unwrap())
    } else {
        s1
    };
    if e.twohand is Some {
        s2.push(e.twohand.unwrap())
    } else {
        s2
    }
}

/// The items held in the hands (see `hand_items`).
pub fn equipped_hand_items(equipment: &Equipment) -> (r: Vec<&Item>)
    ensures
        r@.len() == hand_items(*equipment).len(),
        forall|i: int| 0 <= i < r@.len() ==> *r@[i] == hand_items(*equipment)[i],
{
    let mut r: Vec<&Item> = Vec::new();
    if let Some(it) = equipment.mainhand.as_ref() {
        r.push(it);
    }
    if let Some(it) = equipment.offhand.as_ref() {
        r.push(it);
    }
    if let Some(it) = equipment.twohand.as_ref() {
        r.push(it);
    }
    r
}

/// The stable roll (out of 100) of a lantern among `items`, the best of
/// them, or 0 when none is a lantern.
pub open spec fn best_lantern_roll(items: Seq<Item>) -> u32
    decreases items.len(),
{
    if items.len() == 0 {
        0
    } else {
        let rest = best_lantern_roll(items.drop_last());
        let it = items.last();
        if it.weapon == Some(WeaponKind::Lantern) {
            let roll = ((item_hash(it) % 100) + 1) as u32;
            if roll > rest {
                roll
            } else {
                rest
            }
        } else {
            rest
        }
    }
}

/// How much a held lantern speeds the player up, in hundredths: the best
/// stable roll (1 to 100) of a lantern in the hands, or 0 without one. The
/// movement speed multiplier is `1 + roll / 100`.
pub fn lantern_speed_roll(equipment: &Equipment) -> (r: u32)
    ensures
        r == best_lantern_roll(hand_items(*equipment)),
        r <= 100,
{
    let items = equipped_hand_items(equipment);
    let ghost s = hand_items(*equipment);
    let mut best: u32 = 0;
    let mut i: usize = 0;
    while i < items.len()
        invariant
            items@.len() == s.len(),
            forall|j: int| 0 <= j < items@.len() ==> *items@[j] == s[j],
            i <= s.len(),
            best == best_lantern_roll(s.subrange(0, i as int)),
            best <= 100,
        decreases s.len() - i,
    {
        assert(s.subrange(0, i as int + 1).drop_last() =~= s.subrange(0, i as int));
        let it = items[i];
        if it.weapon == Some(WeaponKind::Lantern) {
            let roll = stable_item_roll(it, 100);
            if roll > best {
                best = roll;
            }
        }
        i = i + 1;
    }
    assert(s.subrange(0, i as int) =~= s);
    best
}

} // verus!

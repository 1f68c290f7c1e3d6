//! Items: rarities, equipment slots, stat modifiers, and the loot roll.

use crate::rng::{
    draw_hit, draw_value, draws_since, extends, i32_draw, lemma_extends_trans, lemma_since_append, ratio_draw, u32_draw,
    usize_draw, Dice, Draw,
};
use crate::stats::Stats;
use crate::util::{decimal, hex_srgb_u8, lemma_ascii_hex_code, pick_draws, picks, push_decimal, weighted_pick, total_weight};
use vstd::prelude::*;

verus! {

/// The sRGB bytes of each rarity's colour.
pub open spec fn spec_rarity_rgb(r: Rarity) -> (u8, u8, u8) {
    match r {
        Rarity::Common => (0x9E, 0x9E, 0x9E),
        Rarity::Uncommon => (0x2C, 0xB9, 0x56),
        Rarity::Rare => (0x4E, 0x87, 0xFF),
        Rarity::UltraRare => (0xB5, 0x51, 0xFF),
        Rarity::Legendary => (0xFF, 0xA0, 0x36),
        Rarity::Unique => (0xFF, 0xD7, 0x00),
    }
}

/// Item rarity, from most to least common.
#[derive(Clone, Copy, Debug, PartialEq, Eq, Hash, Structural)]
pub enum Rarity {
    Common,
    Uncommon,
    Rare,
    UltraRare,
    Legendary,
    Unique,
}

impl Rarity {
    /// The rarities in order of their weights.
    pub fn all() -> (a: [Rarity; 6])
        ensures
            a@ == seq![Rarity::Common, Rarity::Uncommon, Rarity::Rare, Rarity::UltraRare, Rarity::Legendary, Rarity::Unique],
    {
        [Rarity::Common, Rarity::Uncommon, Rarity::Rare, Rarity::UltraRare, Rarity::Legendary, Rarity::Unique]
    }

    /// Roll weights of the rarities, in the order of `Rarity::all`
    /// (30%, 25%, 20%, 14%, 10%, 1%).
    pub fn weights() -> (w: [u32; 6])
        ensures
            w@ == seq![30u32, 25, 20, 14, 10, 1],
    {
        [30, 25, 20, 14, 10, 1]
    }

    /// The display colour of the rarity, as sRGB bytes read from its hex
    /// code: grey, green, blue, purple, orange, gold.
    pub fn color(self) -> (rgb: (u8, u8, u8))
        ensures
            rgb == spec_rarity_rgb(self),
    {
        match self {
            Rarity::Common => {
                proof {
                    reveal_strlit("#9E9E9E");
                    lemma_ascii_hex_code("#9E9E9E");
                }
                hex_srgb_u8("#9E9E9E")
            },
            Rarity::Uncommon => {
                proof {
                    reveal_strlit("#2CB956");
                    lemma_ascii_hex_code("#2CB956");
                }
                hex_srgb_u8("#2CB956")
            },
            Rarity::Rare => {
                proof {
                    reveal_strlit("#4E87FF");
                    lemma_ascii_hex_code("#4E87FF");
                }
                hex_srgb_u8("#4E87FF")
            },
            Rarity::UltraRare => {
                proof {
                    reveal_strlit("#B551FF");
                    lemma_ascii_hex_code("#B551FF");
                }
                hex_srgb_u8("#B551FF")
            },
            Rarity::Legendary => {
                proof {
                    reveal_strlit("#FFA036");
                    lemma_ascii_hex_code("#FFA036");
                }
                hex_srgb_u8("#FFA036")
            },
            Rarity::Unique => {
                proof {
                    reveal_strlit("#FFD700");
                    lemma_ascii_hex_code("#FFD700");
                }
                hex_srgb_u8("#FFD700")
            },
        }
    }
}

/// Slots the player can equip.
#[derive(Clone, Copy, Debug, PartialEq, Eq, Hash, Structural)]
pub enum EquipSlot {
    Watch,
    Necklace,
    Gloves,
    Shirt,
    Pants,
    Shoes,
    Hat,
    Cape,
    MainHand,
    OffHand,
    TwoHanded,
    Bag,
}

/// Weapon catalogue.
#[derive(Clone, Copy, Debug, PartialEq, Eq, Hash, Structural)]
pub enum WeaponKind {
    TwoHandedSword,
    LongSword,
    DoubleAxe,
    Scythe,
    GiantHammer,
    Book,
    MagicStaff,
    Dagger,
    CrystalBall,
    Hatchet,
    ShortSword,
    Lantern,
}

/// Healing consumables.
#[derive(Clone, Copy, Debug, PartialEq, Eq, Hash, Structural)]
pub enum ConsumableKind {
    BigHeal,
    SmallHeal,
    BigBandage,
    SmallBandage,
}

/// Per-attribute bonuses that an item grants while it is equipped.
#[derive(Clone, Copy, Debug, PartialEq, Eq, Structural)]
pub struct StatMods {
    pub vigor: i32,
    pub strength: i32,
    pub agility: i32,
    pub magic: i32,
    pub endurance: i32,
}

/// `true` when adding `m` to `s` keeps every attribute inside `i32`.
pub open spec fn mods_fit(s: Stats, m: StatMods) -> bool {
    &&& i32::MIN <= s.vigor + m.vigor <= i32::MAX
    &&& i32::MIN <= s.strength + m.strength <= i32::MAX
    &&& i32::MIN <= s.agility + m.agility <= i32::MAX
    &&& i32::MIN <= s.magic + m.magic <= i32::MAX
    &&& i32::MIN <= s.endurance + m.endurance <= i32::MAX
}

/// `s` with the bonuses of `m` added to each attribute.
pub open spec fn spec_add_mods(s: Stats, m: StatMods) -> Stats {
    Stats {
        vigor: (s.vigor + m.vigor) as i32,
        strength: (s.strength + m.strength) as i32,
        agility: (s.agility + m.agility) as i32,
        magic: (s.magic + m.magic) as i32,
        endurance: (s.endurance + m.endurance) as i32,
    }
}

impl Default for StatMods {
    fn default() -> (m: Self)
        ensures
            m == zero_mods(),
    {
        StatMods { vigor: 0, strength: 0, agility: 0, magic: 0, endurance: 0 }
    }
}

/// No bonus on any attribute.
pub open spec fn zero_mods() -> StatMods {
    StatMods { vigor: 0, strength: 0, agility: 0, magic: 0, endurance: 0 }
}

impl StatMods {
    /// Adds each bonus to the matching attribute of `base`.
    pub fn add_to(&self, base: &mut Stats)
        requires
            mods_fit(*old(base), *self),
        ensures
            *final(base) == spec_add_mods(*old(base), *self),
    {
        base.vigor = base.vigor + self.vigor;
        base.strength = base.strength + self.strength;
        base.agility = base.agility + self.agility;
        base.magic = base.magic + self.magic;
        base.endurance = base.endurance + self.endurance;
    }
}

} // verus!

verus! {

/// An item. Some items occupy several cells of the bag (`size` is width x height).
#[derive(Debug)]
pub struct Item {
    pub name: String,
    pub rarity: Rarity,
    pub equip_slot: Option<EquipSlot>,
    pub weapon: Option<WeaponKind>,
    pub consumable: Option<ConsumableKind>,
    /// Width x height in the bag grid.
    pub size: (u8, u8),
    /// Only applied while equipped.
    pub mods: StatMods,
    /// The random attribute rolls behind `mods`, as (attribute, delta).
    pub extra_rolls: Vec<(String, i32)>,
}

impl Clone for Item {
    fn clone(&self) -> (r: Self)
        ensures
            r.name@ == self.name@,
            r.rarity == self.rarity,
            r.equip_slot == self.equip_slot,
            r.weapon == self.weapon,
            r.consumable == self.consumable,
            r.size == self.size,
            r.mods == self.mods,
            r.extra_rolls@.len() == self.extra_rolls@.len(),
            forall|i: int| 0 <= i < self.extra_rolls@.len() ==>
                (#[trigger] r.extra_rolls@[i]).0@ == self.extra_rolls@[i].0@ && r.extra_rolls@[i].1 == self.extra_rolls@[i].1,
    {
        let mut extra: Vec<(String, i32)> = Vec::new();
        let mut i: usize = 0;
        while i < self.extra_rolls.len()
            invariant
                0 <= i <= self.extra_rolls@.len(),
                extra@.len() == i,
                forall|j: int| 0 <= j < i ==>
                    (#[trigger] extra@[j]).0@ == self.extra_rolls@[j].0@ && extra@[j].1 == self.extra_rolls@[j].1,
            decreases self.extra_rolls@.len() - i,
        {
            let label = self.extra_rolls[i].0.clone();
            extra.push((label, self.extra_rolls[i].1));
            i = i + 1;
        }
        Item {
            name: self.name.clone(),
            rarity: self.rarity,
            equip_slot: self.equip_slot,
            weapon: self.weapon,
            consumable: self.consumable,
            size: self.size,
            mods: self.mods,
            extra_rolls: extra,
        }
    }
}

impl Item {
    /// A bag upgrade is an item worn in the bag slot.
    pub fn is_bag_upgrade(&self) -> (b: bool)
        ensures
            b == (self.equip_slot == Some(EquipSlot::Bag)),
    {
        match self.equip_slot {
            Some(EquipSlot::Bag) => true,
            _ => false,
        }
    }
}

/// Dimensions of a bag grid.
#[derive(Clone, Copy, Debug, PartialEq, Eq, Structural)]
pub struct BagSize {
    pub w: u8,
    pub h: u8,
}

/// Bag dimensions granted by a bag of each rarity.
pub open spec fn spec_bag_size(r: Rarity) -> (u8, u8) {
    match r {
        Rarity::Common => (5u8, 14u8),
        Rarity::Uncommon => (6u8, 20u8),
        Rarity::Rare => (8u8, 22u8),
        Rarity::UltraRare => (10u8, 20u8),
        Rarity::Legendary => (24u8, 24u8),
        Rarity::Unique => (100u8, 100u8),
    }
}

/// common 5x14, uncommon 6x20, rare 8x22, ultra 10x20, legendary 24x24, unique 100x100.
pub fn bag_size_for_rarity(r: Rarity) -> (b: BagSize)
    ensures
        (b.w, b.h) == spec_bag_size(r),
{
    match r {
        Rarity::Common => BagSize { w: 5, h: 14 },
        Rarity::Uncommon => BagSize { w: 6, h: 20 },
        Rarity::Rare => BagSize { w: 8, h: 22 },
        Rarity::UltraRare => BagSize { w: 10, h: 20 },
        Rarity::Legendary => BagSize { w: 24, h: 24 },
        Rarity::Unique => BagSize { w: 100, h: 100 },
    }
}

/// The equipment categories in roll order.
pub open spec fn equip_categories() -> Seq<EquipSlot> {
    seq![
        EquipSlot::Watch, EquipSlot::Necklace, EquipSlot::Gloves, EquipSlot::Shirt,
        EquipSlot::Pants, EquipSlot::Shoes, EquipSlot::Hat, EquipSlot::Cape,
        EquipSlot::MainHand, EquipSlot::OffHand, EquipSlot::TwoHanded, EquipSlot::Bag,
    ]
}

/// The equipment category at position `i` of the roll order.
pub fn equip_category_at(i: usize) -> (s: EquipSlot)
    requires
        i < 12,
    ensures
        s == equip_categories()[i as int],
{
    let cats = [
        EquipSlot::Watch, EquipSlot::Necklace, EquipSlot::Gloves, EquipSlot::Shirt,
        EquipSlot::Pants, EquipSlot::Shoes, EquipSlot::Hat, EquipSlot::Cape,
        EquipSlot::MainHand, EquipSlot::OffHand, EquipSlot::TwoHanded, EquipSlot::Bag,
    ];
    assert(cats@ == equip_categories());
    cats[i]
}

/// Rolls an equipment category, every category equally likely: one draw in
/// `0..12`, then `equip_category_at`.
pub fn roll_equip_category(rng: &mut Dice) -> (s: EquipSlot)
    ensures
        equip_categories().contains(s),
        extends(old(rng).draws(), final(rng).draws()),
        category_draws(draws_since(old(rng).draws(), final(rng).draws()), s),
{
    let ghost d0 = rng.draws();
    let i = rng.range_usize(0, 12);
    let s = equip_category_at(i);
    assert(equip_categories()[i as int] == s);
    proof {
        assert(rng.draws() == d0 + seq![Draw::Usize(0, 12, i)]);
        lemma_since_append(d0, seq![Draw::Usize(0, 12, i)]);
    }
    s
}

/// The draws of an equipment category `s`: one index in `0..12` into
/// `equip_categories()`.
pub open spec fn category_draws(d: Seq<Draw>, s: EquipSlot) -> bool {
    &&& d.len() == 1
    &&& usize_draw(d[0], 0, 12)
    &&& s == equip_categories()[draw_value(d[0])]
}

} // verus!

verus! {

/// Debug name of a rarity.
pub open spec fn rarity_name(r: Rarity) -> Seq<char> {
    match r {
        Rarity::Common => "Common"@,
        Rarity::Uncommon => "Uncommon"@,
        Rarity::Rare => "Rare"@,
        Rarity::UltraRare => "UltraRare"@,
        Rarity::Legendary => "Legendary"@,
        Rarity::Unique => "Unique"@,
    }
}

/// Debug name of an equipment slot.
pub open spec fn slot_name(s: EquipSlot) -> Seq<char> {
    match s {
        EquipSlot::Watch => "Watch"@,
        EquipSlot::Necklace => "Necklace"@,
        EquipSlot::Gloves => "Gloves"@,
        EquipSlot::Shirt => "Shirt"@,
        EquipSlot::Pants => "Pants"@,
        EquipSlot::Shoes => "Shoes"@,
        EquipSlot::Hat => "Hat"@,
        EquipSlot::Cape => "Cape"@,
        EquipSlot::MainHand => "MainHand"@,
        EquipSlot::OffHand => "OffHand"@,
        EquipSlot::TwoHanded => "TwoHanded"@,
        EquipSlot::Bag => "Bag"@,
    }
}

/// Debug name of a weapon kind.
pub open spec fn weapon_name(w: WeaponKind) -> Seq<char> {
    match w {
        WeaponKind::TwoHandedSword => "TwoHandedSword"@,
        WeaponKind::LongSword => "LongSword"@,
        WeaponKind::DoubleAxe => "DoubleAxe"@,
        WeaponKind::Scythe => "Scythe"@,
        WeaponKind::GiantHammer => "GiantHammer"@,
        WeaponKind::Book => "Book"@,
        WeaponKind::MagicStaff => "MagicStaff"@,
        WeaponKind::Dagger => "Dagger"@,
        WeaponKind::CrystalBall => "CrystalBall"@,
        WeaponKind::Hatchet => "Hatchet"@,
        WeaponKind::ShortSword => "ShortSword"@,
        WeaponKind::Lantern => "Lantern"@,
    }
}

/// Debug name of a consumable kind.
pub open spec fn consumable_kind_name(k: ConsumableKind) -> Seq<char> {
    match k {
        ConsumableKind::BigHeal => "BigHeal"@,
        ConsumableKind::SmallHeal => "SmallHeal"@,
        ConsumableKind::BigBandage => "BigBandage"@,
        ConsumableKind::SmallBandage => "SmallBandage"@,
    }
}

/// Display name of a consumable.
pub open spec fn consumable_name(k: ConsumableKind) -> Seq<char> {
    match k {
        ConsumableKind::BigHeal => "Big Heal Potion"@,
        ConsumableKind::SmallHeal => "Small Heal Potion"@,
        ConsumableKind::BigBandage => "Big Bandage"@,
        ConsumableKind::SmallBandage => "Small Bandage"@,
    }
}

/// Bag footprint of a consumable: the big ones take two cells.
pub open spec fn consumable_size(k: ConsumableKind) -> (u8, u8) {
    match k {
        ConsumableKind::BigHeal => (1u8, 2u8),
        ConsumableKind::SmallHeal => (1u8, 1u8),
        ConsumableKind::BigBandage => (1u8, 2u8),
        ConsumableKind::SmallBandage => (1u8, 1u8),
    }
}

/// Name of the attribute that a roll key targets (0..=3, anything else is endurance).
pub open spec fn stat_label(key: i32) -> Seq<char> {
    if key == 0 {
        "vigor"@
    } else if key == 1 {
        "strength"@
    } else if key == 2 {
        "agility"@
    } else if key == 3 {
        "magic"@
    } else {
        "endurance"@
    }
}

/// `m` with `delta` added to the attribute that `key` targets.
pub open spec fn apply_roll(m: StatMods, key: i32, delta: i32) -> StatMods {
    if key == 0 {
        StatMods { vigor: (m.vigor + delta) as i32, ..m }
    } else if key == 1 {
        StatMods { strength: (m.strength + delta) as i32, ..m }
    } else if key == 2 {
        StatMods { agility: (m.agility + delta) as i32, ..m }
    } else if key == 3 {
        StatMods { magic: (m.magic + delta) as i32, ..m }
    } else {
        StatMods { endurance: (m.endurance + delta) as i32, ..m }
    }
}

/// The modifiers that a list of (key, delta) rolls adds up to, from zero.
pub open spec fn mods_after(rolls: Seq<(i32, i32)>) -> StatMods
    decreases rolls.len(),
{
    if rolls.len() == 0 {
        zero_mods()
    } else {
        apply_roll(mods_after(rolls.drop_last()), rolls.last().0, rolls.last().1)
    }
}

/// Bound on every attribute of `m`.
pub open spec fn mods_bounded(m: StatMods, b: int) -> bool {
    &&& -b <= m.vigor <= b
    &&& -b <= m.strength <= b
    &&& -b <= m.agility <= b
    &&& -b <= m.magic <= b
    &&& -b <= m.endurance <= b
}

/// Rolls that `roll_item` can produce: at most five, each delta within 500.
pub open spec fn small_rolls(rolls: Seq<(i32, i32)>) -> bool {
    &&& rolls.len() <= 5
    &&& forall|i: int| 0 <= i < rolls.len() ==> -500 <= (#[trigger] rolls[i]).1 <= 500
}

/// Weapons that a two-handed roll draws from, in roll order.
pub open spec fn two_handed_weapons() -> Seq<WeaponKind> {
    seq![
        WeaponKind::TwoHandedSword, WeaponKind::LongSword, WeaponKind::DoubleAxe, WeaponKind::Scythe,
        WeaponKind::GiantHammer, WeaponKind::Book, WeaponKind::MagicStaff,
    ]
}

/// Weapons that a main-hand or off-hand roll draws from, in roll order.
pub open spec fn one_handed_weapons() -> Seq<WeaponKind> {
    seq![WeaponKind::Dagger, WeaponKind::CrystalBall, WeaponKind::Hatchet, WeaponKind::ShortSword, WeaponKind::Lantern]
}

/// Which weapon, if any, an item rolled for `slot` carries.
pub open spec fn weapon_fits_slot(slot: EquipSlot, weapon: Option<WeaponKind>) -> bool {
    match slot {
        EquipSlot::TwoHanded => weapon is Some && two_handed_weapons().contains(weapon.unwrap()),
        EquipSlot::MainHand | EquipSlot::OffHand => weapon is Some && one_handed_weapons().contains(weapon.unwrap()),
        _ => weapon is None,
    }
}

/// Bag footprint of rolled equipment.
pub open spec fn equipment_size(slot: EquipSlot) -> (u8, u8) {
    match slot {
        EquipSlot::TwoHanded => (2u8, 4u8),
        EquipSlot::Bag => (2u8, 3u8),
        _ => (2u8, 2u8),
    }
}

/// Name of rolled equipment: the weapon's name for weapons, "<Rarity> Bag WxH"
/// for bags, and the slot's name otherwise.
pub open spec fn equipment_name(rarity: Rarity, slot: EquipSlot, weapon: Option<WeaponKind>) -> Seq<char> {
    match slot {
        EquipSlot::TwoHanded | EquipSlot::MainHand | EquipSlot::OffHand => weapon_name(weapon.unwrap()),
        EquipSlot::Bag => rarity_name(rarity) + " Bag "@ + decimal(spec_bag_size(rarity).0 as nat) + "x"@
            + decimal(spec_bag_size(rarity).1 as nat),
        _ => slot_name(slot),
    }
}

/// `it` is the consumable of kind `kind` and rarity `rarity`.
pub open spec fn describes_consumable(it: Item, rarity: Rarity, kind: ConsumableKind) -> bool {
    &&& it.name@ == consumable_name(kind)
    &&& it.rarity == rarity
    &&& it.equip_slot is None
    &&& it.weapon is None
    &&& it.consumable == Some(kind)
    &&& it.size == consumable_size(kind)
    &&& it.mods == zero_mods()
    &&& it.extra_rolls@.len() == 0
}

/// `it` is the equipment for `slot` with the given weapon and attribute rolls.
pub open spec fn describes_equipment(
    it: Item,
    rarity: Rarity,
    slot: EquipSlot,
    weapon: Option<WeaponKind>,
    rolls: Seq<(i32, i32)>,
) -> bool {
    &&& it.name@ == equipment_name(rarity, slot, weapon)
    &&& it.rarity == rarity
    &&& it.equip_slot == Some(slot)
    &&& it.weapon == weapon
    &&& it.consumable is None
    &&& it.size == equipment_size(slot)
    &&& it.mods == mods_after(rolls)
    &&& it.extra_rolls@.len() == rolls.len()
    &&& forall|i: int|
        0 <= i < rolls.len() ==> (#[trigger] it.extra_rolls@[i]).0@ == stat_label(rolls[i].0)
            && it.extra_rolls@[i].1 == rolls[i].1
}

/// The attribute rolls that each rarity grants: a fixed primary bump (two of
/// them for Legendary) followed by random deltas in -10..=10; Unique items get
/// a single bump of 10..=500. Keys pick the attribute (0..=4).
pub open spec fn rolls_for_rarity(r: Rarity, rolls: Seq<(i32, i32)>) -> bool {
    &&& forall|i: int| 0 <= i < rolls.len() ==> 0 <= (#[trigger] rolls[i]).0 <= 4
    &&& match r {
        Rarity::Common => rolls.len() == 1 && rolls[0].1 == 2,
        Rarity::Uncommon => rolls.len() == 2 && rolls[0].1 == 3,
        Rarity::Rare => rolls.len() == 3 && rolls[0].1 == 4,
        Rarity::UltraRare => rolls.len() == 4 && rolls[0].1 == 5,
        Rarity::Legendary => rolls.len() == 5 && rolls[0].1 == 7 && rolls[1].1 == 7,
        Rarity::Unique => rolls.len() == 1 && 10 <= rolls[0].1 <= 500,
    }
    &&& forall|i: int|
        first_random_roll(r) <= i < rolls.len() ==> -10 <= (#[trigger] rolls[i]).1 <= 10
}

/// Index of the first -10..=10 roll for a rarity.
pub open spec fn first_random_roll(r: Rarity) -> int {
    match r {
        Rarity::Legendary => 2,
        _ => 1,
    }
}

fn rarity_name_str(r: Rarity) -> (s: &'static str)
    ensures
        s@ == rarity_name(r),
{
    match r {
        Rarity::Common => "Common",
        Rarity::Uncommon => "Uncommon",
        Rarity::Rare => "Rare",
        Rarity::UltraRare => "UltraRare",
        Rarity::Legendary => "Legendary",
        Rarity::Unique => "Unique",
    }
}

/// The Debug name of an equipment slot.
pub fn slot_name_str(s: EquipSlot) -> (r: &'static str)
    ensures
        r@ == slot_name(s),
{
    match s {
        EquipSlot::Watch => "Watch",
        EquipSlot::Necklace => "Necklace",
        EquipSlot::Gloves => "Gloves",
        EquipSlot::Shirt => "Shirt",
        EquipSlot::Pants => "Pants",
        EquipSlot::Shoes => "Shoes",
        EquipSlot::Hat => "Hat",
        EquipSlot::Cape => "Cape",
        EquipSlot::MainHand => "MainHand",
        EquipSlot::OffHand => "OffHand",
        EquipSlot::TwoHanded => "TwoHanded",
        EquipSlot::Bag => "Bag",
    }
}

/// The Debug name of a weapon kind.
pub fn weapon_name_str(w: WeaponKind) -> (r: &'static str)
    ensures
        r@ == weapon_name(w),
{
    match w {
        WeaponKind::TwoHandedSword => "TwoHandedSword",
        WeaponKind::LongSword => "LongSword",
        WeaponKind::DoubleAxe => "DoubleAxe",
        WeaponKind::Scythe => "Scythe",
        WeaponKind::GiantHammer => "GiantHammer",
        WeaponKind::Book => "Book",
        WeaponKind::MagicStaff => "MagicStaff",
        WeaponKind::Dagger => "Dagger",
        WeaponKind::CrystalBall => "CrystalBall",
        WeaponKind::Hatchet => "Hatchet",
        WeaponKind::ShortSword => "ShortSword",
        WeaponKind::Lantern => "Lantern",
    }
}

/// The Debug name of a consumable kind.
pub fn consumable_kind_name_str(k: ConsumableKind) -> (r: &'static str)
    ensures
        r@ == consumable_kind_name(k),
{
    match k {
        ConsumableKind::BigHeal => "BigHeal",
        ConsumableKind::SmallHeal => "SmallHeal",
        ConsumableKind::BigBandage => "BigBandage",
        ConsumableKind::SmallBandage => "SmallBandage",
    }
}

fn stat_label_str(key: i32) -> (s: &'static str)
    ensures
        s@ == stat_label(key),
{
    if key == 0 {
        "vigor"
    } else if key == 1 {
        "strength"
    } else if key == 2 {
        "agility"
    } else if key == 3 {
        "magic"
    } else {
        "endurance"
    }
}

/// What an item is, as shown under its name: its weapon kind, else its slot,
/// else its consumable kind, else "Item".
pub open spec fn descriptor(it: Item) -> Seq<char> {
    match it.weapon {
        Some(w) => weapon_name(w),
        None => match it.equip_slot {
            Some(s) => slot_name(s),
            None => match it.consumable {
                Some(k) => consumable_kind_name(k),
                None => "Item"@,
            },
        },
    }
}

/// The kind of `item`, for the item cards (see `descriptor`).
pub fn item_descriptor(item: &Item) -> (s: String)
    ensures
        s@ == descriptor(*item),
{
    match item.weapon {
        Some(w) => String::from_str(weapon_name_str(w)),
        None => match item.equip_slot {
            Some(slot) => String::from_str(slot_name_str(slot)),
            None => match item.consumable {
                Some(k) => String::from_str(consumable_kind_name_str(k)),
                None => {
                    proof {
                        reveal_strlit("Item");
                    }
                    String::from_str("Item")
                },
            },
        },
    }
}

/// The consumable of kind `kind`: 1x1 or 1x2, no stats.
pub fn consumable_item(rarity: Rarity, kind: ConsumableKind) -> (it: Item)
    ensures
        describes_consumable(it, rarity, kind),
{
    let (name, size): (&str, (u8, u8)) = match kind {
        ConsumableKind::BigHeal => ("Big Heal Potion", (1, 2)),
        ConsumableKind::SmallHeal => ("Small Heal Potion", (1, 1)),
        ConsumableKind::BigBandage => ("Big Bandage", (1, 2)),
        ConsumableKind::SmallBandage => ("Small Bandage", (1, 1)),
    };
    Item {
        name: String::from_str(name),
        rarity,
        equip_slot: None,
        weapon: None,
        consumable: Some(kind),
        size,
        mods: StatMods::default(),
        extra_rolls: Vec::new(),
    }
}

/// Equipment for `slot` carrying `weapon`, with the attribute `rolls` applied
/// in order (each roll also recorded in `extra_rolls`).
pub fn equipment_item(rarity: Rarity, slot: EquipSlot, weapon: Option<WeaponKind>, rolls: &Vec<(i32, i32)>) -> (it: Item)
    requires
        weapon_fits_slot(slot, weapon),
        small_rolls(rolls@),
    ensures
        describes_equipment(it, rarity, slot, weapon, rolls@),
{
    let mut mods = StatMods::default();
    let mut extra: Vec<(String, i32)> = Vec::new();
    let mut i: usize = 0;
    while i < rolls.len()
        invariant
            0 <= i <= rolls@.len(),
            small_rolls(rolls@),
            mods == mods_after(rolls@.subrange(0, i as int)),
            mods_bounded(mods, 500 * i),
            extra@.len() == i,
            forall|j: int|
                0 <= j < i ==> (#[trigger] extra@[j]).0@ == stat_label(rolls@[j].0) && extra@[j].1 == rolls@[j].1,
        decreases rolls@.len() - i,
    {
        let (key, delta) = rolls[i];
        assert(-500 <= rolls@[i as int].1 <= 500);
        assert(rolls@.subrange(0, i as int + 1).drop_last() =~= rolls@.subrange(0, i as int));
        if key == 0 {
            mods.vigor = mods.vigor + delta;
        } else if key == 1 {
            mods.strength = mods.strength + delta;
        } else if key == 2 {
            mods.agility = mods.agility + delta;
        } else if key == 3 {
            mods.magic = mods.magic + delta;
        } else {
            mods.endurance = mods.endurance + delta;
        }
        extra.push((String::from_str(stat_label_str(key)), delta));
        i = i + 1;
    }
    assert(rolls@.subrange(0, rolls@.len() as int) =~= rolls@);
    let (size, name): ((u8, u8), String) = match slot {
        EquipSlot::TwoHanded => ((2, 4), String::from_str(weapon_name_str(weapon.unwrap()))),
        EquipSlot::MainHand | EquipSlot::OffHand => ((2, 2), String::from_str(weapon_name_str(weapon.unwrap()))),
        EquipSlot::Bag => {
            let bs = bag_size_for_rarity(rarity);
            let mut n = String::from_str(rarity_name_str(rarity));
            n.append(" Bag ");
            push_decimal(&mut n, bs.w as u32);
            n.append("x");
            push_decimal(&mut n, bs.h as u32);
            ((2, 3), n)
        },
        _ => ((2, 2), String::from_str(slot_name_str(slot))),
    };
    Item {
        name,
        rarity,
        equip_slot: Some(slot),
        weapon,
        consumable: None,
        size,
        mods,
        extra_rolls: extra,
    }
}

} // verus!

verus! {

/// Item that `roll_item` may produce: a consumable of some kind, or equipment
/// of a rolled category with the weapon and attribute rolls its rarity allows.
pub open spec fn is_rollable_item(it: Item) -> bool {
    ||| exists|k: ConsumableKind| describes_consumable(it, it.rarity, k)
    ||| exists|slot: EquipSlot, weapon: Option<WeaponKind>, rolls: Seq<(i32, i32)>|
        #![trigger describes_equipment(it, it.rarity, slot, weapon, rolls)]
        equip_categories().contains(slot) && weapon_fits_slot(slot, weapon) && rolls_for_rarity(it.rarity, rolls)
            && describes_equipment(it, it.rarity, slot, weapon, rolls)
}

/// The rarities in roll order (that of `Rarity::all` and `Rarity::weights`).
pub open spec fn rarities() -> Seq<Rarity> {
    seq![Rarity::Common, Rarity::Uncommon, Rarity::Rare, Rarity::UltraRare, Rarity::Legendary, Rarity::Unique]
}

/// The consumable kinds in roll order.
pub open spec fn consumable_kinds() -> Seq<ConsumableKind> {
    seq![ConsumableKind::BigHeal, ConsumableKind::SmallHeal, ConsumableKind::BigBandage, ConsumableKind::SmallBandage]
}

/// The weapons an item rolled for `slot` draws from (none for other slots).
pub open spec fn weapon_choices(slot: EquipSlot) -> Seq<WeaponKind> {
    match slot {
        EquipSlot::TwoHanded => two_handed_weapons(),
        EquipSlot::MainHand | EquipSlot::OffHand => one_handed_weapons(),
        _ => Seq::empty(),
    }
}

/// The weapon at draw `wix` for `slot`, or none where the slot carries none.
pub open spec fn drawn_weapon(slot: EquipSlot, wix: int) -> Option<WeaponKind> {
    if weapon_choices(slot).len() == 0 {
        None
    } else {
        Some(weapon_choices(slot)[wix])
    }
}

/// How many weapons an item rolled for `slot` draws from.
pub fn weapon_choice_count(slot: EquipSlot) -> (n: usize)
    ensures
        n == weapon_choices(slot).len(),
{
    match slot {
        EquipSlot::TwoHanded => 7,
        EquipSlot::MainHand | EquipSlot::OffHand => 5,
        _ => 0,
    }
}

/// The consumable that the draws `rix` (rarity) and `kix` (kind) give.
pub fn consumable_from_draws(rix: usize, kix: usize) -> (it: Item)
    requires
        rix < 6,
        kix < 4,
    ensures
        describes_consumable(it, rarities()[rix as int], consumable_kinds()[kix as int]),
{
    let all = Rarity::all();
    let kinds = [ConsumableKind::BigHeal, ConsumableKind::SmallHeal, ConsumableKind::BigBandage, ConsumableKind::SmallBandage];
    assert(kinds@ == consumable_kinds());
    consumable_item(all[rix], kinds[kix])
}

/// The equipment that the draws give: rarity `rix`, category `slot`, the
/// attribute `rolls`, and weapon `wix` (read only for weapon slots).
pub fn equipment_from_draws(rix: usize, slot: EquipSlot, rolls: &Vec<(i32, i32)>, wix: usize) -> (it: Item)
    requires
        rix < 6,
        small_rolls(rolls@),
        weapon_choices(slot).len() > 0 ==> wix < weapon_choices(slot).len(),
    ensures
        describes_equipment(it, rarities()[rix as int], slot, drawn_weapon(slot, wix as int), rolls@),
{
    let all = Rarity::all();
    let weapon: Option<WeaponKind> = match slot {
        EquipSlot::TwoHanded => {
            let w = [
                WeaponKind::TwoHandedSword, WeaponKind::LongSword, WeaponKind::DoubleAxe, WeaponKind::Scythe,
                WeaponKind::GiantHammer, WeaponKind::Book, WeaponKind::MagicStaff,
            ];
            assert(w@ == two_handed_weapons());
            assert(two_handed_weapons()[wix as int] == w[wix as int]);
            Some(w[wix])
        },
        EquipSlot::MainHand | EquipSlot::OffHand => {
            let w = [WeaponKind::Dagger, WeaponKind::CrystalBall, WeaponKind::Hatchet, WeaponKind::ShortSword, WeaponKind::Lantern];
            assert(w@ == one_handed_weapons());
            assert(one_handed_weapons()[wix as int] == w[wix as int]);
            Some(w[wix])
        },
        _ => None,
    };
    equipment_item(all[rix], slot, weapon, rolls)
}

/// Pushes one roll of `delta` onto a random attribute (key 0..=4).
fn roll_stat(rng: &mut Dice, rolls: &mut Vec<(i32, i32)>, delta: i32)
    ensures
        final(rolls)@.len() == old(rolls)@.len() + 1,
        final(rolls)@.drop_last() == old(rolls)@,
        final(rolls)@.last().1 == delta,
        0 <= final(rolls)@.last().0 <= 4,
        final(rng).draws() == old(rng).draws().push(Draw::I32(0, 4, final(rolls)@.last().0)),
{
    let key = rng.range_i32_inclusive(0, 4);
    rolls.push((key, delta));
}

/// Pushes one roll of a random delta in -10..=10 (the delta is drawn before
/// the attribute).
fn roll_random_stat(rng: &mut Dice, rolls: &mut Vec<(i32, i32)>)
    ensures
        final(rolls)@.len() == old(rolls)@.len() + 1,
        final(rolls)@.drop_last() == old(rolls)@,
        -10 <= final(rolls)@.last().1 <= 10,
        0 <= final(rolls)@.last().0 <= 4,
        final(rng).draws() == old(rng).draws().push(Draw::I32(-10i32, 10, final(rolls)@.last().1)).push(
            Draw::I32(0, 4, final(rolls)@.last().0),
        ),
{
    let d = rng.range_i32_inclusive(-10, 10);
    roll_stat(rng, rolls, d);
}

/// Position of a rarity in `rarities()`.
pub open spec fn rarity_index(r: Rarity) -> int {
    match r {
        Rarity::Common => 0,
        Rarity::Uncommon => 1,
        Rarity::Rare => 2,
        Rarity::UltraRare => 3,
        Rarity::Legendary => 4,
        Rarity::Unique => 5,
    }
}

/// A draw of an attribute key (0..=4).
pub open spec fn key_draw(d: Draw) -> bool {
    i32_draw(d, 0, 4)
}

/// A draw of a random delta (-10..=10).
pub open spec fn delta_draw(d: Draw) -> bool {
    i32_draw(d, -10i32, 10)
}

/// How many draws the attribute rolls of a rarity take.
pub open spec fn stat_draw_count(r: Rarity) -> int {
    match r {
        Rarity::Common => 1,
        Rarity::Uncommon => 3,
        Rarity::Rare => 5,
        Rarity::UltraRare => 7,
        Rarity::Legendary => 8,
        Rarity::Unique => 2,
    }
}

/// The draws of the attribute rolls of an item of rarity `r`, in order: a
/// key for each primary bump (two for Legendary), then a delta and a key for
/// each random roll; Unique draws a delta in 10..=500 and then its key.
pub open spec fn stat_draws(r: Rarity, d: Seq<Draw>) -> bool {
    &&& d.len() == stat_draw_count(r)
    &&& match r {
        Rarity::Common => key_draw(d[0]),
        Rarity::Uncommon => key_draw(d[0]) && delta_draw(d[1]) && key_draw(d[2]),
        Rarity::Rare => key_draw(d[0]) && delta_draw(d[1]) && key_draw(d[2]) && delta_draw(d[3]) && key_draw(d[4]),
        Rarity::UltraRare => key_draw(d[0]) && delta_draw(d[1]) && key_draw(d[2]) && delta_draw(d[3]) && key_draw(d[4])
            && delta_draw(d[5]) && key_draw(d[6]),
        Rarity::Legendary => key_draw(d[0]) && key_draw(d[1]) && delta_draw(d[2]) && key_draw(d[3]) && delta_draw(d[4])
            && key_draw(d[5]) && delta_draw(d[6]) && key_draw(d[7]),
        Rarity::Unique => i32_draw(d[0], 10, 500) && key_draw(d[1]),
    }
}

/// The attribute rolls, as (key, delta), that the draws `d` give an item of
/// rarity `r`.
pub open spec fn stat_rolls(r: Rarity, d: Seq<Draw>) -> Seq<(i32, i32)> {
    let v = |i: int| draw_value(d[i]) as i32;
    match r {
        Rarity::Common => seq![(v(0), 2i32)],
        Rarity::Uncommon => seq![(v(0), 3i32), (v(2), v(1))],
        Rarity::Rare => seq![(v(0), 4i32), (v(2), v(1)), (v(4), v(3))],
        Rarity::UltraRare => seq![(v(0), 5i32), (v(2), v(1)), (v(4), v(3)), (v(6), v(5))],
        Rarity::Legendary => seq![(v(0), 7i32), (v(1), 7i32), (v(3), v(2)), (v(5), v(4)), (v(7), v(6))],
        Rarity::Unique => seq![(v(1), v(0))],
    }
}

/// The draws of an equipment roll that gave `it`: its category, its
/// attribute rolls, and, for a weapon slot, the weapon.
pub open spec fn equipment_draws(e: Seq<Draw>, it: Item) -> bool {
    let n = stat_draw_count(it.rarity);
    let slot = equip_categories()[draw_value(e[0])];
    let choices = weapon_choices(slot);
    &&& e.len() >= 1 + n
    &&& usize_draw(e[0], 0, 12)
    &&& stat_draws(it.rarity, e.subrange(1, 1 + n))
    &&& if choices.len() > 0 {
        e.len() == 2 + n && usize_draw(e[1 + n], 0, choices.len() as usize)
    } else {
        e.len() == 1 + n
    }
    &&& describes_equipment(
        it,
        it.rarity,
        slot,
        drawn_weapon(slot, draw_value(e[1 + n])),
        stat_rolls(it.rarity, e.subrange(1, 1 + n)),
    )
}

/// The draws of one `roll_item` that gave `it`: a roll in `0..100` whose
/// weight band is the rarity, a 15-in-100 chance of a consumable, then the
/// consumable's kind (an index in `0..4`) or the equipment's draws.
pub open spec fn item_draws(d: Seq<Draw>, it: Item) -> bool {
    &&& d.len() >= 3
    &&& u32_draw(d[0], 0, 100)
    &&& picks(seq![30u32, 25, 20, 14, 10, 1], draw_value(d[0]), rarity_index(it.rarity))
    &&& ratio_draw(d[1], 15, 100)
    &&& if draw_hit(d[1]) {
        &&& d.len() == 3
        &&& usize_draw(d[2], 0, 4)
        &&& describes_consumable(it, it.rarity, consumable_kinds()[draw_value(d[2])])
    } else {
        equipment_draws(d.skip(2), it)
    }
}

/// The draws of rolling `items` one after the other.
pub open spec fn item_list_draws(d: Seq<Draw>, items: Seq<Item>) -> bool
    decreases items.len(),
{
    if items.len() == 0 {
        d.len() == 0
    } else {
        exists|k: int|
            0 <= k <= d.len() && item_list_draws(d.take(k), items.drop_last()) && #[trigger] item_draws(
                d.skip(k),
                items.last(),
            )
    }
}

/// Rolling one more item extends the draws of a list of items.
pub proof fn lemma_item_list_draws_push(d: Seq<Draw>, items: Seq<Item>, e: Seq<Draw>, it: Item)
    requires
        item_list_draws(d, items),
        item_draws(e, it),
    ensures
        item_list_draws(d + e, items.push(it)),
{
    let k = d.len() as int;
    assert((d + e).take(k) =~= d);
    assert((d + e).skip(k) =~= e);
    assert(items.push(it).drop_last() =~= items);
    assert(items.push(it).last() == it);
    assert(item_list_draws((d + e).take(k), items.push(it).drop_last()));
    assert(item_draws((d + e).skip(k), items.push(it).last()));
}

/// Rolls the attribute rolls of an item of rarity `rarity` (see
/// `stat_draws` and `stat_rolls`).
fn roll_stats(rng: &mut Dice, rarity: Rarity) -> (rolls: Vec<(i32, i32)>)
    ensures
        extends(old(rng).draws(), final(rng).draws()),
        stat_draws(rarity, draws_since(old(rng).draws(), final(rng).draws())),
        rolls@ == stat_rolls(rarity, draws_since(old(rng).draws(), final(rng).draws())),
        rolls_for_rarity(rarity, rolls@),
        small_rolls(rolls@),
{
    let ghost d3 = rng.draws();
    let mut rolls: Vec<(i32, i32)> = Vec::new();
    match rarity {
        Rarity::Common => {
            roll_stat(rng, &mut rolls, 2);
            assert(rng.draws() =~= d3 + seq![Draw::I32(0, 4, rolls@[0].0)]);
        },
        Rarity::Uncommon => {
            roll_stat(rng, &mut rolls, 3);
            roll_random_stat(rng, &mut rolls);
            assert(rng.draws() =~= d3 + seq![
                Draw::I32(0, 4, rolls@[0].0),
                Draw::I32(-10i32, 10, rolls@[1].1),
                Draw::I32(0, 4, rolls@[1].0),
            ]);
        },
        Rarity::Rare => {
            roll_stat(rng, &mut rolls, 4);
            roll_random_stat(rng, &mut rolls);
            roll_random_stat(rng, &mut rolls);
            assert(rng.draws() =~= d3 + seq![
                Draw::I32(0, 4, rolls@[0].0),
                Draw::I32(-10i32, 10, rolls@[1].1),
                Draw::I32(0, 4, rolls@[1].0),
                Draw::I32(-10i32, 10, rolls@[2].1),
                Draw::I32(0, 4, rolls@[2].0),
            ]);
        },
        Rarity::UltraRare => {
            roll_stat(rng, &mut rolls, 5);
            roll_random_stat(rng, &mut rolls);
            roll_random_stat(rng, &mut rolls);
            roll_random_stat(rng, &mut rolls);
            assert(rng.draws() =~= d3 + seq![
                Draw::I32(0, 4, rolls@[0].0),
                Draw::I32(-10i32, 10, rolls@[1].1),
                Draw::I32(0, 4, rolls@[1].0),
                Draw::I32(-10i32, 10, rolls@[2].1),
                Draw::I32(0, 4, rolls@[2].0),
                Draw::I32(-10i32, 10, rolls@[3].1),
                Draw::I32(0, 4, rolls@[3].0),
            ]);
        },
        Rarity::Legendary => {
            roll_stat(rng, &mut rolls, 7);
            roll_stat(rng, &mut rolls, 7);
            roll_random_stat(rng, &mut rolls);
            roll_random_stat(rng, &mut rolls);
            roll_random_stat(rng, &mut rolls);
            assert(rng.draws() =~= d3 + seq![
                Draw::I32(0, 4, rolls@[0].0),
                Draw::I32(0, 4, rolls@[1].0),
                Draw::I32(-10i32, 10, rolls@[2].1),
                Draw::I32(0, 4, rolls@[2].0),
                Draw::I32(-10i32, 10, rolls@[3].1),
                Draw::I32(0, 4, rolls@[3].0),
                Draw::I32(-10i32, 10, rolls@[4].1),
                Draw::I32(0, 4, rolls@[4].0),
            ]);
        },
        Rarity::Unique => {
            let d = rng.range_i32_inclusive(10, 500);
            roll_stat(rng, &mut rolls, d);
            assert(rng.draws() =~= d3 + seq![Draw::I32(10, 500, d), Draw::I32(0, 4, rolls@[0].0)]);
        },
    }
    let ghost d4 = rng.draws();
    proof {
        lemma_since_append(d3, d4.skip(d3.len() as int));
        assert(d4 =~= d3 + d4.skip(d3.len() as int));
        assert(stat_draws(rarity, draws_since(d3, d4)));
        assert(rolls@ =~= stat_rolls(rarity, draws_since(d3, d4)));
    }
    assert(rolls_for_rarity(rarity, rolls@)) by {
        let r = rolls@;
        assert forall|i: int| 0 <= i < r.len() implies 0 <= (#[trigger] r[i]).0 <= 4 by {
            assert(r[i] == r.subrange(0, i + 1).last());
        }
    }
    assert(small_rolls(rolls@));
    rolls
}

/// Rolls a random item: rarity by weight, then a consumable (15%) or a piece
/// of equipment whose attribute rolls follow its rarity (Unique: +10..=500 to
/// a single attribute).
pub fn roll_item(rng: &mut Dice) -> (it: Item)
    ensures
        is_rollable_item(it),
        extends(old(rng).draws(), final(rng).draws()),
        item_draws(draws_since(old(rng).draws(), final(rng).draws()), it),
{
    let ghost d0 = rng.draws();
    let weights = Rarity::weights();
    proof {
        reveal_with_fuel(crate::util::prefix_sum, 7);
    }
    assert(total_weight(weights@) == 100);
    let rix = weighted_pick(rng, &weights);
    let rarity = Rarity::all()[rix];
    let ghost d1 = rng.draws();

    let is_consumable = rng.ratio(15, 100);
    let ghost d2 = rng.draws();
    proof {
        assert(rarity_index(rarities()[rix as int]) == rix);
        assert(d2 == d1 + seq![Draw::Ratio(15, 100, is_consumable)]);
        lemma_since_append(d1, seq![Draw::Ratio(15, 100, is_consumable)]);
        lemma_extends_trans(d0, d1, d2);
    }
    if is_consumable {
        let kix = rng.range_usize(0, 4);
        let it = consumable_from_draws(rix, kix);
        assert(describes_consumable(it, it.rarity, consumable_kinds()[kix as int]));
        proof {
            assert(rng.draws() == d2 + seq![Draw::Usize(0, 4, kix)]);
            lemma_since_append(d2, seq![Draw::Usize(0, 4, kix)]);
            lemma_extends_trans(d0, d2, rng.draws());
            let d = draws_since(d0, rng.draws());
            assert(d[0] == draws_since(d0, d1)[0]);
            assert(d[1] == Draw::Ratio(15, 100, is_consumable));
            assert(d[2] == Draw::Usize(0, 4, kix));
        }
        return it;
    }

    let slot = roll_equip_category(rng);
    let ghost d3 = rng.draws();
    let rolls = roll_stats(rng, rarity);
    let ghost d4 = rng.draws();

    let n = weapon_choice_count(slot);
    let wix = if n > 0 {
        rng.range_usize(0, n)
    } else {
        0
    };
    let it = equipment_from_draws(rix, slot, &rolls, wix);
    let ghost weapon = drawn_weapon(slot, wix as int);
    assert(weapon_fits_slot(slot, weapon)) by {
        if weapon_choices(slot).len() > 0 {
            assert(weapon_choices(slot).contains(weapon_choices(slot)[wix as int]));
        }
    }
    assert(describes_equipment(it, it.rarity, slot, weapon, rolls@));
    proof {
        let wd: Seq<Draw> = if n > 0 {
            seq![Draw::Usize(0, n, wix)]
        } else {
            Seq::empty()
        };
        assert(rng.draws() =~= d4 + wd);
        lemma_since_append(d4, wd);
        lemma_extends_trans(d2, d3, d4);
        lemma_extends_trans(d2, d4, rng.draws());
        lemma_extends_trans(d0, d2, rng.draws());
        let d = draws_since(d0, rng.draws());
        let e = draws_since(d2, rng.draws());
        let st = draws_since(d3, d4);
        let nn = stat_draw_count(rarity);
        assert(d.skip(2) =~= e);
        assert(d[0] == draws_since(d0, d1)[0]);
        assert(d[1] == Draw::Ratio(15, 100, is_consumable));
        assert(e[0] == draws_since(d2, d3)[0]);
        assert(e.subrange(1, 1 + nn) =~= st);
        if n > 0 {
            assert(e[1 + nn] == Draw::Usize(0, n, wix));
        }
    }
    it
}

} // verus!

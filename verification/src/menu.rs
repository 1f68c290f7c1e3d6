//! The start screen and the in-game menus: stash, trader, equipment slots,
//! chests, and the rules of each button.

use crate::inventory::{
    add_worn_mods, bag_after_equip, has_fit, lemma_add_stores_item, lemma_stored_items_fill, spec_add, spec_equip,
    stored_items, take_cell, worn, worn_mods_fit, BagGrid, Chest, ChestTier, Equipment,
};
use crate::items::{
    equip_categories, is_rollable_item, item_draws, item_list_draws, lemma_item_list_draws_push, roll_item, EquipSlot, Item,
    Rarity,
};
use crate::rng::{draw_hit, draws_since, extends, lemma_extends_refl, lemma_extends_trans, lemma_since_append, ratio_draw, Dice, Draw};
use crate::stats::{diff_fits, diff_stats, stats_diff, PlayerStats, Stats};
use crate::util::push_decimal;
use crate::util::decimal;
use vstd::multiset::Multiset;
use vstd::prelude::*;

verus! {

/// Index of the first empty slot, or the length when there is none.
pub open spec fn first_none(s: Seq<Option<Item>>) -> int
    decreases s.len(),
{
    if s.len() == 0 {
        0
    } else {
        let f = first_none(s.drop_last());
        if f < s.len() - 1 {
            f
        } else if s.last() is None {
            s.len() - 1
        } else {
            s.len() as int
        }
    }
}

/// `first_none` is the least empty slot.
pub proof fn lemma_first_none(s: Seq<Option<Item>>)
    ensures
        0 <= first_none(s) <= s.len(),
        first_none(s) < s.len() ==> s[first_none(s)] is None,
        forall|j: int| 0 <= j < first_none(s) ==> #[trigger] s[j] is Some,
    decreases s.len(),
{
    if s.len() > 0 {
        let t = s.drop_last();
        lemma_first_none(t);
        assert forall|j: int| 0 <= j < first_none(s) implies #[trigger] s[j] is Some by {
            if j < s.len() - 1 {
                assert(s[j] == t[j]);
            }
        }
    }
}

/// Finds the first empty slot.
pub fn first_empty_slot(slots: &Vec<Option<Item>>) -> (r: Option<usize>)
    ensures
        r is Some <==> first_none(slots@) < slots@.len(),
        r matches Some(i) ==> i == first_none(slots@),
{
    proof {
        lemma_first_none(slots@);
    }
    let mut i: usize = 0;
    while i < slots.len()
        invariant
            0 <= i <= slots@.len(),
            0 <= first_none(slots@) <= slots@.len(),
            first_none(slots@) < slots@.len() ==> slots@[first_none(slots@)] is None,
            forall|j: int| 0 <= j < first_none(slots@) ==> #[trigger] slots@[j] is Some,
            forall|j: int| 0 <= j < i ==> #[trigger] slots@[j] is Some,
        decreases slots@.len() - i,
    {
        if slots[i].is_none() {
            return Some(i);
        }
        i = i + 1;
    }
    None
}

/// The player's stash of item slots.
#[derive(Clone, Debug)]
pub struct Stash {
    pub slots: Vec<Option<Item>>,
}

impl Default for Stash {
    /// 100 empty slots.
    fn default() -> (s: Self)
        ensures
            s.slots@ == Seq::new(100, |i: int| None::<Item>),
    {
        let mut slots: Vec<Option<Item>> = Vec::new();
        let mut i: usize = 0;
        while i < 100
            invariant
                0 <= i <= 100,
                slots@ == Seq::new(i as nat, |j: int| None::<Item>),
            decreases 100 - i,
        {
            slots.push(None);
            i = i + 1;
            assert(slots@ =~= Seq::new(i as nat, |j: int| None::<Item>));
        }
        Stash { slots }
    }
}

/// Whether the start screen or the maze is showing.
#[derive(Clone, Copy, Debug, PartialEq, Eq, Structural)]
pub enum AppState {
    Menu,
    InGame,
}

impl Default for AppState {
    /// The game opens on the start screen.
    fn default() -> (s: Self)
        ensures
            s == AppState::Menu,
    {
        AppState::Menu
    }
}

/// The attribute that a row of the start screen edits.
#[derive(Clone, Copy, Debug, PartialEq, Eq, Structural)]
pub enum Attribute {
    Vigor,
    Strength,
    Agility,
    Magic,
    Endurance,
}

/// The value of attribute `a` in `s`.
pub open spec fn attribute_of(s: Stats, a: Attribute) -> i32 {
    match a {
        Attribute::Vigor => s.vigor,
        Attribute::Strength => s.strength,
        Attribute::Agility => s.agility,
        Attribute::Magic => s.magic,
        Attribute::Endurance => s.endurance,
    }
}

/// `s` with attribute `a` set to `v`.
pub open spec fn with_attribute(s: Stats, a: Attribute, v: i32) -> Stats {
    match a {
        Attribute::Vigor => Stats { vigor: v, ..s },
        Attribute::Strength => Stats { strength: v, ..s },
        Attribute::Agility => Stats { agility: v, ..s },
        Attribute::Magic => Stats { magic: v, ..s },
        Attribute::Endurance => Stats { endurance: v, ..s },
    }
}

/// The value the "-" button leaves: one point less, but never below 1.
pub open spec fn lowered(v: i32) -> i32 {
    if v - 1 >= 1 {
        (v - 1) as i32
    } else {
        1
    }
}

fn set_attribute(s: &mut Stats, a: Attribute, v: i32)
    ensures
        *final(s) == with_attribute(*old(s), a, v),
{
    match a {
        Attribute::Vigor => s.vigor = v,
        Attribute::Strength => s.strength = v,
        Attribute::Agility => s.agility = v,
        Attribute::Magic => s.magic = v,
        Attribute::Endurance => s.endurance = v,
    }
}

fn get_attribute(s: &Stats, a: Attribute) -> (v: i32)
    ensures
        v == attribute_of(*s, a),
{
    match a {
        Attribute::Vigor => s.vigor,
        Attribute::Strength => s.strength,
        Attribute::Agility => s.agility,
        Attribute::Magic => s.magic,
        Attribute::Endurance => s.endurance,
    }
}

/// The "-" button of an attribute row: one point less, never below 1.
pub fn lower_attribute(s: &mut Stats, a: Attribute)
    requires
        attribute_of(*old(s), a) > i32::MIN,
    ensures
        *final(s) == with_attribute(*old(s), a, lowered(attribute_of(*old(s), a))),
        attribute_of(*final(s), a) >= 1,
{
    let v = get_attribute(s, a) - 1;
    let v = if v >= 1 {
        v
    } else {
        1
    };
    set_attribute(s, a, v);
}

/// The "+" button of an attribute row: one point more.
pub fn raise_attribute(s: &mut Stats, a: Attribute)
    requires
        attribute_of(*old(s), a) < i32::MAX,
    ensures
        *final(s) == with_attribute(*old(s), a, (attribute_of(*old(s), a) + 1) as i32),
{
    let v = get_attribute(s, a) + 1;
    set_attribute(s, a, v);
}

/// Law: where an attribute is at least 1, "+" then "-" leaves the attributes
/// as they were.
pub proof fn lemma_raise_then_lower_restores(s: Stats, a: Attribute)
    requires
        1 <= attribute_of(s, a) < i32::MAX,
    ensures
        with_attribute(
            with_attribute(s, a, (attribute_of(s, a) + 1) as i32),
            a,
            lowered(attribute_of(with_attribute(s, a, (attribute_of(s, a) + 1) as i32), a)),
        ) == s,
{
}

/// The "Play" button: the edited attributes become the base attributes and
/// the game starts.
pub fn press_play(ps: &mut PlayerStats, edited: Stats) -> (next: AppState)
    ensures
        final(ps).base == edited,
        final(ps).bonus == old(ps).bonus,
        next == AppState::InGame,
{
    ps.base = edited;
    AppState::InGame
}

/// The trader's shelf.
#[derive(Clone, Debug)]
pub struct MerchantStore {
    pub slots: Vec<Option<Item>>,
}

/// The draws of one shelf slot: a `percent`-in-100 chance that it is filled,
/// then, where it is, the draws of the item that fills it (`filled_by`).
pub open spec fn slot_draws(
    d: Seq<Draw>,
    percent: u32,
    slot: Option<Item>,
    filled_by: spec_fn(Seq<Draw>, Item) -> bool,
) -> bool {
    &&& d.len() >= 1
    &&& ratio_draw(d[0], percent, 100)
    &&& if draw_hit(d[0]) {
        slot matches Some(it) && filled_by(d.skip(1), it)
    } else {
        d.len() == 1 && slot is None
    }
}

/// The draws of rolling the shelf slots `slots` one after the other.
pub open spec fn stock_draws(
    d: Seq<Draw>,
    percent: u32,
    slots: Seq<Option<Item>>,
    filled_by: spec_fn(Seq<Draw>, Item) -> bool,
) -> bool
    decreases slots.len(),
{
    if slots.len() == 0 {
        d.len() == 0
    } else {
        exists|k: int|
            0 <= k <= d.len() && stock_draws(d.take(k), percent, slots.drop_last(), filled_by) && #[trigger] slot_draws(
                d.skip(k),
                percent,
                slots.last(),
                filled_by,
            )
    }
}

/// Rolling one more slot extends the draws of a shelf.
pub proof fn lemma_stock_draws_push(
    d: Seq<Draw>,
    percent: u32,
    slots: Seq<Option<Item>>,
    filled_by: spec_fn(Seq<Draw>, Item) -> bool,
    e: Seq<Draw>,
    slot: Option<Item>,
)
    requires
        stock_draws(d, percent, slots, filled_by),
        slot_draws(e, percent, slot, filled_by),
    ensures
        stock_draws(d + e, percent, slots.push(slot), filled_by),
{
    let k = d.len() as int;
    assert((d + e).take(k) =~= d);
    assert((d + e).skip(k) =~= e);
    assert(slots.push(slot).drop_last() =~= slots);
    assert(slots.push(slot).last() == slot);
    assert(slot_draws((d + e).skip(k), percent, slots.push(slot).last(), filled_by));
}

/// A slot is filled by the draws of one `roll_item`.
pub open spec fn plain_fill() -> spec_fn(Seq<Draw>, Item) -> bool {
    |e: Seq<Draw>, it: Item| item_draws(e, it)
}

/// The chance, in percent, that a slot of the opening stock is filled.
pub const OPENING_STOCK_FILL_PERCENT: u32 = 52;

/// The seed of the opening stock.
pub const OPENING_STOCK_SEED: u64 = 0xC0FFEE_51A7;

impl MerchantStore {
    /// Rolls an opening stock of 48 slots: each is filled with chance
    /// `OPENING_STOCK_FILL_PERCENT` by one `roll_item`.
    pub fn roll_opening(rng: &mut Dice) -> (m: Self)
        ensures
            m.slots@.len() == 48,
            forall|i: int| 0 <= i < 48 ==> (#[trigger] m.slots@[i] matches Some(it) ==> is_rollable_item(it)),
            extends(old(rng).draws(), final(rng).draws()),
            stock_draws(
                draws_since(old(rng).draws(), final(rng).draws()),
                OPENING_STOCK_FILL_PERCENT,
                m.slots@,
                plain_fill(),
            ),
    {
        let ghost d0 = rng.draws();
        proof {
            lemma_extends_refl(d0);
        }
        let mut slots: Vec<Option<Item>> = Vec::new();
        let mut i: usize = 0;
        while i < 48
            invariant
                0 <= i <= 48,
                slots@.len() == i,
                forall|j: int| 0 <= j < i ==> (#[trigger] slots@[j] matches Some(it) ==> is_rollable_item(it)),
                extends(d0, rng.draws()),
                stock_draws(draws_since(d0, rng.draws()), OPENING_STOCK_FILL_PERCENT, slots@, plain_fill()),
            decreases 48 - i,
        {
            let ghost dk = rng.draws();
            let slot = if rng.ratio(OPENING_STOCK_FILL_PERCENT, 100) {
                let ghost dr = rng.draws();
                let it = roll_item(rng);
                proof {
                    lemma_since_append(dk, seq![dr.last()]);
                    assert(dr =~= dk + seq![dr.last()]);
                    lemma_extends_trans(dk, dr, rng.draws());
                    let e = draws_since(dk, rng.draws());
                    assert(draws_since(dk, dr) == seq![dr.last()]);
                    assert(e[0] == dr.last());
                    assert(e.skip(1) =~= draws_since(dr, rng.draws()));
                    assert(item_draws(draws_since(dr, rng.draws()), it));
                    assert(item_draws(e.skip(1), it));
                    assert(plain_fill()(e.skip(1), it));
                    assert(slot_draws(e, OPENING_STOCK_FILL_PERCENT, Some(it), plain_fill()));
                }
                Some(it)
            } else {
                proof {
                    lemma_since_append(dk, seq![rng.draws().last()]);
                    assert(rng.draws() =~= dk + seq![rng.draws().last()]);
                    assert(slot_draws(draws_since(dk, rng.draws()), OPENING_STOCK_FILL_PERCENT, None, plain_fill()));
                }
                None
            };
            proof {
                lemma_extends_trans(d0, dk, rng.draws());
                lemma_stock_draws_push(
                    draws_since(d0, dk),
                    OPENING_STOCK_FILL_PERCENT,
                    slots@,
                    plain_fill(),
                    draws_since(dk, rng.draws()),
                    slot,
                );
            }
            slots.push(slot);
            i = i + 1;
        }
        MerchantStore { slots }
    }
}

impl Default for MerchantStore {
    /// The opening stock: `roll_opening` from `OPENING_STOCK_SEED`.
    fn default() -> (m: Self)
        ensures
            m.slots@.len() == 48,
            forall|i: int| 0 <= i < 48 ==> (#[trigger] m.slots@[i] matches Some(it) ==> is_rollable_item(it)),
    {
        let mut rng = Dice::from_seed(OPENING_STOCK_SEED);
        MerchantStore::roll_opening(&mut rng)
    }
}

/// Items recently sold to the trader, newest first.
#[derive(Clone, Debug)]
pub struct MerchantBuyback {
    pub items: Vec<Item>,
}

impl Default for MerchantBuyback {
    fn default() -> (b: Self)
        ensures
            b.items@.len() == 0,
    {
        MerchantBuyback { items: Vec::new() }
    }
}

/// The player's gold.
#[derive(Clone, Copy, Debug, PartialEq, Eq, Structural)]
pub struct PlayerWallet {
    pub gold: i32,
}

impl Default for PlayerWallet {
    /// A new player starts with 180 gold.
    fn default() -> (w: Self)
        ensures
            w.gold == 180,
    {
        PlayerWallet { gold: 180 }
    }
}

/// Picking up a pile of gold: a positive amount goes into the wallet (and
/// is announced, the result); anything else adds nothing.
pub fn pick_up_gold(wallet: &mut PlayerWallet, amount: i32) -> (announced: bool)
    requires
        old(wallet).gold + (if amount > 0 { amount as int } else { 0 }) <= i32::MAX,
    ensures
        final(wallet).gold == old(wallet).gold + (if amount > 0 { amount as int } else { 0 }),
        announced == (amount > 0),
{
    if amount > 0 {
        wallet.gold = wallet.gold + amount;
        true
    } else {
        false
    }
}

/// How often the trader's stock may still be refreshed, and the seed of the
/// next refresh.
#[derive(Clone, Copy, Debug, PartialEq, Eq, Structural)]
pub struct MerchantState {
    pub refreshes_remaining: u8,
    pub refresh_seed: u64,
}

impl Default for MerchantState {
    /// Three refreshes.
    fn default() -> (s: Self)
        ensures
            s.refreshes_remaining == 3,
            s.refresh_seed == 0xA11C_E551,
    {
        MerchantState { refreshes_remaining: 3, refresh_seed: 0xA11C_E551 }
    }
}

/// The tabs of the start screen.
#[derive(Clone, Copy, Debug, PartialEq, Eq, Structural)]
pub enum StartMenuTab {
    Main,
    Stash,
    Trader,
    Character,
}

/// The trader's shelf filters.
#[derive(Clone, Copy, Debug, PartialEq, Eq, Structural)]
pub enum TraderShelfFilter {
    All,
    Weapons,
    Gear,
    Consumables,
    Premium,
}

/// The start screen's current tab and filter.
#[derive(Clone, Copy, Debug)]
pub struct StartMenuState {
    pub active: StartMenuTab,
    pub trader_filter: TraderShelfFilter,
}

impl Default for StartMenuState {
    fn default() -> (s: Self)
        ensures
            s.active == StartMenuTab::Main,
            s.trader_filter == TraderShelfFilter::All,
    {
        StartMenuState { active: StartMenuTab::Main, trader_filter: TraderShelfFilter::All }
    }
}

/// Whether `item` shows on the shelf under `filter`.
pub open spec fn spec_matches_filter(item: Item, filter: TraderShelfFilter) -> bool {
    match filter {
        TraderShelfFilter::All => true,
        TraderShelfFilter::Weapons => item.weapon is Some,
        TraderShelfFilter::Gear => item.equip_slot is Some && item.weapon is None,
        TraderShelfFilter::Consumables => item.consumable is Some,
        TraderShelfFilter::Premium => item.rarity == Rarity::UltraRare || item.rarity == Rarity::Legendary
            || item.rarity == Rarity::Unique,
    }
}

/// Whether `item` shows on the shelf under `filter`: weapons, other gear,
/// consumables, or the three rarest tiers.
pub fn matches_trader_filter(item: &Item, filter: TraderShelfFilter) -> (b: bool)
    ensures
        b == spec_matches_filter(*item, filter),
{
    match filter {
        TraderShelfFilter::All => true,
        TraderShelfFilter::Weapons => item.weapon.is_some(),
        TraderShelfFilter::Gear => item.equip_slot.is_some() && item.weapon.is_none(),
        TraderShelfFilter::Consumables => item.consumable.is_some(),
        TraderShelfFilter::Premium => match item.rarity {
            Rarity::UltraRare | Rarity::Legendary | Rarity::Unique => true,
            _ => false,
        },
    }
}

/// Display name of a chest tier.
pub fn chest_tier_name(t: ChestTier) -> (s: &'static str)
    ensures
        s@ == match t {
            ChestTier::Common => "Common"@,
            ChestTier::Rare => "Rare"@,
            ChestTier::Epic => "Epic"@,
            ChestTier::Royal => "Royal"@,
        },
{
    match t {
        ChestTier::Common => "Common",
        ChestTier::Rare => "Rare",
        ChestTier::Epic => "Epic",
        ChestTier::Royal => "Royal",
    }
}

/// A signed integer with an explicit `+` for zero and positive values.
pub open spec fn signed_text(v: int) -> Seq<char> {
    if v >= 0 {
        "+"@ + decimal(v as nat)
    } else {
        "-"@ + decimal((-v) as nat)
    }
}

/// Renders `value` with its sign: "+3", "+0", "-7".
pub fn format_signed_i32(value: i32) -> (s: String)
    ensures
        s@ == signed_text(value as int),
{
    if value >= 0 {
        let mut s = String::from_str("+");
        push_decimal(&mut s, value as u32);
        s
    } else {
        let mut s = String::from_str("-");
        let mag: u32 = if value == i32::MIN {
            2147483648u32
        } else {
            (-value) as u32
        };
        push_decimal(&mut s, mag);
        s
    }
}

} // verus!

verus! {

/// Bag cells and stash slots after storing `item` in the first empty stash
/// slot or at the first fit in the bag (trying the stash first when
/// `prefer_stash`), and whether it was stored.
pub open spec fn spec_store(
    w: u8,
    h: u8,
    cells: Seq<Option<Item>>,
    stash: Seq<Option<Item>>,
    item: Item,
    prefer_stash: bool,
) -> (Seq<Option<Item>>, Seq<Option<Item>>, bool) {
    let stash_ok = first_none(stash) < stash.len();
    let bag_ok = has_fit(w as int, h as int, cells, item.size.0 as int, item.size.1 as int);
    let in_stash = (cells, stash.update(first_none(stash), Some(item)), true);
    let in_bag = (spec_add(w as int, h as int, cells, item), stash, true);
    if prefer_stash {
        if stash_ok {
            in_stash
        } else if bag_ok {
            in_bag
        } else {
            (cells, stash, false)
        }
    } else {
        if bag_ok {
            in_bag
        } else if stash_ok {
            in_stash
        } else {
            (cells, stash, false)
        }
    }
}

/// Stores `item` in the stash or the bag (see `spec_store`); hands it back
/// when both are full.
pub fn place_item_in_menu_storage(item: Item, bag: &mut BagGrid, stash: &mut Stash, prefer_stash: bool) -> (r: Result<(), Item>)
    requires
        old(bag).wf(),
    ensures
        final(bag).wf(),
        final(bag).w == old(bag).w,
        final(bag).h == old(bag).h,
        (final(bag).cells@, final(stash).slots@, r is Ok) == spec_store(
            old(bag).w,
            old(bag).h,
            old(bag).cells@,
            old(stash).slots@,
            item,
            prefer_stash,
        ),
        r matches Err(it) ==> it == item,
{
    if prefer_stash {
        match first_empty_slot(&stash.slots) {
            Some(i) => {
                stash.slots.set(i, Some(item));
                Ok(())
            },
            None => bag.try_add_or_return(item),
        }
    } else {
        match bag.try_add_or_return(item) {
            Ok(()) => Ok(()),
            Err(it) => match first_empty_slot(&stash.slots) {
                Some(i) => {
                    stash.slots.set(i, Some(it));
                    Ok(())
                },
                None => Err(it),
            },
        }
    }
}

/// The equipment bonus: what the worn items add to `base`.
pub open spec fn equipment_bonus(base: Stats, e: Equipment) -> Stats {
    stats_diff(add_worn_mods(base, worn(e)), base)
}

/// Summing the worn items onto `base`, and taking the difference, stay in `i32`.
pub open spec fn stats_fit(base: Stats, e: Equipment) -> bool {
    worn_mods_fit(base, worn(e)) && diff_fits(add_worn_mods(base, worn(e)), base)
}

/// Recomputes the equipment bonus from what is worn.
pub fn recompute_menu_stats(ps: &mut PlayerStats, equip: &Equipment)
    requires
        stats_fit(old(ps).base, *equip),
    ensures
        final(ps).base == old(ps).base,
        final(ps).bonus == equipment_bonus(old(ps).base, *equip),
{
    let mut total = ps.base;
    equip.sum_mods_into(&mut total);
    ps.bonus = diff_stats(total, ps.base);
}

/// Brings the bonus in line with the equipment; returns whether it changed
/// (and the limbs must be rescaled).
pub fn sync_player_stats_from_equipment(equipment: &Equipment, player_stats: &mut PlayerStats) -> (changed: bool)
    requires
        stats_fit(old(player_stats).base, *equipment),
    ensures
        final(player_stats).base == old(player_stats).base,
        final(player_stats).bonus == equipment_bonus(old(player_stats).base, *equipment),
        changed == (old(player_stats).bonus != equipment_bonus(old(player_stats).base, *equipment)),
{
    let mut totals = player_stats.base;
    equipment.sum_mods_into(&mut totals);
    let next_bonus = diff_stats(totals, player_stats.base);
    if player_stats.bonus.vigor != next_bonus.vigor || player_stats.bonus.strength != next_bonus.strength
        || player_stats.bonus.agility != next_bonus.agility || player_stats.bonus.magic != next_bonus.magic
        || player_stats.bonus.endurance != next_bonus.endurance {
        player_stats.bonus = next_bonus;
        true
    } else {
        false
    }
}

/// The character slots of the menu, with their labels.
pub open spec fn menu_slots() -> Seq<(Seq<char>, EquipSlot)> {
    seq![
        ("Watch"@, EquipSlot::Watch), ("Necklace"@, EquipSlot::Necklace), ("Gloves"@, EquipSlot::Gloves),
        ("Shirt"@, EquipSlot::Shirt), ("Pants"@, EquipSlot::Pants), ("Shoes"@, EquipSlot::Shoes),
        ("Hat"@, EquipSlot::Hat), ("Cape"@, EquipSlot::Cape), ("Main Hand"@, EquipSlot::MainHand),
        ("Off Hand"@, EquipSlot::OffHand), ("Two Handed"@, EquipSlot::TwoHanded), ("Bag"@, EquipSlot::Bag),
    ]
}

/// The character slots in menu order, each with its label.
pub fn menu_equipment_slots() -> (r: [(&'static str, EquipSlot); 12])
    ensures
        forall|i: int| 0 <= i < 12 ==> (#[trigger] r@[i]).0@ == menu_slots()[i].0 && r@[i].1 == menu_slots()[i].1,
{
    [
        ("Watch", EquipSlot::Watch),
        ("Necklace", EquipSlot::Necklace),
        ("Gloves", EquipSlot::Gloves),
        ("Shirt", EquipSlot::Shirt),
        ("Pants", EquipSlot::Pants),
        ("Shoes", EquipSlot::Shoes),
        ("Hat", EquipSlot::Hat),
        ("Cape", EquipSlot::Cape),
        ("Main Hand", EquipSlot::MainHand),
        ("Off Hand", EquipSlot::OffHand),
        ("Two Handed", EquipSlot::TwoHanded),
        ("Bag", EquipSlot::Bag),
    ]
}

/// `e` with the item of `slot` replaced by `v`.
pub open spec fn with_slot(e: Equipment, slot: EquipSlot, v: Option<Item>) -> Equipment {
    match slot {
        EquipSlot::Watch => Equipment { watch: v, ..e },
        EquipSlot::Necklace => Equipment { necklace: v, ..e },
        EquipSlot::Gloves => Equipment { gloves: v, ..e },
        EquipSlot::Shirt => Equipment { shirt: v, ..e },
        EquipSlot::Pants => Equipment { pants: v, ..e },
        EquipSlot::Shoes => Equipment { shoes: v, ..e },
        EquipSlot::Hat => Equipment { hat: v, ..e },
        EquipSlot::Cape => Equipment { cape: v, ..e },
        EquipSlot::MainHand => Equipment { mainhand: v, ..e },
        EquipSlot::OffHand => Equipment { offhand: v, ..e },
        EquipSlot::TwoHanded => Equipment { twohand: v, ..e },
        EquipSlot::Bag => Equipment { bag: v, ..e },
    }
}

/// The item worn in `slot`.
pub fn equipped_item_for_slot(equip: &Equipment, slot: EquipSlot) -> (r: Option<&Item>)
    ensures
        r is None <==> crate::inventory::slot_item(*equip, slot) is None,
        r matches Some(it) ==> crate::inventory::slot_item(*equip, slot) == Some(*it),
{
    match slot {
        EquipSlot::Watch => equip.watch.as_ref(),
        EquipSlot::Necklace => equip.necklace.as_ref(),
        EquipSlot::Gloves => equip.gloves.as_ref(),
        EquipSlot::Shirt => equip.shirt.as_ref(),
        EquipSlot::Pants => equip.pants.as_ref(),
        EquipSlot::Shoes => equip.shoes.as_ref(),
        EquipSlot::Hat => equip.hat.as_ref(),
        EquipSlot::Cape => equip.cape.as_ref(),
        EquipSlot::MainHand => equip.mainhand.as_ref(),
        EquipSlot::OffHand => equip.offhand.as_ref(),
        EquipSlot::TwoHanded => equip.twohand.as_ref(),
        EquipSlot::Bag => equip.bag.as_ref(),
    }
}

/// Every worn item sits in the slot it is made for.
pub open spec fn slots_consistent(e: Equipment) -> bool {
    forall|slot: EquipSlot|
        #[trigger] crate::inventory::slot_item(e, slot) is Some ==> crate::inventory::slot_item(e, slot).unwrap().equip_slot
            == Some(slot)
}

/// Law: equipping an item made for a slot keeps every worn item in its own
/// slot.
pub proof fn lemma_equip_keeps_slots_consistent(e: Equipment, item: Item)
    requires
        slots_consistent(e),
        item.equip_slot is Some,
    ensures
        slots_consistent(spec_equip(e, item).0),
{
    let e2 = spec_equip(e, item).0;
    assert forall|slot: EquipSlot| #[trigger] crate::inventory::slot_item(e2, slot) is Some implies crate::inventory::slot_item(
        e2,
        slot,
    ).unwrap().equip_slot == Some(slot) by {
        assert(crate::inventory::slot_item(e, slot) == crate::inventory::slot_item(e, slot));
    }
}

/// Law: taking an item out of its slot and equipping it again gives back the
/// same equipment, with nothing displaced (this is what happens when an
/// unequipped item finds no room).
pub proof fn lemma_unequip_then_equip_restores(e: Equipment, slot: EquipSlot)
    requires
        crate::inventory::hands_exclusive(e),
        slots_consistent(e),
        crate::inventory::slot_item(e, slot) is Some,
    ensures
        spec_equip(with_slot(e, slot, None), crate::inventory::slot_item(e, slot).unwrap()) == (e, None::<Item>),
{
    let it = crate::inventory::slot_item(e, slot).unwrap();
    assert(it.equip_slot == Some(slot));
}

/// Takes the item out of `slot`, leaving it empty.
pub fn take_equipped_item(equip: &mut Equipment, slot: EquipSlot) -> (r: Option<Item>)
    ensures
        r == crate::inventory::slot_item(*old(equip), slot),
        *final(equip) == with_slot(*old(equip), slot, None),
{
    match slot {
        EquipSlot::Watch => equip.watch.take(),
        EquipSlot::Necklace => equip.necklace.take(),
        EquipSlot::Gloves => equip.gloves.take(),
        EquipSlot::Shirt => equip.shirt.take(),
        EquipSlot::Pants => equip.pants.take(),
        EquipSlot::Shoes => equip.shoes.take(),
        EquipSlot::Hat => equip.hat.take(),
        EquipSlot::Cape => equip.cape.take(),
        EquipSlot::MainHand => equip.mainhand.take(),
        EquipSlot::OffHand => equip.offhand.take(),
        EquipSlot::TwoHanded => equip.twohand.take(),
        EquipSlot::Bag => equip.bag.take(),
    }
}

} // verus!

verus! {

/// Bag, stash, equipment and bonus after equipping the item in bag cell
/// `index`: the item leaves the bag, is equipped, and whatever it displaces
/// goes to the stash, else the bag (it is lost when both are full). Nothing
/// happens when the cell is empty, out of range, or holds an item without a
/// slot.
pub open spec fn spec_equip_from_bag(
    index: int,
    w: u8,
    h: u8,
    cells: Seq<Option<Item>>,
    stash: Seq<Option<Item>>,
    e: Equipment,
    base: Stats,
    bonus: Stats,
) -> (u8, u8, Seq<Option<Item>>, Seq<Option<Item>>, Equipment, Stats) {
    if !(0 <= index < cells.len()) || cells[index] is None || cells[index].unwrap().equip_slot is None {
        (w, h, cells, stash, e, bonus)
    } else {
        let item = cells[index].unwrap();
        let (w1, h1, c1) = bag_after_equip(w, h, cells.update(index, None), item);
        let (e2, d) = spec_equip(e, item);
        let (c2, s2) = stow_displaced(w1, h1, c1, stash, d);
        (w1, h1, c2, s2, e2, equipment_bonus(base, e2))
    }
}

/// Bag cells and stash after stowing a displaced item, stash first; when
/// neither takes it, one more try at the bag (which fails the same way).
pub open spec fn stow_displaced(w: u8, h: u8, cells: Seq<Option<Item>>, stash: Seq<Option<Item>>, d: Option<Item>) -> (
    Seq<Option<Item>>,
    Seq<Option<Item>>,
) {
    match d {
        None => (cells, stash),
        Some(di) => {
            let (cb, cs, ok) = spec_store(w, h, cells, stash, di, true);
            if ok {
                (cb, cs)
            } else {
                (spec_add(w as int, h as int, cb, di), cs)
            }
        },
    }
}

/// The item in bag cell `index` would be equipped, and the stats stay in range.
pub open spec fn equip_from_bag_fits(index: int, cells: Seq<Option<Item>>, e: Equipment, base: Stats) -> bool {
    (0 <= index < cells.len() && cells[index] is Some && cells[index].unwrap().equip_slot is Some) ==> stats_fit(
        base,
        spec_equip(e, cells[index].unwrap()).0,
    )
}

/// Equips the item in bag cell `index` from the start screen (see
/// `spec_equip_from_bag`).
pub fn equip_menu_item_from_bag(
    index: usize,
    bag: &mut BagGrid,
    stash: &mut Stash,
    equip: &mut Equipment,
    ps: &mut PlayerStats,
)
    requires
        old(bag).wf(),
        equip_from_bag_fits(index as int, old(bag).cells@, *old(equip), old(ps).base),
    ensures
        final(bag).wf(),
        final(ps).base == old(ps).base,
        (final(bag).w, final(bag).h, final(bag).cells@, final(stash).slots@, *final(equip), final(ps).bonus)
            == spec_equip_from_bag(
            index as int,
            old(bag).w,
            old(bag).h,
            old(bag).cells@,
            old(stash).slots@,
            *old(equip),
            old(ps).base,
            old(ps).bonus,
        ),
{
    if index >= bag.cells.len() {
        return;
    }
    let ghost cells0 = bag.cells@;
    let taken = take_cell(&mut bag.cells, index);
    match taken {
        None => {
            assert(bag.cells@ =~= cells0);
        },
        Some(item) => {
            if item.equip_slot.is_none() {
                bag.cells.set(index, Some(item));
                assert(bag.cells@ =~= cells0);
                return;
            }
            let displaced = equip.equip(item, bag);
            match displaced {
                Some(d) => {
                    match place_item_in_menu_storage(d, bag, stash, true) {
                        Ok(()) => {},
                        Err(r) => {
                            bag.try_add(r);
                        },
                    }
                },
                None => {},
            }
            recompute_menu_stats(ps, equip);
        },
    }
}

/// Stash, bag, equipment and bonus after equipping the item in stash slot
/// `index`: like `spec_equip_from_bag`, except that a displaced item that
/// finds no room goes back into slot `index`.
pub open spec fn spec_equip_from_stash(
    index: int,
    w: u8,
    h: u8,
    cells: Seq<Option<Item>>,
    stash: Seq<Option<Item>>,
    e: Equipment,
    base: Stats,
    bonus: Stats,
) -> (u8, u8, Seq<Option<Item>>, Seq<Option<Item>>, Equipment, Stats) {
    if !(0 <= index < stash.len()) || stash[index] is None || stash[index].unwrap().equip_slot is None {
        (w, h, cells, stash, e, bonus)
    } else {
        let item = stash[index].unwrap();
        let s0 = stash.update(index, None);
        let (w1, h1, c1) = bag_after_equip(w, h, cells, item);
        let (e2, d) = spec_equip(e, item);
        let (c2, s2) = match d {
            None => (c1, s0),
            Some(di) => {
                let (cb, cs, ok) = spec_store(w1, h1, c1, s0, di, true);
                if ok {
                    (cb, cs)
                } else {
                    (cb, cs.update(index, Some(di)))
                }
            },
        };
        (w1, h1, c2, s2, e2, equipment_bonus(base, e2))
    }
}

/// The item in stash slot `index` would be equipped, and the stats stay in range.
pub open spec fn equip_from_stash_fits(index: int, stash: Seq<Option<Item>>, e: Equipment, base: Stats) -> bool {
    (0 <= index < stash.len() && stash[index] is Some && stash[index].unwrap().equip_slot is Some) ==> stats_fit(
        base,
        spec_equip(e, stash[index].unwrap()).0,
    )
}

/// Equips the item in stash slot `index` from the start screen (see
/// `spec_equip_from_stash`).
pub fn equip_menu_item_from_stash(
    index: usize,
    bag: &mut BagGrid,
    stash: &mut Stash,
    equip: &mut Equipment,
    ps: &mut PlayerStats,
)
    requires
        old(bag).wf(),
        equip_from_stash_fits(index as int, old(stash).slots@, *old(equip), old(ps).base),
    ensures
        final(bag).wf(),
        final(ps).base == old(ps).base,
        (final(bag).w, final(bag).h, final(bag).cells@, final(stash).slots@, *final(equip), final(ps).bonus)
            == spec_equip_from_stash(
            index as int,
            old(bag).w,
            old(bag).h,
            old(bag).cells@,
            old(stash).slots@,
            *old(equip),
            old(ps).base,
            old(ps).bonus,
        ),
{
    if index >= stash.slots.len() {
        return;
    }
    let ghost slots0 = stash.slots@;
    let taken = take_cell(&mut stash.slots, index);
    match taken {
        None => {
            assert(stash.slots@ =~= slots0);
        },
        Some(item) => {
            if item.equip_slot.is_none() {
                stash.slots.set(index, Some(item));
                assert(stash.slots@ =~= slots0);
                return;
            }
            let displaced = equip.equip(item, bag);
            match displaced {
                Some(d) => {
                    match place_item_in_menu_storage(d, bag, stash, true) {
                        Ok(()) => {},
                        Err(r) => {
                            stash.slots.set(index, Some(r));
                        },
                    }
                },
                None => {},
            }
            recompute_menu_stats(ps, equip);
        },
    }
}

/// Bag, stash, equipment and bonus after unequipping `slot`: the item goes to
/// the bag, else the stash; when neither takes it, it is equipped again and
/// the bonus is left as it was.
pub open spec fn spec_unequip(
    slot: EquipSlot,
    w: u8,
    h: u8,
    cells: Seq<Option<Item>>,
    stash: Seq<Option<Item>>,
    e: Equipment,
    base: Stats,
    bonus: Stats,
) -> (u8, u8, Seq<Option<Item>>, Seq<Option<Item>>, Equipment, Stats) {
    match crate::inventory::slot_item(e, slot) {
        None => (w, h, cells, stash, e, bonus),
        Some(item) => {
            let e1 = with_slot(e, slot, None);
            let (cb, cs, ok) = spec_store(w, h, cells, stash, item, false);
            if ok {
                (w, h, cb, cs, e1, equipment_bonus(base, e1))
            } else {
                let (w2, h2, c2) = bag_after_equip(w, h, cb, item);
                (w2, h2, c2, cs, spec_equip(e1, item).0, bonus)
            }
        },
    }
}

/// Unequips `slot` from the start screen (see `spec_unequip`).
pub fn unequip_menu_slot(slot: EquipSlot, bag: &mut BagGrid, stash: &mut Stash, equip: &mut Equipment, ps: &mut PlayerStats)
    requires
        old(bag).wf(),
        crate::inventory::slot_item(*old(equip), slot) is Some ==> stats_fit(
            old(ps).base,
            with_slot(*old(equip), slot, None),
        ),
    ensures
        final(bag).wf(),
        final(ps).base == old(ps).base,
        (final(bag).w, final(bag).h, final(bag).cells@, final(stash).slots@, *final(equip), final(ps).bonus)
            == spec_unequip(slot, old(bag).w, old(bag).h, old(bag).cells@, old(stash).slots@, *old(equip), old(ps).base, old(ps).bonus),
{
    let taken = take_equipped_item(equip, slot);
    match taken {
        None => {},
        Some(item) => {
            match place_item_in_menu_storage(item, bag, stash, false) {
                Err(returned_item) => {
                    let _ = equip.equip(returned_item, bag);
                },
                Ok(()) => {
                    recompute_menu_stats(ps, equip);
                },
            }
        },
    }
}

} // verus!

verus! {

/// Bag cells and stash after moving the item of bag cell `index` to the
/// first empty stash slot; nothing moves when the cell is empty or out of
/// range, or the stash is full.
pub open spec fn spec_bag_to_stash(index: int, cells: Seq<Option<Item>>, stash: Seq<Option<Item>>) -> (
    Seq<Option<Item>>,
    Seq<Option<Item>>,
) {
    if 0 <= index < cells.len() && cells[index] is Some && first_none(stash) < stash.len() {
        (cells.update(index, None), stash.update(first_none(stash), cells[index]))
    } else {
        (cells, stash)
    }
}

/// Bag cells and stash after moving the item of stash slot `index` into the
/// bag at its first fit; nothing moves when the slot is empty or out of
/// range, or the item fits nowhere.
pub open spec fn spec_stash_to_bag(index: int, w: u8, h: u8, cells: Seq<Option<Item>>, stash: Seq<Option<Item>>) -> (
    Seq<Option<Item>>,
    Seq<Option<Item>>,
) {
    if 0 <= index < stash.len() && stash[index] is Some && has_fit(
        w as int,
        h as int,
        cells,
        stash[index].unwrap().size.0 as int,
        stash[index].unwrap().size.1 as int,
    ) {
        (spec_add(w as int, h as int, cells, stash[index].unwrap()), stash.update(index, None))
    } else {
        (cells, stash)
    }
}

/// Everything held in a bag and a stash, counted with multiplicity.
pub open spec fn held_items(cells: Seq<Option<Item>>, stash: Seq<Option<Item>>) -> Multiset<Item> {
    stored_items(cells).to_multiset().add(stored_items(stash).to_multiset())
}

proof fn lemma_stored_items_take(cells: Seq<Option<Item>>, p: int)
    requires
        0 <= p < cells.len(),
        cells[p] is Some,
    ensures
        stored_items(cells).to_multiset() =~= stored_items(cells.update(p, None)).to_multiset().insert(cells[p].unwrap()),
{
    let t = cells.update(p, None);
    lemma_stored_items_fill(t, p, cells[p].unwrap());
    assert(t.update(p, cells[p]) =~= cells);
}

/// Law: moving an item between the bag and the stash, either way, neither
/// loses nor duplicates an item (for items that take up at least one cell).
pub proof fn lemma_bag_stash_moves_conserve_items(index: int, w: u8, h: u8, cells: Seq<Option<Item>>, stash: Seq<Option<Item>>)
    requires
        cells.len() == w as int * h as int,
        forall|i: int| 0 <= i < stash.len() && #[trigger] stash[i] is Some ==> stash[i].unwrap().size.0 >= 1
            && stash[i].unwrap().size.1 >= 1,
    ensures
        held_items(spec_bag_to_stash(index, cells, stash).0, spec_bag_to_stash(index, cells, stash).1) =~= held_items(
            cells,
            stash,
        ),
        held_items(spec_stash_to_bag(index, w, h, cells, stash).0, spec_stash_to_bag(index, w, h, cells, stash).1)
            =~= held_items(cells, stash),
{
    broadcast use vstd::multiset::group_multiset_axioms;

    if 0 <= index < cells.len() && cells[index] is Some && first_none(stash) < stash.len() {
        let it = cells[index].unwrap();
        lemma_first_none(stash);
        lemma_stored_items_take(cells, index);
        lemma_stored_items_fill(stash, first_none(stash), it);
    }
    if 0 <= index < stash.len() && stash[index] is Some {
        let it = stash[index].unwrap();
        if has_fit(w as int, h as int, cells, it.size.0 as int, it.size.1 as int) {
            lemma_stored_items_take(stash, index);
            lemma_add_stores_item(w as int, h as int, cells, it);
        }
    }
}

/// Moves the item in bag cell `index` to the first empty stash slot; it stays
/// in the bag when the stash is full.
pub fn move_bag_item_to_stash(index: usize, bag: &mut BagGrid, stash: &mut Stash)
    ensures
        final(bag).w == old(bag).w,
        final(bag).h == old(bag).h,
        (final(bag).cells@, final(stash).slots@) == spec_bag_to_stash(index as int, old(bag).cells@, old(stash).slots@),
{
    if index >= bag.cells.len() {
        return;
    }
    let ghost cells0 = bag.cells@;
    match take_cell(&mut bag.cells, index) {
        None => {
            assert(bag.cells@ =~= cells0);
        },
        Some(item) => match first_empty_slot(&stash.slots) {
            Some(i) => {
                stash.slots.set(i, Some(item));
            },
            None => {
                bag.cells.set(index, Some(item));
                assert(bag.cells@ =~= cells0);
            },
        },
    }
}

/// Moves the item in stash slot `index` into the bag at its first fit; it
/// stays in the stash when it fits nowhere.
pub fn move_stash_item_to_bag(index: usize, bag: &mut BagGrid, stash: &mut Stash)
    requires
        old(bag).wf(),
    ensures
        final(bag).wf(),
        final(bag).w == old(bag).w,
        final(bag).h == old(bag).h,
        (final(bag).cells@, final(stash).slots@) == spec_stash_to_bag(
            index as int,
            old(bag).w,
            old(bag).h,
            old(bag).cells@,
            old(stash).slots@,
        ),
{
    if index >= stash.slots.len() {
        return;
    }
    let ghost slots0 = stash.slots@;
    match take_cell(&mut stash.slots, index) {
        None => {
            assert(stash.slots@ =~= slots0);
        },
        Some(item) => match bag.try_add_or_return(item) {
            Ok(()) => {},
            Err(it) => {
                stash.slots.set(index, Some(it));
                assert(stash.slots@ =~= slots0);
            },
        },
    }
}

/// The cost of the next stock refresh: 40 gold plus 18 for each refresh
/// already used out of three.
pub open spec fn spec_refresh_cost(remaining: u8) -> int {
    40 + (3 - remaining as int) * 18
}

/// The cost of the next stock refresh.
pub fn merchant_refresh_cost(state: &MerchantState) -> (c: i32)
    ensures
        c == spec_refresh_cost(state.refreshes_remaining),
{
    let used = 3i32 - state.refreshes_remaining as i32;
    40 + used * 18
}

/// Law: each refresh used makes the next one 18 gold dearer.
pub proof fn lemma_refresh_cost_rises(remaining: u8)
    requires
        remaining > 0,
    ensures
        spec_refresh_cost((remaining - 1) as u8) == spec_refresh_cost(remaining) + 18,
{
}

/// The seed of the next refresh.
pub open spec fn next_refresh_seed(seed: u64) -> u64 {
    (((((seed + 0x9E37_79B9_7F4A_7C15u64) % 0x1_0000_0000_0000_0000int) * 6364136223846793005u64)
        % 0x1_0000_0000_0000_0000int + 1) % 0x1_0000_0000_0000_0000int) as u64
}

/// Pays for a stock refresh when one is left and the player can afford it:
/// takes the gold, uses up a refresh and advances the seed. Returns whether
/// the stock is to be re-rolled (from the new seed).
pub fn try_refresh_merchant(state: &mut MerchantState, wallet: &mut PlayerWallet) -> (refreshed: bool)
    requires
        old(wallet).gold - spec_refresh_cost(old(state).refreshes_remaining) <= i32::MAX,
    ensures
        refreshed == (old(state).refreshes_remaining > 0 && old(wallet).gold >= spec_refresh_cost(
            old(state).refreshes_remaining,
        )),
        refreshed ==> final(wallet).gold == old(wallet).gold - spec_refresh_cost(old(state).refreshes_remaining)
            && final(state).refreshes_remaining == old(state).refreshes_remaining - 1
            && final(state).refresh_seed == next_refresh_seed(old(state).refresh_seed),
        !refreshed ==> *final(wallet) == *old(wallet) && *final(state) == *old(state),
        old(wallet).gold >= 0 ==> final(wallet).gold >= 0,
{
    let cost = merchant_refresh_cost(state);
    if state.refreshes_remaining > 0 && wallet.gold >= cost {
        wallet.gold = wallet.gold - cost;
        state.refreshes_remaining = state.refreshes_remaining - 1;
        let s1 = state.refresh_seed.wrapping_add(0x9E37_79B9_7F4A_7C15);
        state.refresh_seed = s1.wrapping_mul(6364136223846793005).wrapping_add(1);
        true
    } else {
        false
    }
}

/// How many of the three refreshes have been used.
pub open spec fn refreshes_used(remaining: u8) -> int {
    if remaining >= 3 {
        0
    } else {
        3 - remaining
    }
}

/// The chance, in percent, that a refresh fills a shelf slot: 68 plus 7 for
/// each refresh used, at most 90.
pub open spec fn refresh_fill_percent(used: int) -> int {
    if 68 + 7 * used >= 90 {
        90
    } else {
        68 + 7 * used
    }
}

/// The fill chance of the next stock re-roll, in percent.
pub fn refresh_fill_chance(state: &MerchantState) -> (p: u32)
    ensures
        p == refresh_fill_percent(refreshes_used(state.refreshes_remaining)),
{
    let used: u32 = if state.refreshes_remaining >= 3 {
        0
    } else {
        3 - state.refreshes_remaining as u32
    };
    if 68 + 7 * used >= 90 {
        90
    } else {
        68 + 7 * used
    }
}

/// How much rarity weighs when the trader picks stock.
pub open spec fn rarity_score(r: Rarity) -> int {
    match r {
        Rarity::Common => 0,
        Rarity::Uncommon => 1,
        Rarity::Rare => 2,
        Rarity::UltraRare => 3,
        Rarity::Legendary => 5,
        Rarity::Unique => 8,
    }
}

/// The score of a stock candidate of rarity `r` and base value `v`.
pub open spec fn stock_score(r: Rarity, v: int) -> int {
    rarity_score(r) * 100 + v
}

/// The score of `item` as a stock candidate, given its base value.
pub fn merchant_item_score(item: &Item, base_value: i32) -> (s: i64)
    ensures
        s == stock_score(item.rarity, base_value as int),
{
    let r: i64 = match item.rarity {
        Rarity::Common => 0,
        Rarity::Uncommon => 1,
        Rarity::Rare => 2,
        Rarity::UltraRare => 3,
        Rarity::Legendary => 5,
        Rarity::Unique => 8,
    };
    r * 100 + base_value as i64
}

/// `i` is the first position of the highest score in `s`.
pub open spec fn is_first_max(s: Seq<i64>, i: int) -> bool {
    &&& 0 <= i < s.len()
    &&& forall|j: int| 0 <= j < s.len() ==> #[trigger] s[j] <= s[i]
    &&& forall|j: int| 0 <= j < i ==> #[trigger] s[j] < s[i]
}

/// The first position of the highest score: a later candidate replaces the
/// best so far only when it scores strictly more.
pub fn first_max_index(scores: &Vec<i64>) -> (i: usize)
    requires
        scores@.len() > 0,
    ensures
        is_first_max(scores@, i as int),
{
    let mut best: usize = 0;
    let mut k: usize = 1;
    while k < scores.len()
        invariant
            1 <= k <= scores@.len(),
            best < k,
            forall|j: int| 0 <= j < k ==> #[trigger] scores@[j] <= scores@[best as int],
            forall|j: int| 0 <= j < best ==> #[trigger] scores@[j] < scores@[best as int],
        decreases scores@.len() - k,
    {
        if scores[k] > scores[best] {
            best = k;
        }
        k = k + 1;
    }
    best
}

/// The score of a candidate `it` of base value `v`: `stock_score` where
/// rarity counts, else the base value alone.
pub open spec fn candidate_score(it: Item, v: i32, by_rarity: bool) -> int {
    if by_rarity {
        stock_score(it.rarity, v as int)
    } else {
        v as int
    }
}

/// The scores of the candidates `cands`, given their base `values`.
pub open spec fn candidate_scores(cands: Seq<Item>, values: Seq<i32>, by_rarity: bool) -> Seq<i64> {
    Seq::new(cands.len(), |j: int| candidate_score(cands[j], values[j], by_rarity) as i64)
}

/// The draws of an item `it` picked as the best of `tries`: that many items
/// rolled one after the other, each valued by `base_value`, and `it` is the
/// first of them with the highest score (see `candidate_score`).
pub open spec fn best_of_draws<F: Fn(&Item) -> i32>(
    d: Seq<Draw>,
    tries: int,
    base_value: F,
    by_rarity: bool,
    it: Item,
) -> bool {
    exists|cands: Seq<Item>, values: Seq<i32>, i: int|
        #![trigger item_list_draws(d, cands), is_first_max(candidate_scores(cands, values, by_rarity), i)]
        cands.len() == tries && values.len() == tries && item_list_draws(d, cands) && (forall|j: int|
            0 <= j < tries ==> base_value.ensures((&cands[j],), #[trigger] values[j])) && is_first_max(
            candidate_scores(cands, values, by_rarity),
            i,
        ) && it == cands[i]
}

/// The draws of picking `items` one after the other, each the best of
/// `tries` (see `best_of_draws`).
pub open spec fn best_list_draws<F: Fn(&Item) -> i32>(
    d: Seq<Draw>,
    tries: int,
    base_value: F,
    by_rarity: bool,
    items: Seq<Item>,
) -> bool
    decreases items.len(),
{
    if items.len() == 0 {
        d.len() == 0
    } else {
        exists|k: int|
            0 <= k <= d.len() && best_list_draws(d.take(k), tries, base_value, by_rarity, items.drop_last())
                && #[trigger] best_of_draws(d.skip(k), tries, base_value, by_rarity, items.last())
    }
}

/// Picking one more item extends the draws of a list of picks.
pub proof fn lemma_best_list_draws_push<F: Fn(&Item) -> i32>(
    d: Seq<Draw>,
    tries: int,
    base_value: F,
    by_rarity: bool,
    items: Seq<Item>,
    e: Seq<Draw>,
    it: Item,
)
    requires
        best_list_draws(d, tries, base_value, by_rarity, items),
        best_of_draws(e, tries, base_value, by_rarity, it),
    ensures
        best_list_draws(d + e, tries, base_value, by_rarity, items.push(it)),
{
    let k = d.len() as int;
    assert((d + e).take(k) =~= d);
    assert((d + e).skip(k) =~= e);
    assert(items.push(it).drop_last() =~= items);
    assert(items.push(it).last() == it);
    assert(best_of_draws((d + e).skip(k), tries, base_value, by_rarity, items.push(it).last()));
}

/// A shelf slot is filled by the best of `tries` items by `stock_score`.
pub open spec fn best_fill<F: Fn(&Item) -> i32>(tries: int, base_value: F) -> spec_fn(Seq<Draw>, Item) -> bool {
    |e: Seq<Draw>, it: Item| best_of_draws(e, tries, base_value, true, it)
}

fn candidate_score_of(item: &Item, v: i32, by_rarity: bool) -> (s: i64)
    ensures
        s == candidate_score(*item, v, by_rarity),
{
    if by_rarity {
        merchant_item_score(item, v)
    } else {
        v as i64
    }
}

/// Rolls `tries` items and keeps the first with the highest score (see
/// `candidate_score`), the base value of each coming from `base_value`.
pub fn roll_best_of<F: Fn(&Item) -> i32>(rng: &mut Dice, tries: usize, by_rarity: bool, base_value: &F) -> (it: Item)
    requires
        tries >= 1,
        forall|x: &Item| base_value.requires((x,)),
    ensures
        is_rollable_item(it),
        extends(old(rng).draws(), final(rng).draws()),
        best_of_draws(draws_since(old(rng).draws(), final(rng).draws()), tries as int, *base_value, by_rarity, it),
{
    let ghost d0 = rng.draws();
    proof {
        lemma_extends_refl(d0);
    }
    let mut candidates: Vec<Item> = Vec::new();
    let mut scores: Vec<i64> = Vec::new();
    let ghost mut vals: Seq<i32> = Seq::empty();
    let mut k: usize = 0;
    while k < tries
        invariant
            0 <= k <= tries,
            candidates@.len() == k,
            scores@.len() == k,
            vals.len() == k,
            forall|x: &Item| base_value.requires((x,)),
            forall|j: int| 0 <= j < candidates@.len() ==> is_rollable_item(#[trigger] candidates@[j]),
            extends(d0, rng.draws()),
            item_list_draws(draws_since(d0, rng.draws()), candidates@),
            forall|j: int| 0 <= j < k ==> base_value.ensures((&candidates@[j],), #[trigger] vals[j]),
            scores@ == candidate_scores(candidates@, vals, by_rarity),
        decreases tries - k,
    {
        let ghost dk = rng.draws();
        let c = roll_item(rng);
        proof {
            lemma_extends_trans(d0, dk, rng.draws());
            lemma_item_list_draws_push(draws_since(d0, dk), candidates@, draws_since(dk, rng.draws()), c);
        }
        let v = base_value(&c);
        let ghost cprev = candidates@;
        scores.push(candidate_score_of(&c, v, by_rarity));
        candidates.push(c);
        proof {
            vals = vals.push(v);
            assert(scores@ =~= candidate_scores(candidates@, vals, by_rarity));
            assert forall|j: int| 0 <= j < k + 1 implies base_value.ensures((&candidates@[j],), #[trigger] vals[j]) by {
                if j < k {
                    assert(candidates@[j] == cprev[j]);
                }
            }
        }
        k = k + 1;
    }
    let ghost cands = candidates@;
    let i = first_max_index(&scores);
    let it = candidates.swap_remove(i);
    proof {
        let d = draws_since(d0, rng.draws());
        assert(item_list_draws(d, cands));
        assert(is_first_max(candidate_scores(cands, vals, by_rarity), i as int));
    }
    it
}

/// Rolls `2 + used` items and keeps the first with the highest
/// `stock_score`.
fn roll_merchant_stock_item<F: Fn(&Item) -> i32>(rng: &mut Dice, used: u8, base_value: &F) -> (it: Item)
    requires
        used <= 3,
        forall|x: &Item| base_value.requires((x,)),
    ensures
        is_rollable_item(it),
        extends(old(rng).draws(), final(rng).draws()),
        best_of_draws(draws_since(old(rng).draws(), final(rng).draws()), 2 + used, *base_value, true, it),
{
    roll_best_of(rng, 2 + used as usize, true, base_value)
}

/// Re-rolls the shelf slots of `merchant` from `rng`: each is filled with
/// chance `refresh_fill_chance(state)` by the best of `2 + used` rolled items
/// (`roll_merchant_stock_item`), and emptied otherwise.
pub fn restock<F: Fn(&Item) -> i32>(merchant: &mut MerchantStore, rng: &mut Dice, state: &MerchantState, base_value: &F)
    requires
        forall|x: &Item| base_value.requires((x,)),
    ensures
        final(merchant).slots@.len() == old(merchant).slots@.len(),
        forall|i: int|
            0 <= i < final(merchant).slots@.len() ==> (#[trigger] final(merchant).slots@[i] matches Some(it)
                ==> is_rollable_item(it)),
        extends(old(rng).draws(), final(rng).draws()),
        stock_draws(
            draws_since(old(rng).draws(), final(rng).draws()),
            refresh_fill_percent(refreshes_used(state.refreshes_remaining)) as u32,
            final(merchant).slots@,
            best_fill(2 + refreshes_used(state.refreshes_remaining), *base_value),
        ),
{
    let ghost d0 = rng.draws();
    proof {
        lemma_extends_refl(d0);
    }
    let used: u8 = if state.refreshes_remaining >= 3 {
        0
    } else {
        3 - state.refreshes_remaining
    };
    let fill = refresh_fill_chance(state);
    let n = merchant.slots.len();
    let mut slots: Vec<Option<Item>> = Vec::new();
    let mut i: usize = 0;
    while i < n
        invariant
            0 <= i <= n,
            slots@.len() == i,
            used <= 3,
            used == refreshes_used(state.refreshes_remaining),
            fill == refresh_fill_percent(refreshes_used(state.refreshes_remaining)),
            fill <= 100,
            forall|x: &Item| base_value.requires((x,)),
            forall|j: int| 0 <= j < i ==> (#[trigger] slots@[j] matches Some(it) ==> is_rollable_item(it)),
            extends(d0, rng.draws()),
            stock_draws(draws_since(d0, rng.draws()), fill, slots@, best_fill(2 + used, *base_value)),
        decreases n - i,
    {
        let ghost dk = rng.draws();
        let slot = if rng.ratio(fill, 100) {
            let ghost dr = rng.draws();
            let it = roll_merchant_stock_item(rng, used, base_value);
            proof {
                lemma_since_append(dk, seq![dr.last()]);
                assert(dr =~= dk + seq![dr.last()]);
                lemma_extends_trans(dk, dr, rng.draws());
                let e = draws_since(dk, rng.draws());
                assert(draws_since(dk, dr) == seq![dr.last()]);
                assert(e[0] == dr.last());
                assert(e.skip(1) =~= draws_since(dr, rng.draws()));
                assert(best_of_draws(e.skip(1), 2 + used, *base_value, true, it));
                assert(best_fill(2 + used, *base_value)(e.skip(1), it));
                assert(slot_draws(e, fill, Some(it), best_fill(2 + used, *base_value)));
            }
            Some(it)
        } else {
            proof {
                lemma_since_append(dk, seq![rng.draws().last()]);
                assert(rng.draws() =~= dk + seq![rng.draws().last()]);
                assert(slot_draws(draws_since(dk, rng.draws()), fill, None, best_fill(2 + used, *base_value)));
            }
            None
        };
        proof {
            lemma_extends_trans(d0, dk, rng.draws());
            lemma_stock_draws_push(
                draws_since(d0, dk),
                fill,
                slots@,
                best_fill(2 + used, *base_value),
                draws_since(dk, rng.draws()),
                slot,
            );
        }
        slots.push(slot);
        i = i + 1;
    }
    merchant.slots = slots;
}

/// Re-rolls the trader's stock from `seed`: `restock` with a generator
/// seeded with `seed`.
pub fn refresh_merchant_inventory<F: Fn(&Item) -> i32>(
    merchant: &mut MerchantStore,
    seed: u64,
    state: &MerchantState,
    base_value: &F,
)
    requires
        forall|x: &Item| base_value.requires((x,)),
    ensures
        final(merchant).slots@.len() == old(merchant).slots@.len(),
        forall|i: int|
            0 <= i < final(merchant).slots@.len() ==> (#[trigger] final(merchant).slots@[i] matches Some(it)
                ==> is_rollable_item(it)),
{
    let mut rng = Dice::from_seed(seed);
    restock(merchant, &mut rng, state, base_value);
}

/// The "Refresh stock" button: pays for a refresh when one is left and the
/// player can afford it (see `try_refresh_merchant`), then re-rolls the stock
/// from the new seed. Returns whether it did.
pub fn refresh_stock<F: Fn(&Item) -> i32>(
    merchant: &mut MerchantStore,
    state: &mut MerchantState,
    wallet: &mut PlayerWallet,
    base_value: &F,
) -> (refreshed: bool)
    requires
        old(wallet).gold - spec_refresh_cost(old(state).refreshes_remaining) <= i32::MAX,
        forall|x: &Item| base_value.requires((x,)),
    ensures
        refreshed == (old(state).refreshes_remaining > 0 && old(wallet).gold >= spec_refresh_cost(
            old(state).refreshes_remaining,
        )),
        refreshed ==> final(wallet).gold == old(wallet).gold - spec_refresh_cost(old(state).refreshes_remaining)
            && final(state).refreshes_remaining == old(state).refreshes_remaining - 1
            && final(state).refresh_seed == next_refresh_seed(old(state).refresh_seed),
        !refreshed ==> *final(wallet) == *old(wallet) && *final(state) == *old(state) && final(merchant).slots@
            == old(merchant).slots@,
        final(merchant).slots@.len() == old(merchant).slots@.len(),
        forall|i: int|
            0 <= i < final(merchant).slots@.len() ==> (#[trigger] final(merchant).slots@[i] matches Some(it)
                ==> (refreshed ==> is_rollable_item(it))),
        old(wallet).gold >= 0 ==> final(wallet).gold >= 0,
{
    let refreshed = try_refresh_merchant(state, wallet);
    if refreshed {
        refresh_merchant_inventory(merchant, state.refresh_seed, state, base_value);
    }
    refreshed
}

/// What was clicked on the trader tab in one frame: the stock refresh, and a
/// sale, a purchase and a buy-back, each as (slot, price shown for its item).
pub struct TraderClicks {
    pub refresh: bool,
    pub sell: Option<(usize, i32)>,
    pub buy: Option<(usize, i32)>,
    pub rebuy: Option<(usize, i32)>,
}

/// Applies one frame of trader clicks in the order the trader tab applies
/// them: the stock refresh (`refresh_stock`), then the sale
/// (`sell_stash_item`), the purchase (`buy_merchant_item`) and the buy-back
/// (`rebuy_item`). Shown prices are at least 1.
///
/// Law: a wallet that holds no debt holds none after the frame, whatever was
/// clicked.
pub fn apply_trader_clicks<F: Fn(&Item) -> i32>(
    clicks: &TraderClicks,
    merchant: &mut MerchantStore,
    state: &mut MerchantState,
    wallet: &mut PlayerWallet,
    stash: &mut Stash,
    buyback: &mut MerchantBuyback,
    bag: &mut BagGrid,
    base_value: &F,
)
    requires
        old(bag).wf(),
        old(wallet).gold >= 0,
        old(wallet).gold - spec_refresh_cost(old(state).refreshes_remaining) <= i32::MAX,
        clicks.sell matches Some((_, p)) ==> 1 <= p && old(wallet).gold + p <= i32::MAX && old(wallet).gold + p
            - spec_refresh_cost(old(state).refreshes_remaining) <= i32::MAX,
        clicks.buy matches Some((_, p)) ==> 1 <= p,
        clicks.rebuy matches Some((_, p)) ==> 1 <= p,
        forall|x: &Item| base_value.requires((x,)),
    ensures
        final(wallet).gold >= 0,
        final(bag).wf(),
        final(bag).w == old(bag).w,
        final(bag).h == old(bag).h,
{
    if clicks.refresh {
        refresh_stock(merchant, state, wallet, base_value);
    }
    match clicks.sell {
        Some((index, price)) => sell_stash_item(index, price, stash, buyback, wallet),
        None => {},
    }
    match clicks.buy {
        Some((index, price)) => buy_merchant_item(index, price, merchant, bag, wallet),
        None => {},
    }
    match clicks.rebuy {
        Some((index, price)) => rebuy_item(index, price, buyback, bag, wallet),
        None => {},
    }
}

/// The buyback shelf keeps the 16 most recent sales.
pub open spec fn spec_push_buyback(items: Seq<Item>, item: Item) -> Seq<Item> {
    let s = items.insert(0, item);
    if s.len() > 16 {
        s.subrange(0, 16)
    } else {
        s
    }
}

/// Puts a sold item at the front of the buyback shelf, dropping the oldest
/// beyond 16.
pub fn push_buyback_item(buyback: &mut MerchantBuyback, item: Item)
    ensures
        final(buyback).items@ == spec_push_buyback(old(buyback).items@, item),
{
    buyback.items.insert(0, item);
    if buyback.items.len() > 16 {
        buyback.items.truncate(16);
    }
}

/// Law: the buyback shelf never holds more than 16 items, and the item just
/// sold is at its front.
pub proof fn lemma_buyback_bounded(items: Seq<Item>, item: Item)
    requires
        items.len() <= 16,
    ensures
        spec_push_buyback(items, item).len() <= 16,
        spec_push_buyback(items, item)[0] == item,
{
}

/// Law: while the shelf has room, buying back the front item right after a
/// sale returns that item and leaves the shelf as it was before the sale.
pub proof fn lemma_sell_then_rebuy_restores_shelf(items: Seq<Item>, item: Item)
    requires
        items.len() < 16,
    ensures
        spec_push_buyback(items, item)[0] == item,
        spec_push_buyback(items, item).remove(0) == items,
{
    assert(spec_push_buyback(items, item).remove(0) =~= items);
}

/// Sells the item in stash slot `index` for `price` gold; it moves to the
/// buyback shelf.
pub fn sell_stash_item(index: usize, price: i32, stash: &mut Stash, buyback: &mut MerchantBuyback, wallet: &mut PlayerWallet)
    requires
        i32::MIN <= old(wallet).gold + price <= i32::MAX,
    ensures
        if 0 <= index < old(stash).slots@.len() && old(stash).slots@[index as int] is Some {
            &&& final(stash).slots@ == old(stash).slots@.update(index as int, None)
            &&& final(wallet).gold == old(wallet).gold + price
            &&& final(buyback).items@ == spec_push_buyback(old(buyback).items@, old(stash).slots@[index as int].unwrap())
        } else {
            &&& final(stash).slots@ == old(stash).slots@
            &&& *final(wallet) == *old(wallet)
            &&& final(buyback).items@ == old(buyback).items@
        },
        old(wallet).gold >= 0 && price >= 0 ==> final(wallet).gold >= 0,
{
    if index >= stash.slots.len() {
        return;
    }
    let ghost slots0 = stash.slots@;
    match take_cell(&mut stash.slots, index) {
        None => {
            assert(stash.slots@ =~= slots0);
        },
        Some(item) => {
            wallet.gold = wallet.gold + price;
            push_buyback_item(buyback, item);
        },
    }
}

/// Buys the item on shelf slot `index` for `price` when the player can
/// afford it and it fits in the bag.
pub fn buy_merchant_item(index: usize, price: i32, merchant: &mut MerchantStore, bag: &mut BagGrid, wallet: &mut PlayerWallet)
    requires
        old(bag).wf(),
        i32::MIN <= old(wallet).gold - price <= i32::MAX,
    ensures
        final(bag).wf(),
        final(bag).w == old(bag).w,
        final(bag).h == old(bag).h,
        ({
            let bought = 0 <= index < old(merchant).slots@.len() && old(merchant).slots@[index as int] is Some
                && old(wallet).gold >= price && has_fit(
                old(bag).w as int,
                old(bag).h as int,
                old(bag).cells@,
                old(merchant).slots@[index as int].unwrap().size.0 as int,
                old(merchant).slots@[index as int].unwrap().size.1 as int,
            );
            if bought {
                &&& final(bag).cells@ == spec_add(old(bag).w as int, old(bag).h as int, old(bag).cells@, old(merchant).slots@[index as int].unwrap())
                &&& final(merchant).slots@ == old(merchant).slots@.update(index as int, None)
                &&& final(wallet).gold == old(wallet).gold - price
            } else {
                &&& final(bag).cells@ == old(bag).cells@
                &&& final(merchant).slots@ == old(merchant).slots@
                &&& *final(wallet) == *old(wallet)
            }
        }),
        old(wallet).gold >= 0 ==> final(wallet).gold >= 0,
{
    if index >= merchant.slots.len() {
        return;
    }
    let ghost slots0 = merchant.slots@;
    match take_cell(&mut merchant.slots, index) {
        None => {
            assert(merchant.slots@ =~= slots0);
        },
        Some(item) => {
            if wallet.gold >= price {
                match bag.try_add_or_return(item) {
                    Ok(()) => {
                        wallet.gold = wallet.gold - price;
                    },
                    Err(it) => {
                        merchant.slots.set(index, Some(it));
                        assert(merchant.slots@ =~= slots0);
                    },
                }
            } else {
                merchant.slots.set(index, Some(item));
                assert(merchant.slots@ =~= slots0);
            }
        },
    }
}

/// Buys back the item at position `index` of the buyback shelf for `price`
/// when the player can afford it and it fits in the bag.
pub fn rebuy_item(index: usize, price: i32, buyback: &mut MerchantBuyback, bag: &mut BagGrid, wallet: &mut PlayerWallet)
    requires
        old(bag).wf(),
        i32::MIN <= old(wallet).gold - price <= i32::MAX,
    ensures
        final(bag).wf(),
        final(bag).w == old(bag).w,
        final(bag).h == old(bag).h,
        ({
            let bought = 0 <= index < old(buyback).items@.len() && old(wallet).gold >= price && has_fit(
                old(bag).w as int,
                old(bag).h as int,
                old(bag).cells@,
                old(buyback).items@[index as int].size.0 as int,
                old(buyback).items@[index as int].size.1 as int,
            );
            if bought {
                &&& final(bag).cells@ == spec_add(old(bag).w as int, old(bag).h as int, old(bag).cells@, old(buyback).items@[index as int])
                &&& final(buyback).items@ == old(buyback).items@.remove(index as int)
                &&& final(wallet).gold == old(wallet).gold - price
            } else {
                &&& final(bag).cells@ == old(bag).cells@
                &&& final(buyback).items@ == old(buyback).items@
                &&& *final(wallet) == *old(wallet)
            }
        }),
        old(wallet).gold >= 0 ==> final(wallet).gold >= 0,
{
    if index >= buyback.items.len() || wallet.gold < price {
        return;
    }
    let ghost items0 = buyback.items@;
    let item = buyback.items.remove(index);
    match bag.try_add_or_return(item) {
        Ok(()) => {
            wallet.gold = wallet.gold - price;
        },
        Err(it) => {
            buyback.items.insert(index, it);
            assert(buyback.items@ =~= items0);
        },
    }
}

} // verus!

verus! {

/// Law: equipping an item (other than a bag) from stash slot `index` wears
/// it in its slot and leaves the bag untouched; an item it displaces is put
/// in the first empty stash slot, which is slot `index` itself when no slot
/// before it is empty. Returns that slot.
pub proof fn lemma_equip_from_stash_stows_in_stash(
    index: int,
    w: u8,
    h: u8,
    cells: Seq<Option<Item>>,
    stash: Seq<Option<Item>>,
    e: Equipment,
    base: Stats,
    bonus: Stats,
) -> (k: int)
    requires
        0 <= index < stash.len(),
        stash[index] is Some,
        stash[index].unwrap().equip_slot is Some,
        stash[index].unwrap().equip_slot != Some(EquipSlot::Bag),
        spec_equip(e, stash[index].unwrap()).1 is Some,
    ensures
        ({
            let item = stash[index].unwrap();
            let di = spec_equip(e, item).1.unwrap();
            let r = spec_equip_from_stash(index, w, h, cells, stash, e, base, bonus);
            &&& 0 <= k <= index
            &&& forall|j: int| 0 <= j < k ==> #[trigger] stash[j] is Some
            &&& k == index || stash[k] is None
            &&& r.0 == w && r.1 == h
            &&& r.2 == cells
            &&& r.3 == stash.update(index, None).update(k, Some(di))
            &&& crate::inventory::slot_item(r.4, item.equip_slot.unwrap()) == Some(item)
            &&& r.4 == spec_equip(e, item).0
            &&& r.5 == equipment_bonus(base, r.4)
        }),
{
    let item = stash[index].unwrap();
    let s0 = stash.update(index, None);
    lemma_first_none(s0);
    assert(s0[index] is None);
    let k = first_none(s0);
    if k > index {
        assert(s0[index] is Some);
    }
    assert forall|j: int| 0 <= j < k implies #[trigger] stash[j] is Some by {
        assert(s0[j] is Some);
    }
    k
}

/// Law: equipping an item (other than a bag) from bag cell `index` takes it
/// out of that cell; an item it displaces goes to the first empty stash slot
/// when the stash has one, and the rest of the bag is untouched. Returns that
/// slot.
pub proof fn lemma_equip_from_bag_stows_in_stash(
    index: int,
    w: u8,
    h: u8,
    cells: Seq<Option<Item>>,
    stash: Seq<Option<Item>>,
    e: Equipment,
    base: Stats,
    bonus: Stats,
    free: int,
) -> (k: int)
    requires
        0 <= index < cells.len(),
        cells[index] is Some,
        cells[index].unwrap().equip_slot is Some,
        cells[index].unwrap().equip_slot != Some(EquipSlot::Bag),
        spec_equip(e, cells[index].unwrap()).1 is Some,
        0 <= free < stash.len(),
        stash[free] is None,
    ensures
        ({
            let item = cells[index].unwrap();
            let di = spec_equip(e, item).1.unwrap();
            let r = spec_equip_from_bag(index, w, h, cells, stash, e, base, bonus);
            &&& 0 <= k <= free
            &&& forall|j: int| 0 <= j < k ==> #[trigger] stash[j] is Some
            &&& stash[k] is None
            &&& r.0 == w && r.1 == h
            &&& r.2 == cells.update(index, None)
            &&& r.3 == stash.update(k, Some(di))
            &&& crate::inventory::slot_item(r.4, item.equip_slot.unwrap()) == Some(item)
            &&& r.4 == spec_equip(e, item).0
            &&& r.5 == equipment_bonus(base, r.4)
        }),
{
    lemma_first_none(stash);
    let k = first_none(stash);
    if k > free {
        assert(stash[free] is Some);
    }
    k
}

/// Law: unequipping a worn item (other than a bag) empties its slot and
/// puts it in the bag at its first fit when it fits there, leaving the stash
/// untouched.
pub proof fn lemma_unequip_stows_in_bag(
    slot: EquipSlot,
    w: u8,
    h: u8,
    cells: Seq<Option<Item>>,
    stash: Seq<Option<Item>>,
    e: Equipment,
    base: Stats,
    bonus: Stats,
)
    requires
        slot != EquipSlot::Bag,
        crate::inventory::slot_item(e, slot) is Some,
        has_fit(
            w as int,
            h as int,
            cells,
            crate::inventory::slot_item(e, slot).unwrap().size.0 as int,
            crate::inventory::slot_item(e, slot).unwrap().size.1 as int,
        ),
    ensures
        ({
            let item = crate::inventory::slot_item(e, slot).unwrap();
            let r = spec_unequip(slot, w, h, cells, stash, e, base, bonus);
            &&& r.0 == w && r.1 == h
            &&& r.2 == spec_add(w as int, h as int, cells, item)
            &&& r.3 == stash
            &&& crate::inventory::slot_item(r.4, slot) is None
            &&& r.4 == with_slot(e, slot, None)
            &&& r.5 == equipment_bonus(base, r.4)
        }),
{
}

/// Law: unequipping a worn item (other than a bag) that fits nowhere in the
/// bag puts it in the first empty stash slot, leaving the bag untouched.
/// Returns that slot.
pub proof fn lemma_unequip_stows_in_stash(
    slot: EquipSlot,
    w: u8,
    h: u8,
    cells: Seq<Option<Item>>,
    stash: Seq<Option<Item>>,
    e: Equipment,
    base: Stats,
    bonus: Stats,
    free: int,
) -> (k: int)
    requires
        slot != EquipSlot::Bag,
        crate::inventory::slot_item(e, slot) is Some,
        !has_fit(
            w as int,
            h as int,
            cells,
            crate::inventory::slot_item(e, slot).unwrap().size.0 as int,
            crate::inventory::slot_item(e, slot).unwrap().size.1 as int,
        ),
        0 <= free < stash.len(),
        stash[free] is None,
    ensures
        ({
            let item = crate::inventory::slot_item(e, slot).unwrap();
            let r = spec_unequip(slot, w, h, cells, stash, e, base, bonus);
            &&& 0 <= k <= free
            &&& forall|j: int| 0 <= j < k ==> #[trigger] stash[j] is Some
            &&& stash[k] is None
            &&& r.0 == w && r.1 == h
            &&& r.2 == cells
            &&& r.3 == stash.update(k, Some(item))
            &&& crate::inventory::slot_item(r.4, slot) is None
            &&& r.4 == with_slot(e, slot, None)
            &&& r.5 == equipment_bonus(base, r.4)
        }),
{
    lemma_first_none(stash);
    let k = first_none(stash);
    if k > free {
        assert(stash[free] is Some);
    }
    k
}

/// Law: equipping an item (other than a bag) from stash slot `index` that
/// displaces nothing empties that slot and leaves the bag untouched.
pub proof fn lemma_equip_from_stash_without_displacement(
    index: int,
    w: u8,
    h: u8,
    cells: Seq<Option<Item>>,
    stash: Seq<Option<Item>>,
    e: Equipment,
    base: Stats,
    bonus: Stats,
)
    requires
        0 <= index < stash.len(),
        stash[index] is Some,
        stash[index].unwrap().equip_slot is Some,
        stash[index].unwrap().equip_slot != Some(EquipSlot::Bag),
        spec_equip(e, stash[index].unwrap()).1 is None,
    ensures
        ({
            let item = stash[index].unwrap();
            let r = spec_equip_from_stash(index, w, h, cells, stash, e, base, bonus);
            &&& r.0 == w && r.1 == h
            &&& r.2 == cells
            &&& r.3 == stash.update(index, None)
            &&& r.4 == spec_equip(e, item).0
            &&& r.5 == equipment_bonus(base, r.4)
        }),
{
}

/// Law: equipping an item (other than a bag) from bag cell `index` while the
/// stash is full puts a displaced item in the bag at its first fit (the cell
/// just emptied counts as free) and leaves the stash untouched.
pub proof fn lemma_equip_from_bag_with_full_stash(
    index: int,
    w: u8,
    h: u8,
    cells: Seq<Option<Item>>,
    stash: Seq<Option<Item>>,
    e: Equipment,
    base: Stats,
    bonus: Stats,
)
    requires
        0 <= index < cells.len(),
        cells[index] is Some,
        cells[index].unwrap().equip_slot is Some,
        cells[index].unwrap().equip_slot != Some(EquipSlot::Bag),
        spec_equip(e, cells[index].unwrap()).1 is Some,
        forall|j: int| 0 <= j < stash.len() ==> #[trigger] stash[j] is Some,
    ensures
        ({
            let item = cells[index].unwrap();
            let di = spec_equip(e, item).1.unwrap();
            let r = spec_equip_from_bag(index, w, h, cells, stash, e, base, bonus);
            &&& r.0 == w && r.1 == h
            &&& r.2 == spec_add(w as int, h as int, cells.update(index, None), di)
            &&& r.3 == stash
            &&& r.4 == spec_equip(e, item).0
            &&& r.5 == equipment_bonus(base, r.4)
        }),
{
    lemma_first_none(stash);
    if first_none(stash) < stash.len() {
        assert(stash[first_none(stash)] is Some);
    }
    let item = cells[index].unwrap();
    let di = spec_equip(e, item).1.unwrap();
    let c1 = cells.update(index, None);
    if !has_fit(w as int, h as int, c1, di.size.0 as int, di.size.1 as int) {
        assert(spec_add(w as int, h as int, c1, di) == c1);
    }
}

/// Law: a worn item (other than a bag) that fits neither in the bag nor in
/// the stash stays worn, and nothing else changes.
pub proof fn lemma_unequip_without_room_changes_nothing(
    slot: EquipSlot,
    w: u8,
    h: u8,
    cells: Seq<Option<Item>>,
    stash: Seq<Option<Item>>,
    e: Equipment,
    base: Stats,
    bonus: Stats,
)
    requires
        crate::inventory::hands_exclusive(e),
        slots_consistent(e),
        slot != EquipSlot::Bag,
        crate::inventory::slot_item(e, slot) is Some,
        !has_fit(
            w as int,
            h as int,
            cells,
            crate::inventory::slot_item(e, slot).unwrap().size.0 as int,
            crate::inventory::slot_item(e, slot).unwrap().size.1 as int,
        ),
        forall|j: int| 0 <= j < stash.len() ==> #[trigger] stash[j] is Some,
    ensures
        spec_unequip(slot, w, h, cells, stash, e, base, bonus) == (w, h, cells, stash, e, bonus),
{
    lemma_first_none(stash);
    if first_none(stash) < stash.len() {
        assert(stash[first_none(stash)] is Some);
    }
    lemma_unequip_then_equip_restores(e, slot);
}

} // verus!

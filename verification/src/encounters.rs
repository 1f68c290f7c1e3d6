//! Skeleton encounters: where they stand in the maze, what they drop, and the
//! chest tiers found alongside them.

use crate::inventory::{cell_at, lemma_cell_at_bounds, lemma_cell_at_order, Chest, ChestTier};
use crate::items::{is_rollable_item, Item};
use crate::menu::{best_list_draws, best_of_draws, lemma_best_list_draws_push, roll_best_of};
use crate::maze::{connected, in_grid, open_step, valid_path, wall, Cell, Maze};
use crate::maze::{count_false, lemma_count_false_visit};
use std::collections::VecDeque;
use crate::rng::{
    draw_hit, draw_value, draws_since, extends, i32_draw, lemma_extends_refl, lemma_extends_trans, lemma_since_append, ratio_draw,
    u32_draw, usize_draw, Dice, Draw,
};
use vstd::prelude::*;

verus! {

/// The skeleton kinds.
#[derive(Clone, Copy, Debug, PartialEq, Eq, Structural)]
pub enum SkeletonVariant {
    Archer,
    Knight,
    SwordShield,
    Guard,
    Mage,
    King,
}

/// Display name of a skeleton kind.
pub open spec fn spec_skeleton_name(v: SkeletonVariant) -> Seq<char> {
    match v {
        SkeletonVariant::Archer => "Skeleton Archer"@,
        SkeletonVariant::Knight => "Skeleton Knight"@,
        SkeletonVariant::SwordShield => "Skeleton Swordshield"@,
        SkeletonVariant::Guard => "Skeleton Guard"@,
        SkeletonVariant::Mage => "Skeleton Mage"@,
        SkeletonVariant::King => "Skeleton King"@,
    }
}

/// Display name of a skeleton kind.
pub fn skeleton_name(v: SkeletonVariant) -> (s: &'static str)
    ensures
        s@ == spec_skeleton_name(v),
{
    match v {
        SkeletonVariant::Archer => "Skeleton Archer",
        SkeletonVariant::Knight => "Skeleton Knight",
        SkeletonVariant::SwordShield => "Skeleton Swordshield",
        SkeletonVariant::Guard => "Skeleton Guard",
        SkeletonVariant::Mage => "Skeleton Mage",
        SkeletonVariant::King => "Skeleton King",
    }
}

/// Gold dropped by each kind: an inclusive range.
pub open spec fn gold_range(v: SkeletonVariant) -> (int, int) {
    match v {
        SkeletonVariant::Archer => (8, 14),
        SkeletonVariant::Knight => (11, 18),
        SkeletonVariant::SwordShield => (10, 16),
        SkeletonVariant::Guard => (16, 24),
        SkeletonVariant::Mage => (18, 28),
        SkeletonVariant::King => (80, 120),
    }
}

/// The draws of a gold drop of `g` by a `v`: one draw in its range.
pub open spec fn gold_drop_draws(d: Seq<Draw>, v: SkeletonVariant, g: i32) -> bool {
    &&& d.len() == 1
    &&& i32_draw(d[0], gold_range(v).0 as i32, gold_range(v).1 as i32)
    &&& draw_value(d[0]) == g
}

/// Rolls the gold that a defeated skeleton drops.
pub fn gold_drop_amount(v: SkeletonVariant, rng: &mut Dice) -> (g: i32)
    ensures
        gold_range(v).0 <= g <= gold_range(v).1,
        extends(old(rng).draws(), final(rng).draws()),
        gold_drop_draws(draws_since(old(rng).draws(), final(rng).draws()), v, g),
{
    let ghost d0 = rng.draws();
    let g = match v {
        SkeletonVariant::Archer => rng.range_i32_inclusive(8, 14),
        SkeletonVariant::Knight => rng.range_i32_inclusive(11, 18),
        SkeletonVariant::SwordShield => rng.range_i32_inclusive(10, 16),
        SkeletonVariant::Guard => rng.range_i32_inclusive(16, 24),
        SkeletonVariant::Mage => rng.range_i32_inclusive(18, 28),
        SkeletonVariant::King => rng.range_i32_inclusive(80, 120),
    };
    proof {
        let x = Draw::I32(gold_range(v).0 as i32, gold_range(v).1 as i32, g);
        assert(rng.draws() == d0 + seq![x]);
        lemma_since_append(d0, seq![x]);
    }
    g
}

/// Look of a pile of gold.
#[derive(Clone, Copy, Debug, PartialEq, Eq, Structural)]
pub enum GoldDropStyle {
    Common,
    Martial,
    Arcane,
    Royal,
    ChestCache,
}

/// Archers drop common coin, melee kinds martial coin, mages arcane coin and
/// the king royal coin.
pub fn gold_drop_style_for_variant(v: SkeletonVariant) -> (s: GoldDropStyle)
    ensures
        s == match v {
            SkeletonVariant::Archer => GoldDropStyle::Common,
            SkeletonVariant::Knight | SkeletonVariant::SwordShield | SkeletonVariant::Guard => GoldDropStyle::Martial,
            SkeletonVariant::Mage => GoldDropStyle::Arcane,
            SkeletonVariant::King => GoldDropStyle::Royal,
        },
{
    match v {
        SkeletonVariant::Archer => GoldDropStyle::Common,
        SkeletonVariant::Knight | SkeletonVariant::SwordShield | SkeletonVariant::Guard => GoldDropStyle::Martial,
        SkeletonVariant::Mage => GoldDropStyle::Arcane,
        SkeletonVariant::King => GoldDropStyle::Royal,
    }
}

/// Tier of a chest given a roll in 0..100: 52% common, 28% rare, 15% epic,
/// 5% royal.
pub open spec fn tier_for_roll(roll: int) -> ChestTier {
    if roll <= 51 {
        ChestTier::Common
    } else if roll <= 79 {
        ChestTier::Rare
    } else if roll <= 94 {
        ChestTier::Epic
    } else {
        ChestTier::Royal
    }
}

/// The tier of a chest for the draw `roll` in 0..100 (see `tier_for_roll`).
pub fn chest_tier_for_roll(roll: i32) -> (t: ChestTier)
    requires
        0 <= roll < 100,
    ensures
        t == tier_for_roll(roll as int),
{
    if roll <= 51 {
        ChestTier::Common
    } else if roll <= 79 {
        ChestTier::Rare
    } else if roll <= 94 {
        ChestTier::Epic
    } else {
        ChestTier::Royal
    }
}

/// The draws of a chest tier `t`: one draw in 0..=99 whose band is `t`.
pub open spec fn tier_draws(d: Seq<Draw>, t: ChestTier) -> bool {
    &&& d.len() == 1
    &&& i32_draw(d[0], 0, 99)
    &&& t == tier_for_roll(draw_value(d[0]))
}

/// Rolls a chest tier: one draw in 0..=99, then `chest_tier_for_roll`.
pub fn roll_chest_tier(rng: &mut Dice) -> (t: ChestTier)
    ensures
        exists|roll: int| 0 <= roll < 100 && t == #[trigger] tier_for_roll(roll),
        extends(old(rng).draws(), final(rng).draws()),
        tier_draws(draws_since(old(rng).draws(), final(rng).draws()), t),
{
    let ghost d0 = rng.draws();
    let roll = rng.range_i32_inclusive(0, 99);
    let t = chest_tier_for_roll(roll);
    assert(t == tier_for_roll(roll as int));
    proof {
        assert(rng.draws() == d0 + seq![Draw::I32(0, 99, roll)]);
        lemma_since_append(d0, seq![Draw::I32(0, 99, roll)]);
    }
    t
}

/// How many chests a maze of `w` x `h` cells holds: one per twelve cells, at
/// least 8 and at most 40.
pub open spec fn spec_chest_count(w: u32, h: u32) -> int {
    let n = (w * h) / 12;
    if n < 8 {
        8
    } else if n > 40 {
        40
    } else {
        n
    }
}

/// The number of chests to place in a `w` x `h` maze.
pub fn chest_spawn_count(w: u32, h: u32) -> (n: usize)
    requires
        w * h <= u32::MAX,
    ensures
        n == spec_chest_count(w, h),
{
    let total = (w * h) as usize;
    let n = total / 12;
    if n < 8 {
        8
    } else if n > 40 {
        40
    } else {
        n
    }
}

/// Where a chest stands, its tier, and how many items it holds.
pub struct ChestSite {
    pub x: u32,
    pub y: u32,
    pub tier: ChestTier,
    pub item_count: i32,
}

/// The range of the item count of a chest of tier `t`.
pub open spec fn chest_item_range(t: ChestTier) -> (int, int) {
    match t {
        ChestTier::Common => (1, 2),
        ChestTier::Rare => (2, 3),
        ChestTier::Epic => (3, 4),
        ChestTier::Royal => (4, 5),
    }
}

/// The draws of chest site `s` in a `w` x `h` maze: its column, its row, its
/// tier, and its item count in the tier's range.
pub open spec fn site_draws(d: Seq<Draw>, w: u32, h: u32, s: ChestSite) -> bool {
    &&& d.len() == 4
    &&& u32_draw(d[0], 0, w) && draw_value(d[0]) == s.x
    &&& u32_draw(d[1], 0, h) && draw_value(d[1]) == s.y
    &&& tier_draws(d.subrange(2, 3), s.tier)
    &&& i32_draw(d[3], chest_item_range(s.tier).0 as i32, chest_item_range(s.tier).1 as i32)
    &&& draw_value(d[3]) == s.item_count
}

/// Rolls, in this order, the cell of a chest in a `w` x `h` maze, its tier,
/// and its item count.
pub fn roll_chest_site(rng: &mut Dice, w: u32, h: u32) -> (s: ChestSite)
    requires
        w > 0,
        h > 0,
    ensures
        s.x < w,
        s.y < h,
        exists|roll: int| 0 <= roll < 100 && s.tier == #[trigger] tier_for_roll(roll),
        chest_item_range(s.tier).0 <= s.item_count <= chest_item_range(s.tier).1,
        extends(old(rng).draws(), final(rng).draws()),
        site_draws(draws_since(old(rng).draws(), final(rng).draws()), w, h, s),
{
    let ghost d0 = rng.draws();
    let x = rng.range_u32(0, w);
    let y = rng.range_u32(0, h);
    let ghost d1 = rng.draws();
    let tier = roll_chest_tier(rng);
    let ghost d2 = rng.draws();
    let item_count = match tier {
        ChestTier::Common => rng.range_i32_inclusive(1, 2),
        ChestTier::Rare => rng.range_i32_inclusive(2, 3),
        ChestTier::Epic => rng.range_i32_inclusive(3, 4),
        ChestTier::Royal => rng.range_i32_inclusive(4, 5),
    };
    proof {
        let t = draws_since(d1, d2);
        let c = Draw::I32(chest_item_range(tier).0 as i32, chest_item_range(tier).1 as i32, item_count);
        assert(d2 =~= d1 + t);
        let all = seq![Draw::U32(0, w, x), Draw::U32(0, h, y)] + t + seq![c];
        assert(rng.draws() =~= d0 + all);
        lemma_since_append(d0, all);
        assert(all.subrange(2, 3) =~= t);
    }
    ChestSite { x, y, tier, item_count }
}

/// The range of the gold in a chest of tier `t` (a common chest may also hold
/// none).
pub open spec fn chest_gold_range(t: ChestTier) -> (int, int) {
    match t {
        ChestTier::Common => (12, 34),
        ChestTier::Rare => (22, 58),
        ChestTier::Epic => (48, 96),
        ChestTier::Royal => (95, 170),
    }
}

/// The chance, in percent, that a common chest holds gold at all.
pub const COMMON_CHEST_GOLD_PERCENT: u32 = 28;

/// Rolls the gold inside a chest of tier `t`: a common chest holds gold with
/// chance `COMMON_CHEST_GOLD_PERCENT`, the others always do.
pub fn roll_chest_gold(rng: &mut Dice, t: ChestTier) -> (g: i32)
    ensures
        (t == ChestTier::Common && g == 0) || chest_gold_range(t).0 <= g <= chest_gold_range(t).1,
        extends(old(rng).draws(), final(rng).draws()),
        chest_gold_draws(draws_since(old(rng).draws(), final(rng).draws()), t, g),
{
    let ghost d0 = rng.draws();
    let g = match t {
        ChestTier::Common => {
            if rng.ratio(COMMON_CHEST_GOLD_PERCENT, 100) {
                rng.range_i32_inclusive(12, 34)
            } else {
                0
            }
        },
        ChestTier::Rare => rng.range_i32_inclusive(22, 58),
        ChestTier::Epic => rng.range_i32_inclusive(48, 96),
        ChestTier::Royal => rng.range_i32_inclusive(95, 170),
    };
    proof {
        lemma_since_append(d0, draws_since(d0, rng.draws()));
        assert(rng.draws() =~= d0 + rng.draws().skip(d0.len() as int));
    }
    g
}

/// The draws of the gold `g` of a chest of tier `t`: for a common chest,
/// first whether it holds gold at all (`COMMON_CHEST_GOLD_PERCENT`); then,
/// where it does, one draw in the tier's range.
pub open spec fn chest_gold_draws(d: Seq<Draw>, t: ChestTier, g: i32) -> bool {
    let r = chest_gold_range(t);
    if t == ChestTier::Common {
        &&& d.len() >= 1
        &&& ratio_draw(d[0], COMMON_CHEST_GOLD_PERCENT, 100)
        &&& if draw_hit(d[0]) {
            d.len() == 2 && i32_draw(d[1], r.0 as i32, r.1 as i32) && draw_value(d[1]) == g
        } else {
            d.len() == 1 && g == 0
        }
    } else {
        d.len() == 1 && i32_draw(d[0], r.0 as i32, r.1 as i32) && draw_value(d[0]) == g
    }
}

/// The chance, in percent, of a gold cache beside a chest of tier `t`.
pub open spec fn cache_chance(t: ChestTier) -> u32 {
    match t {
        ChestTier::Common => 22,
        ChestTier::Rare => 42,
        ChestTier::Epic => 65,
        ChestTier::Royal => 100,
    }
}

/// The chance, in percent, of a gold cache beside a chest of tier `t`.
pub fn cache_chance_for(t: ChestTier) -> (c: u32)
    ensures
        c == cache_chance(t),
{
    match t {
        ChestTier::Common => 22,
        ChestTier::Rare => 42,
        ChestTier::Epic => 65,
        ChestTier::Royal => 100,
    }
}

/// The range of a gold cache beside a chest of tier `t`.
pub open spec fn cache_range(t: ChestTier) -> (int, int) {
    match t {
        ChestTier::Common => (18, 38),
        ChestTier::Rare => (36, 70),
        ChestTier::Epic => (62, 120),
        ChestTier::Royal => (130, 240),
    }
}

/// Rolls whether a gold cache lies beside a chest of tier `t`, and its
/// amount (see `cache_chance`); a royal chest always has one.
pub fn roll_chest_cache(rng: &mut Dice, t: ChestTier) -> (c: Option<i32>)
    ensures
        cache_chance(t) == 100 ==> c is Some,
        c matches Some(a) ==> cache_range(t).0 <= a <= cache_range(t).1,
        extends(old(rng).draws(), final(rng).draws()),
        cache_draws(draws_since(old(rng).draws(), final(rng).draws()), t, c),
{
    let ghost d0 = rng.draws();
    let chance = cache_chance_for(t);
    let c = if rng.ratio(chance, 100) {
        let amount = match t {
            ChestTier::Common => rng.range_i32_inclusive(18, 38),
            ChestTier::Rare => rng.range_i32_inclusive(36, 70),
            ChestTier::Epic => rng.range_i32_inclusive(62, 120),
            ChestTier::Royal => rng.range_i32_inclusive(130, 240),
        };
        Some(amount)
    } else {
        None
    };
    proof {
        lemma_since_append(d0, draws_since(d0, rng.draws()));
        assert(rng.draws() =~= d0 + rng.draws().skip(d0.len() as int));
    }
    c
}

/// The draws of the cache `c` beside a chest of tier `t`: whether there is
/// one (`cache_chance`), then, where there is, its amount in the tier's range.
pub open spec fn cache_draws(d: Seq<Draw>, t: ChestTier, c: Option<i32>) -> bool {
    &&& d.len() >= 1
    &&& ratio_draw(d[0], cache_chance(t), 100)
    &&& if draw_hit(d[0]) {
        &&& d.len() == 2
        &&& i32_draw(d[1], cache_range(t).0 as i32, cache_range(t).1 as i32)
        &&& c == Some(draw_value(d[1]) as i32)
    } else {
        d.len() == 1 && c is None
    }
}

/// A chest as rolled for the level: where it stands, the chest itself, and
/// the gold cache beside it, if any.
pub struct ChestRoll {
    pub site: ChestSite,
    pub chest: Chest,
    pub cache: Option<i32>,
}

/// How many items a chest of tier `t` rolls for each item it holds, keeping
/// the one of highest base value.
pub open spec fn chest_item_attempts(t: ChestTier) -> int {
    match t {
        ChestTier::Common => 1,
        ChestTier::Rare => 2,
        ChestTier::Epic => 4,
        ChestTier::Royal => 6,
    }
}

/// The number of items rolled for each item of a chest of tier `t`.
pub fn chest_item_attempts_for(t: ChestTier) -> (n: usize)
    ensures
        n == chest_item_attempts(t),
{
    match t {
        ChestTier::Common => 1,
        ChestTier::Rare => 2,
        ChestTier::Epic => 4,
        ChestTier::Royal => 6,
    }
}

/// Rolls one item of a chest of tier `t`: the first of
/// `chest_item_attempts(t)` rolled items with the highest base value.
pub fn roll_chest_item<F: Fn(&Item) -> i32>(rng: &mut Dice, t: ChestTier, base_value: &F) -> (it: Item)
    requires
        forall|x: &Item| base_value.requires((x,)),
    ensures
        is_rollable_item(it),
        extends(old(rng).draws(), final(rng).draws()),
        best_of_draws(draws_since(old(rng).draws(), final(rng).draws()), chest_item_attempts(t), *base_value, false, it),
{
    let n = chest_item_attempts_for(t);
    roll_best_of(rng, n, false, base_value)
}

/// Rolls one chest of a `w` x `h` maze, drawing in this order its site (cell,
/// tier, item count), one `roll_chest_item` per item, its gold, and its
/// cache.
pub fn roll_chest<F: Fn(&Item) -> i32>(rng: &mut Dice, w: u32, h: u32, base_value: &F) -> (r: ChestRoll)
    requires
        w > 0,
        h > 0,
        forall|x: &Item| base_value.requires((x,)),
    ensures
        r.site.x < w,
        r.site.y < h,
        exists|roll: int| 0 <= roll < 100 && r.site.tier == #[trigger] tier_for_roll(roll),
        chest_item_range(r.site.tier).0 <= r.site.item_count <= chest_item_range(r.site.tier).1,
        r.chest.tier == r.site.tier,
        r.chest.items@.len() == r.site.item_count,
        forall|i: int| 0 <= i < r.chest.items@.len() ==> is_rollable_item(#[trigger] r.chest.items@[i]),
        (r.site.tier == ChestTier::Common && r.chest.gold == 0) || chest_gold_range(r.site.tier).0 <= r.chest.gold
            <= chest_gold_range(r.site.tier).1,
        cache_chance(r.site.tier) == 100 ==> r.cache is Some,
        r.cache matches Some(a) ==> cache_range(r.site.tier).0 <= a <= cache_range(r.site.tier).1,
        extends(old(rng).draws(), final(rng).draws()),
        chest_draws(draws_since(old(rng).draws(), final(rng).draws()), w, h, *base_value, r),
{
    let ghost d0 = rng.draws();
    let site = roll_chest_site(rng, w, h);
    let ghost d1 = rng.draws();
    proof {
        lemma_extends_refl(d1);
    }
    let mut items: Vec<Item> = Vec::new();
    let mut k: i32 = 0;
    while k < site.item_count
        invariant
            0 <= k <= site.item_count,
            items@.len() == k,
            forall|i: int| 0 <= i < items@.len() ==> is_rollable_item(#[trigger] items@[i]),
            forall|x: &Item| base_value.requires((x,)),
            extends(d1, rng.draws()),
            best_list_draws(draws_since(d1, rng.draws()), chest_item_attempts(site.tier), *base_value, false, items@),
        decreases site.item_count - k,
    {
        let ghost dk = rng.draws();
        let it = roll_chest_item(rng, site.tier, base_value);
        proof {
            lemma_extends_trans(d1, dk, rng.draws());
            lemma_best_list_draws_push(
                draws_since(d1, dk),
                chest_item_attempts(site.tier),
                *base_value,
                false,
                items@,
                draws_since(dk, rng.draws()),
                it,
            );
        }
        items.push(it);
        k = k + 1;
    }
    let ghost d2 = rng.draws();
    let gold = roll_chest_gold(rng, site.tier);
    let ghost d3 = rng.draws();
    let cache = roll_chest_cache(rng, site.tier);
    let tier = site.tier;
    let r = ChestRoll { site, chest: Chest { items, gold, tier }, cache };
    proof {
        lemma_extends_trans(d0, d1, d2);
        lemma_extends_trans(d0, d2, d3);
        lemma_extends_trans(d0, d3, rng.draws());
        let d = draws_since(d0, rng.draws());
        let sd = draws_since(d0, d1);
        let id = draws_since(d1, d2);
        let gd = draws_since(d2, d3);
        let cd = draws_since(d3, rng.draws());
        let i: int = 4 + id.len() as int;
        let j: int = i + gd.len() as int;
        assert(d =~= sd + id + gd + cd);
        assert(d.take(4) =~= sd);
        assert(d.subrange(4, i) =~= id);
        assert(d.subrange(i, j) =~= gd);
        assert(d.skip(j) =~= cd);
        assert(chest_gold_draws(d.subrange(i, j), r.site.tier, r.chest.gold));
    }
    r
}

/// The draws of one rolled chest `r` of a `w` x `h` maze: its site, one
/// `roll_chest_item` per item, its gold, and its cache, in this order.
pub open spec fn chest_draws<F: Fn(&Item) -> i32>(d: Seq<Draw>, w: u32, h: u32, base_value: F, r: ChestRoll) -> bool {
    exists|i: int, j: int|
        4 <= i <= j <= d.len() && site_draws(d.take(4), w, h, r.site) && best_list_draws(
            d.subrange(4, i),
            chest_item_attempts(r.site.tier),
            base_value,
            false,
            r.chest.items@,
        ) && #[trigger] chest_gold_draws(d.subrange(i, j), r.site.tier, r.chest.gold) && cache_draws(
            d.skip(j),
            r.site.tier,
            r.cache,
        )
}

/// The neighbours reachable from (`x`, `y`) through its open walls, in the
/// order north, east, south, west.
pub open spec fn spec_open_neighbors(m: Maze, x: int, y: int) -> Seq<(u32, u32)> {
    let w = m.w as int;
    let h = m.h as int;
    let c = m.cells@;
    let s0 = Seq::<(u32, u32)>::empty();
    let s1 = if !wall(w, c, x, y, 0) && y > 0 { s0.push((x as u32, (y - 1) as u32)) } else { s0 };
    let s2 = if !wall(w, c, x, y, 1) && x + 1 < w { s1.push(((x + 1) as u32, y as u32)) } else { s1 };
    let s3 = if !wall(w, c, x, y, 2) && y + 1 < h { s2.push((x as u32, (y + 1) as u32)) } else { s2 };
    if !wall(w, c, x, y, 3) && x > 0 { s3.push(((x - 1) as u32, y as u32)) } else { s3 }
}

/// The neighbours of a cell that its open walls lead to.
pub fn open_neighbors(maze: &Maze, cell: (u32, u32)) -> (r: Vec<(u32, u32)>)
    requires
        maze.wf(),
        maze.w as int * maze.h as int <= u32::MAX,
        in_grid(maze.w as int, maze.h as int, cell.0 as int, cell.1 as int),
    ensures
        r@ == spec_open_neighbors(*maze, cell.0 as int, cell.1 as int),
{
    let (x, y) = cell;
    proof {
        lemma_cell_at_bounds(maze.w as int, maze.h as int, x as int, y as int);
    }
    let idx = (y * maze.w + x) as usize;
    let c = maze.cells[idx];
    let mut neighbors: Vec<(u32, u32)> = Vec::new();
    if !c.walls[0] && y > 0 {
        neighbors.push((x, y - 1));
    }
    if !c.walls[1] && x + 1 < maze.w {
        neighbors.push((x + 1, y));
    }
    if !c.walls[2] && y + 1 < maze.h {
        neighbors.push((x, y + 1));
    }
    if !c.walls[3] && x > 0 {
        neighbors.push((x - 1, y));
    }
    neighbors
}

/// The open neighbours are exactly the cells one open step away.
pub proof fn lemma_open_neighbors_steps(m: Maze, x: int, y: int)
    requires
        m.wf(),
        in_grid(m.w as int, m.h as int, x, y),
    ensures
        forall|k: int|
            0 <= k < spec_open_neighbors(m, x, y).len() ==> #[trigger] open_step(
                m.w as int,
                m.h as int,
                m.cells@,
                x,
                y,
                spec_open_neighbors(m, x, y)[k].0 as int,
                spec_open_neighbors(m, x, y)[k].1 as int,
            ),
        forall|x2: int, y2: int|
            #[trigger] open_step(m.w as int, m.h as int, m.cells@, x, y, x2, y2) ==> spec_open_neighbors(m, x, y).contains(
                (x2 as u32, y2 as u32),
            ),
{
    let ns = spec_open_neighbors(m, x, y);
    assert forall|x2: int, y2: int| #[trigger] open_step(m.w as int, m.h as int, m.cells@, x, y, x2, y2) implies ns.contains(
        (x2 as u32, y2 as u32),
    ) by {
        assert(ns.contains((x2 as u32, y2 as u32))) by {
            if x2 == x && y2 == y - 1 {
                assert(ns[0] == (x2 as u32, y2 as u32));
            } else if x2 == x + 1 && y2 == y {
                let i = if !wall(m.w as int, m.cells@, x, y, 0) && y > 0 { 1int } else { 0int };
                assert(ns[i] == (x2 as u32, y2 as u32));
            } else if x2 == x && y2 == y + 1 {
                let i0 = if !wall(m.w as int, m.cells@, x, y, 0) && y > 0 { 1int } else { 0int };
                let i = if !wall(m.w as int, m.cells@, x, y, 1) && x + 1 < m.w { i0 + 1 } else { i0 };
                assert(ns[i] == (x2 as u32, y2 as u32));
            } else {
                assert(ns[ns.len() - 1] == (x2 as u32, y2 as u32));
            }
        }
    }
}

} // verus!

verus! {

/// Whether `c` is in `v`.
pub fn contains_cell(v: &Vec<(u32, u32)>, c: (u32, u32)) -> (r: bool)
    ensures
        r == v@.contains(c),
{
    let mut i: usize = 0;
    while i < v.len()
        invariant
            0 <= i <= v@.len(),
            forall|j: int| 0 <= j < i ==> v@[j] != c,
        decreases v@.len() - i,
    {
        if v[i].0 == c.0 && v[i].1 == c.1 {
            assert(v@[i as int] == c);
            return true;
        }
        i = i + 1;
    }
    false
}

/// A cell as a pair of integers.
pub open spec fn pt(c: (u32, u32)) -> (int, int) {
    (c.0 as int, c.1 as int)
}

/// There is a walk of at most `n` steps from `a` to `b`.
pub open spec fn within(w: int, h: int, cells: Seq<Cell>, a: (int, int), b: (int, int), n: int) -> bool {
    exists|p: Seq<(int, int)>| #[trigger] valid_path(w, h, cells, p) && p[0] == a && p.last() == b && p.len() <= n + 1
}

/// A walk within `n` steps is within any larger number of steps.
pub proof fn lemma_within_mono(w: int, h: int, cells: Seq<Cell>, a: (int, int), b: (int, int), n: int, m: int)
    requires
        within(w, h, cells, a, b, n),
        n <= m,
    ensures
        within(w, h, cells, a, b, m),
{
    let p = choose|p: Seq<(int, int)>| #[trigger] valid_path(w, h, cells, p) && p[0] == a && p.last() == b && p.len() <= n + 1;
    assert(valid_path(w, h, cells, p));
}

/// The last step of a walk of at most `n` steps to `c` (other than its start)
/// comes from a cell within `n - 1` steps.
proof fn lemma_within_pred(w: int, h: int, cells: Seq<Cell>, a: (int, int), c: (int, int), n: int) -> (p: (int, int))
    requires
        within(w, h, cells, a, c, n),
        c != a,
    ensures
        within(w, h, cells, a, p, n - 1),
        open_step(w, h, cells, p.0, p.1, c.0, c.1),
{
    let q = choose|q: Seq<(int, int)>| #[trigger] valid_path(w, h, cells, q) && q[0] == a && q.last() == c && q.len() <= n + 1;
    assert(q.len() > 1);
    let r = q.drop_last();
    assert forall|k: int| 0 <= k < r.len() - 1 implies #[trigger] open_step(w, h, cells, r[k].0, r[k].1, r[k + 1].0, r[k + 1].1) by {
        assert(open_step(w, h, cells, q[k].0, q[k].1, q[k + 1].0, q[k + 1].1));
    }
    assert(valid_path(w, h, cells, r));
    let k0 = q.len() - 2;
    assert(open_step(w, h, cells, q[k0].0, q[k0].1, q[k0 + 1].0, q[k0 + 1].1));
    q[k0]
}

/// A cell reached by a walk no longer than a shortest walk to another cell
/// is at least as near.
proof fn lemma_nearer(
    w: int,
    h: int,
    cells: Seq<Cell>,
    s: (int, int),
    p1: Seq<(int, int)>,
    b: (int, int),
    l2: int,
)
    requires
        valid_path(w, h, cells, p1),
        p1[0] == s,
        p1.len() <= l2,
        !within(w, h, cells, s, b, l2 - 2),
    ensures
        forall|n: int| #[trigger] within(w, h, cells, s, b, n) ==> within(w, h, cells, s, p1.last(), n),
{
    assert forall|n: int| #[trigger] within(w, h, cells, s, b, n) implies within(w, h, cells, s, p1.last(), n) by {
        if n < l2 - 1 {
            lemma_within_mono(w, h, cells, s, b, n, l2 - 2);
        }
        assert(valid_path(w, h, cells, p1));
    }
}

/// One breadth-first step: when every cell within `d` steps has been seen,
/// the frontier is ordered by path length, each path is a shortest walk, and
/// every frontier cell before `head` has had its neighbours seen, then every
/// cell within the level of `frontier[head]` has been seen.
proof fn lemma_bfs_advance(
    m: Maze,
    seen: Seq<bool>,
    frontier: Seq<(u32, u32)>,
    paths: Map<(int, int), Seq<(int, int)>>,
    s: (int, int),
    head: int,
    d: int,
)
    requires
        m.wf(),
        seen.len() == m.w as int * m.h as int,
        0 <= head < frontier.len(),
        paths[pt(frontier[head])].len() <= d + 2,
        forall|k: int|
            0 <= k < frontier.len() ==> in_grid(m.w as int, m.h as int, (#[trigger] frontier[k]).0 as int, frontier[k].1 as int)
                && seen[cell_at(m.w as int, frontier[k].0 as int, frontier[k].1 as int)],
        forall|x: int, y: int|
            in_grid(m.w as int, m.h as int, x, y) && #[trigger] seen[cell_at(m.w as int, x, y)] ==> exists|k: int|
                0 <= k < frontier.len() && pt(#[trigger] frontier[k]) == (x, y),
        forall|k1: int, k2: int|
            0 <= k1 <= k2 < frontier.len() ==> paths[pt(#[trigger] frontier[k1])].len() <= paths[pt(#[trigger] frontier[k2])].len(),
        forall|x: int, y: int|
            in_grid(m.w as int, m.h as int, x, y) && #[trigger] seen[cell_at(m.w as int, x, y)] ==> !within(
                m.w as int,
                m.h as int,
                m.cells@,
                s,
                (x, y),
                paths[(x, y)].len() - 2,
            ),
        forall|x: int, y: int, n: int|
            in_grid(m.w as int, m.h as int, x, y) && n <= d && #[trigger] within(m.w as int, m.h as int, m.cells@, s, (x, y), n)
                ==> seen[cell_at(m.w as int, x, y)],
        forall|k: int, j: int|
            0 <= k < head && 0 <= j < spec_open_neighbors(m, frontier[k].0 as int, frontier[k].1 as int).len()
                ==> #[trigger] seen[cell_at(
                m.w as int,
                spec_open_neighbors(m, frontier[k].0 as int, frontier[k].1 as int)[j].0 as int,
                spec_open_neighbors(m, frontier[k].0 as int, frontier[k].1 as int)[j].1 as int,
            )],
        seen[cell_at(m.w as int, s.0, s.1)],
        in_grid(m.w as int, m.h as int, s.0, s.1),
    ensures
        forall|x: int, y: int, n: int|
            in_grid(m.w as int, m.h as int, x, y) && n <= paths[pt(frontier[head])].len() - 1 && #[trigger] within(
                m.w as int,
                m.h as int,
                m.cells@,
                s,
                (x, y),
                n,
            ) ==> seen[cell_at(m.w as int, x, y)],
{
    let w = m.w as int;
    let h = m.h as int;
    let lh = paths[pt(frontier[head])].len() - 1;
    assert forall|x: int, y: int, n: int|
        in_grid(w, h, x, y) && n <= lh && #[trigger] within(w, h, m.cells@, s, (x, y), n) implies seen[cell_at(w, x, y)] by {
        if n <= d {
        } else if (x, y) == s {
        } else {
            let p = lemma_within_pred(w, h, m.cells@, s, (x, y), n);
            assert(in_grid(w, h, p.0, p.1));
            lemma_within_mono(w, h, m.cells@, s, p, n - 1, d);
            assert(seen[cell_at(w, p.0, p.1)]);
            let kp = choose|kp: int| 0 <= kp < frontier.len() && pt(#[trigger] frontier[kp]) == (p.0, p.1);
            assert(pt(frontier[kp]) == p);
            if paths[p].len() - 2 >= n - 1 {
                lemma_within_mono(w, h, m.cells@, s, p, n - 1, paths[p].len() - 2);
                assert(false);
            }
            if kp >= head {
                assert(paths[pt(frontier[head])].len() <= paths[pt(frontier[kp])].len());
                assert(false);
            }
            lemma_open_neighbors_steps(m, p.0, p.1);
            let ns = spec_open_neighbors(m, p.0, p.1);
            assert(ns.contains((x as u32, y as u32)));
            let j = choose|j: int| 0 <= j < ns.len() && ns[j] == (x as u32, y as u32);
            assert(frontier[kp].0 as int == p.0 && frontier[kp].1 as int == p.1);
            assert(seen[cell_at(w, ns[j].0 as int, ns[j].1 as int)]);
        }
    }
}

/// Breadth-first search from `start` through open walls, collecting unoccupied
/// cells other than `start` in the order they are found, until `needed` have
/// been found (at least one is returned once any is found, even when
/// `needed` is 0) or the reachable part of the maze is exhausted. The cells
/// come nearest first: each is at least as near to `start` as every later
/// one, and as every free reachable cell left out.
pub fn collect_reachable_cells(maze: &Maze, start: (u32, u32), needed: usize, occupied: &Vec<(u32, u32)>) -> (out: Vec<(u32, u32)>)
    requires
        maze.wf(),
        maze.w as int * maze.h as int <= u32::MAX,
        in_grid(maze.w as int, maze.h as int, start.0 as int, start.1 as int),
    ensures
        out@.len() <= if needed == 0 { 1 } else { needed as int },
        forall|k: int|
            0 <= k < out@.len() ==> #[trigger] out@[k] != start && !occupied@.contains(out@[k]) && in_grid(
                maze.w as int,
                maze.h as int,
                out@[k].0 as int,
                out@[k].1 as int,
            ) && connected(maze.w as int, maze.h as int, maze.cells@, pt(start), pt(out@[k])),
        forall|k1: int, k2: int| 0 <= k1 < k2 < out@.len() ==> #[trigger] out@[k1] != #[trigger] out@[k2],
        out@.len() < needed || out@.len() == 0 ==> forall|c: (u32, u32)|
            in_grid(maze.w as int, maze.h as int, c.0 as int, c.1 as int) && c != start && !occupied@.contains(c)
                && #[trigger] connected(maze.w as int, maze.h as int, maze.cells@, pt(start), pt(c)) ==> out@.contains(c),
        forall|k1: int, k2: int, n: int|
            0 <= k1 < k2 < out@.len() && #[trigger] within(maze.w as int, maze.h as int, maze.cells@, pt(start), pt(out@[k2]), n)
                ==> within(maze.w as int, maze.h as int, maze.cells@, pt(start), pt(#[trigger] out@[k1]), n),
        forall|k: int, c: (u32, u32), n: int|
            0 <= k < out@.len() && in_grid(maze.w as int, maze.h as int, c.0 as int, c.1 as int) && c != start
                && !occupied@.contains(c) && !out@.contains(c) && #[trigger] within(
                maze.w as int,
                maze.h as int,
                maze.cells@,
                pt(start),
                pt(c),
                n,
            ) ==> within(maze.w as int, maze.h as int, maze.cells@, pt(start), pt(#[trigger] out@[k]), n),
{
    let ghost gw = maze.w as int;
    let ghost gh = maze.h as int;
    let ghost cells = maze.cells@;
    let n: usize = (maze.w * maze.h) as usize;
    let mut seen: Vec<bool> = Vec::new();
    let mut i: usize = 0;
    while i < n
        invariant
            0 <= i <= n,
            seen@ == Seq::new(i as nat, |j: int| false),
        decreases n - i,
    {
        seen.push(false);
        i = i + 1;
        assert(seen@ =~= Seq::new(i as nat, |j: int| false));
    }
    proof {
        lemma_cell_at_bounds(gw, gh, start.0 as int, start.1 as int);
    }
    let si = (start.1 * maze.w + start.0) as usize;
    seen.set(si, true);
    let mut out: Vec<(u32, u32)> = Vec::new();
    let mut queue: VecDeque<(u32, u32)> = VecDeque::new();
    queue.push_back(start);
    let ghost mut frontier: Seq<(u32, u32)> = seq![start];
    let ghost mut head: int = 0;
    let ghost s = pt(start);
    let ghost mut paths: Map<(int, int), Seq<(int, int)>> = Map::empty().insert(s, seq![s]);
    proof {
        assert forall|x: int, y: int| in_grid(gw, gh, x, y) && #[trigger] seen@[cell_at(gw, x, y)] implies x == s.0 && y == s.1 by {
            lemma_cell_at_bounds(gw, gh, x, y);
            lemma_cell_at_order(gw, x, y, s.0, s.1);
        }
        assert(frontier[0] == start);
        assert forall|x: int, y: int| in_grid(gw, gh, x, y) && #[trigger] seen@[cell_at(gw, x, y)] implies !within(
            gw,
            gh,
            cells,
            s,
            (x, y),
            paths[(x, y)].len() - 2,
        ) by {
            assert(x == s.0 && y == s.1);
            assert(paths[(x, y)].len() == 1);
        }
        assert forall|x: int, y: int, n: int|
            in_grid(gw, gh, x, y) && n <= paths[pt(frontier[0])].len() - 1 && #[trigger] within(gw, gh, cells, s, (x, y), n)
                implies seen@[cell_at(gw, x, y)] by {
            assert(pt(frontier[0]) == s);
            let p = choose|p: Seq<(int, int)>| #[trigger] valid_path(gw, gh, cells, p) && p[0] == s && p.last() == (x, y) && p.len()
                <= n + 1;
            assert(p.len() == 1);
        }
    }
    while queue.len() > 0
        invariant
            queue@ == frontier.skip(head),
            maze.wf(),
            gw == maze.w as int,
            gh == maze.h as int,
            cells == maze.cells@,
            gw * gh <= u32::MAX,
            seen@.len() == gw * gh,
            in_grid(gw, gh, s.0, s.1),
            s == pt(start),
            seen@[cell_at(gw, s.0, s.1)],
            0 <= head <= frontier.len(),
            out@.len() == 0 || out@.len() < needed,
            forall|k: int|
                0 <= k < frontier.len() ==> in_grid(gw, gh, (#[trigger] frontier[k]).0 as int, frontier[k].1 as int)
                    && seen@[cell_at(gw, frontier[k].0 as int, frontier[k].1 as int)],
            forall|x: int, y: int|
                in_grid(gw, gh, x, y) && #[trigger] seen@[cell_at(gw, x, y)] ==> exists|k: int|
                    0 <= k < frontier.len() && pt(#[trigger] frontier[k]) == (x, y),
            forall|k: int, j: int|
                0 <= k < head && 0 <= j < spec_open_neighbors(*maze, frontier[k].0 as int, frontier[k].1 as int).len()
                    ==> #[trigger] seen@[cell_at(
                    gw,
                    spec_open_neighbors(*maze, frontier[k].0 as int, frontier[k].1 as int)[j].0 as int,
                    spec_open_neighbors(*maze, frontier[k].0 as int, frontier[k].1 as int)[j].1 as int,
                )],
            forall|x: int, y: int|
                in_grid(gw, gh, x, y) && #[trigger] seen@[cell_at(gw, x, y)] ==> paths.contains_key((x, y))
                    && valid_path(gw, gh, cells, paths[(x, y)]) && paths[(x, y)][0] == s && paths[(x, y)].last() == (x, y),
            forall|k: int|
                0 <= k < out@.len() ==> #[trigger] out@[k] != start && !occupied@.contains(out@[k]) && in_grid(
                    gw,
                    gh,
                    out@[k].0 as int,
                    out@[k].1 as int,
                ) && seen@[cell_at(gw, out@[k].0 as int, out@[k].1 as int)],
            forall|k1: int, k2: int| 0 <= k1 < k2 < out@.len() ==> #[trigger] out@[k1] != #[trigger] out@[k2],
            forall|c: (u32, u32)|
                in_grid(gw, gh, c.0 as int, c.1 as int) && c != start && !occupied@.contains(c) && #[trigger] seen@[cell_at(
                    gw,
                    c.0 as int,
                    c.1 as int,
                )] ==> out@.contains(c),
            forall|k1: int, k2: int|
                0 <= k1 <= k2 < frontier.len() ==> paths[pt(#[trigger] frontier[k1])].len() <= paths[pt(
                    #[trigger] frontier[k2],
                )].len(),
            forall|k: int|
                0 <= k < frontier.len() ==> paths[pt(#[trigger] frontier[k])].len() <= paths[pt(
                    frontier[if head > 0 { head - 1 } else { 0 }],
                )].len() + 1,
            forall|k: int|
                0 <= k < out@.len() ==> paths[pt(#[trigger] out@[k])].len() <= paths[pt(
                    frontier[if head > 0 { head - 1 } else { 0 }],
                )].len() + 1,
            forall|x: int, y: int|
                in_grid(gw, gh, x, y) && #[trigger] seen@[cell_at(gw, x, y)] ==> !within(
                    gw,
                    gh,
                    cells,
                    s,
                    (x, y),
                    paths[(x, y)].len() - 2,
                ),
            head < frontier.len() ==> forall|x: int, y: int, n: int|
                in_grid(gw, gh, x, y) && n <= paths[pt(frontier[head as int])].len() - 1 && #[trigger] within(
                    gw,
                    gh,
                    cells,
                    s,
                    (x, y),
                    n,
                ) ==> seen@[cell_at(gw, x, y)],
            forall|k1: int, k2: int|
                0 <= k1 <= k2 < out@.len() ==> paths[pt(#[trigger] out@[k1])].len() <= paths[pt(#[trigger] out@[k2])].len(),
        decreases count_false(seen@) + frontier.len() - head,
    {
        let cell = queue.pop_front().unwrap();
        proof {
            assert(cell == frontier[head]);
            head = head + 1;
            assert(queue@ =~= frontier.skip(head));
        }
        let nbrs = open_neighbors(maze, cell);
        proof {
            lemma_open_neighbors_steps(*maze, cell.0 as int, cell.1 as int);
        }
        let ghost count0 = count_false(seen@);
        let ghost flen0 = frontier.len();
        let mut j: usize = 0;
        while j < nbrs.len()
            invariant
                maze.wf(),
                gw == maze.w as int,
                gh == maze.h as int,
                cells == maze.cells@,
                gw * gh <= u32::MAX,
                seen@.len() == gw * gh,
                in_grid(gw, gh, s.0, s.1),
                s == pt(start),
                seen@[cell_at(gw, s.0, s.1)],
                0 < head <= frontier.len(),
                queue@ == frontier.skip(head),
                frontier[head - 1] == cell,
                nbrs@ == spec_open_neighbors(*maze, cell.0 as int, cell.1 as int),
                0 <= j <= nbrs@.len(),
                count_false(seen@) + frontier.len() == count0 + flen0,
                out@.len() == 0 || out@.len() < needed,
                forall|k: int|
                    0 <= k < frontier.len() ==> in_grid(gw, gh, (#[trigger] frontier[k]).0 as int, frontier[k].1 as int)
                        && seen@[cell_at(gw, frontier[k].0 as int, frontier[k].1 as int)],
                forall|x: int, y: int|
                    in_grid(gw, gh, x, y) && #[trigger] seen@[cell_at(gw, x, y)] ==> exists|k: int|
                        0 <= k < frontier.len() && pt(#[trigger] frontier[k]) == (x, y),
                forall|k: int, j2: int|
                    0 <= k < head - 1 && 0 <= j2 < spec_open_neighbors(*maze, frontier[k].0 as int, frontier[k].1 as int).len()
                        ==> #[trigger] seen@[cell_at(
                        gw,
                        spec_open_neighbors(*maze, frontier[k].0 as int, frontier[k].1 as int)[j2].0 as int,
                        spec_open_neighbors(*maze, frontier[k].0 as int, frontier[k].1 as int)[j2].1 as int,
                    )],
                forall|j2: int| 0 <= j2 < j ==> #[trigger] seen@[cell_at(gw, nbrs@[j2].0 as int, nbrs@[j2].1 as int)],
                forall|x: int, y: int|
                    in_grid(gw, gh, x, y) && #[trigger] seen@[cell_at(gw, x, y)] ==> paths.contains_key((x, y))
                        && valid_path(gw, gh, cells, paths[(x, y)]) && paths[(x, y)][0] == s && paths[(x, y)].last() == (x, y),
                forall|k: int|
                    0 <= k < out@.len() ==> #[trigger] out@[k] != start && !occupied@.contains(out@[k]) && in_grid(
                        gw,
                        gh,
                        out@[k].0 as int,
                        out@[k].1 as int,
                    ) && seen@[cell_at(gw, out@[k].0 as int, out@[k].1 as int)],
                forall|k1: int, k2: int| 0 <= k1 < k2 < out@.len() ==> #[trigger] out@[k1] != #[trigger] out@[k2],
                forall|c: (u32, u32)|
                    in_grid(gw, gh, c.0 as int, c.1 as int) && c != start && !occupied@.contains(c) && #[trigger] seen@[cell_at(
                        gw,
                        c.0 as int,
                        c.1 as int,
                    )] ==> out@.contains(c),
                forall|k1: int, k2: int|
                    0 <= k1 <= k2 < frontier.len() ==> paths[pt(#[trigger] frontier[k1])].len() <= paths[pt(
                        #[trigger] frontier[k2],
                    )].len(),
                forall|k: int| 0 <= k < frontier.len() ==> paths[pt(#[trigger] frontier[k])].len() <= paths[pt(cell)].len() + 1,
                forall|k: int| 0 <= k < out@.len() ==> paths[pt(#[trigger] out@[k])].len() <= paths[pt(cell)].len() + 1,
                forall|x: int, y: int|
                    in_grid(gw, gh, x, y) && #[trigger] seen@[cell_at(gw, x, y)] ==> !within(
                        gw,
                        gh,
                        cells,
                        s,
                        (x, y),
                        paths[(x, y)].len() - 2,
                    ),
                forall|x: int, y: int, n: int|
                    in_grid(gw, gh, x, y) && n <= paths[pt(cell)].len() - 1 && #[trigger] within(gw, gh, cells, s, (x, y), n)
                        ==> seen@[cell_at(gw, x, y)],
                forall|k1: int, k2: int|
                    0 <= k1 <= k2 < out@.len() ==> paths[pt(#[trigger] out@[k1])].len() <= paths[pt(#[trigger] out@[k2])].len(),
            decreases nbrs@.len() - j,
        {
            let nb = nbrs[j];
            assert(open_step(gw, gh, cells, cell.0 as int, cell.1 as int, nbrs@[j as int].0 as int, nbrs@[j as int].1 as int));
            proof {
                lemma_cell_at_bounds(gw, gh, nb.0 as int, nb.1 as int);
            }
            let ni = (nb.1 * maze.w + nb.0) as usize;
            if !seen[ni] {
                let ghost old_seen = seen@;
                let ghost old_frontier = frontier;
                let ghost old_out = out@;
                seen.set(ni, true);
                queue.push_back(nb);
                proof {
                    frontier = frontier.push(nb);
                    assert(queue@ =~= frontier.skip(head));
                    lemma_count_false_visit(old_seen, ni as int);
                    lemma_cell_at_bounds(gw, gh, s.0, s.1);
                    let pc = paths[pt(cell)];
                    let pn = pc.push(pt(nb));
                    assert(old_seen[cell_at(gw, cell.0 as int, cell.1 as int)]) by {
                        assert(old_frontier[head - 1] == cell);
                    }
                    assert forall|m: int| 0 <= m < pn.len() - 1 implies #[trigger] open_step(
                        gw,
                        gh,
                        cells,
                        pn[m].0,
                        pn[m].1,
                        pn[m + 1].0,
                        pn[m + 1].1,
                    ) by {
                        if m < pc.len() - 1 {
                            assert(open_step(gw, gh, cells, pc[m].0, pc[m].1, pc[m + 1].0, pc[m + 1].1));
                        }
                    }
                    assert(pt(cell) != pt(nb));
                    paths = paths.insert(pt(nb), pn);
                    assert forall|x: int, y: int| in_grid(gw, gh, x, y) && #[trigger] seen@[cell_at(gw, x, y)] implies (x
                        == nb.0 && y == nb.1) || old_seen[cell_at(gw, x, y)] by {
                        lemma_cell_at_bounds(gw, gh, x, y);
                        lemma_cell_at_order(gw, x, y, nb.0 as int, nb.1 as int);
                    }
                    assert forall|x: int, y: int| in_grid(gw, gh, x, y) && #[trigger] seen@[cell_at(gw, x, y)] implies exists|k: int|
                        0 <= k < frontier.len() && pt(#[trigger] frontier[k]) == (x, y) by {
                        if x == nb.0 && y == nb.1 {
                            assert(pt(frontier[frontier.len() - 1]) == (x, y));
                        } else {
                            assert(old_seen[cell_at(gw, x, y)]);
                            let k = choose|k: int| 0 <= k < old_frontier.len() && pt(#[trigger] old_frontier[k]) == (x, y);
                            assert(frontier[k] == old_frontier[k]);
                        }
                    }
                    assert forall|k: int|
                        0 <= k < frontier.len() implies in_grid(gw, gh, (#[trigger] frontier[k]).0 as int, frontier[k].1 as int)
                        && seen@[cell_at(gw, frontier[k].0 as int, frontier[k].1 as int)] by {
                        if k < old_frontier.len() {
                            assert(frontier[k] == old_frontier[k]);
                            lemma_cell_at_bounds(gw, gh, old_frontier[k].0 as int, old_frontier[k].1 as int);
                        }
                    }
                    assert forall|k: int| 0 <= k < out@.len() implies seen@[cell_at(gw, (#[trigger] out@[k]).0 as int, out@[k].1 as int)] by {
                        lemma_cell_at_bounds(gw, gh, out@[k].0 as int, out@[k].1 as int);
                    }
                    assert forall|k: int, j2: int|
                        0 <= k < head - 1 && 0 <= j2 < spec_open_neighbors(*maze, frontier[k].0 as int, frontier[k].1 as int).len()
                            implies #[trigger] seen@[cell_at(
                            gw,
                            spec_open_neighbors(*maze, frontier[k].0 as int, frontier[k].1 as int)[j2].0 as int,
                            spec_open_neighbors(*maze, frontier[k].0 as int, frontier[k].1 as int)[j2].1 as int,
                        )] by {
                        assert(frontier[k] == old_frontier[k]);
                        let f = old_frontier[k];
                        lemma_cell_at_bounds(gw, gh, f.0 as int, f.1 as int);
                        lemma_open_neighbors_steps(*maze, f.0 as int, f.1 as int);
                        let e = spec_open_neighbors(*maze, f.0 as int, f.1 as int)[j2];
                        assert(open_step(gw, gh, cells, f.0 as int, f.1 as int, e.0 as int, e.1 as int));
                        lemma_cell_at_bounds(gw, gh, e.0 as int, e.1 as int);
                    }
                    assert forall|j2: int| 0 <= j2 < j + 1 implies #[trigger] seen@[cell_at(gw, nbrs@[j2].0 as int, nbrs@[j2].1 as int)] by {
                        assert(open_step(gw, gh, cells, cell.0 as int, cell.1 as int, nbrs@[j2].0 as int, nbrs@[j2].1 as int));
                        lemma_cell_at_bounds(gw, gh, nbrs@[j2].0 as int, nbrs@[j2].1 as int);
                    }
                    assert forall|x: int, y: int, n: int|
                        in_grid(gw, gh, x, y) && n <= paths[pt(cell)].len() - 1 && #[trigger] within(gw, gh, cells, s, (x, y), n)
                            implies seen@[cell_at(gw, x, y)] by {
                        lemma_cell_at_bounds(gw, gh, x, y);
                        assert(old_seen[cell_at(gw, x, y)]);
                    }
                }
                if !contains_cell(occupied, nb) {
                    out.push(nb);
                    proof {
                        assert(out@[out@.len() - 1] == nb);
                        assert forall|k1: int, k2: int| 0 <= k1 < k2 < out@.len() implies #[trigger] out@[k1] != #[trigger] out@[k2] by {
                            if k2 == out@.len() - 1 {
                                assert(out@[k1] == old_out[k1]);
                                assert(old_seen[cell_at(gw, old_out[k1].0 as int, old_out[k1].1 as int)]);
                            } else {
                                assert(out@[k1] == old_out[k1]);
                                assert(out@[k2] == old_out[k2]);
                            }
                        }
                        assert forall|c: (u32, u32)|
                            in_grid(gw, gh, c.0 as int, c.1 as int) && c != start && !occupied@.contains(c) && #[trigger] seen@[cell_at(
                                gw,
                                c.0 as int,
                                c.1 as int,
                            )] implies out@.contains(c) by {
                            if c == nb {
                                assert(out@[out@.len() - 1] == c);
                            } else {
                                assert(old_seen[cell_at(gw, c.0 as int, c.1 as int)]);
                                assert(old_out.contains(c));
                                let k = choose|k: int| 0 <= k < old_out.len() && old_out[k] == c;
                                assert(out@[k] == c);
                            }
                        }
                    }
                    if out.len() >= needed {
                        proof {
                            assert forall|k: int| 0 <= k < out@.len() implies connected(gw, gh, cells, pt(start), pt(#[trigger] out@[k])) by {
                                let c = out@[k];
                                assert(seen@[cell_at(gw, c.0 as int, c.1 as int)]);
                                assert(valid_path(gw, gh, cells, paths[pt(c)]));
                            }
                            assert forall|k: int, c: (u32, u32), n: int|
                                0 <= k < out@.len() && in_grid(gw, gh, c.0 as int, c.1 as int) && c != start && !occupied@.contains(c)
                                    && !out@.contains(c) && #[trigger] within(gw, gh, cells, pt(start), pt(c), n) implies within(
                                gw,
                                gh,
                                cells,
                                pt(start),
                                pt(#[trigger] out@[k]),
                                n,
                            ) by {
                                assert(!seen@[cell_at(gw, c.0 as int, c.1 as int)]);
                                assert(within(gw, gh, cells, s, (c.0 as int, c.1 as int), n));
                                let o = out@[k];
                                assert(seen@[cell_at(gw, o.0 as int, o.1 as int)]);
                                let po = paths[pt(o)];
                                assert(valid_path(gw, gh, cells, po) && po[0] == s && po.last() == pt(o));
                                assert(po.len() <= n + 1);
                            }
                            assert forall|k1: int, k2: int, n: int|
                                0 <= k1 < k2 < out@.len() && #[trigger] within(gw, gh, cells, pt(start), pt(out@[k2]), n) implies within(
                                gw,
                                gh,
                                cells,
                                pt(start),
                                pt(#[trigger] out@[k1]),
                                n,
                            ) by {
                                let o1 = out@[k1];
                                let o2 = out@[k2];
                                assert(seen@[cell_at(gw, o1.0 as int, o1.1 as int)]);
                                assert(seen@[cell_at(gw, o2.0 as int, o2.1 as int)]);
                                lemma_nearer(gw, gh, cells, s, paths[pt(o1)], pt(o2), paths[pt(o2)].len() as int);
                            }
                        }
                        return out;
                    }
                } else {
                    proof {
                        assert forall|c: (u32, u32)|
                            in_grid(gw, gh, c.0 as int, c.1 as int) && c != start && !occupied@.contains(c) && #[trigger] seen@[cell_at(
                                gw,
                                c.0 as int,
                                c.1 as int,
                            )] implies out@.contains(c) by {
                            if c != nb {
                                assert(old_seen[cell_at(gw, c.0 as int, c.1 as int)]);
                            }
                        }
                    }
                }
            }
            j = j + 1;
        }
        proof {
            if head < frontier.len() {
                assert forall|k: int, j2: int|
                    0 <= k < head && 0 <= j2 < spec_open_neighbors(*maze, frontier[k].0 as int, frontier[k].1 as int).len()
                        implies #[trigger] seen@[cell_at(
                        gw,
                        spec_open_neighbors(*maze, frontier[k].0 as int, frontier[k].1 as int)[j2].0 as int,
                        spec_open_neighbors(*maze, frontier[k].0 as int, frontier[k].1 as int)[j2].1 as int,
                    )] by {
                    if k == head - 1 {
                        assert(seen@[cell_at(gw, nbrs@[j2].0 as int, nbrs@[j2].1 as int)]);
                    }
                }
                lemma_bfs_advance(*maze, seen@, frontier, paths, s, head as int, paths[pt(cell)].len() - 1);
            }
        }
    }
    proof {
        assert forall|k: int| 0 <= k < out@.len() implies connected(gw, gh, cells, pt(start), pt(#[trigger] out@[k])) by {
            let c = out@[k];
            assert(seen@[cell_at(gw, c.0 as int, c.1 as int)]);
            assert(valid_path(gw, gh, cells, paths[pt(c)]));
        }
        assert forall|c: (u32, u32)|
            in_grid(gw, gh, c.0 as int, c.1 as int) && c != start && !occupied@.contains(c)
                && #[trigger] connected(gw, gh, cells, pt(start), pt(c)) implies out@.contains(c) by {
            let p = choose|p: Seq<(int, int)>| #[trigger] valid_path(gw, gh, cells, p) && p[0] == pt(start) && p.last() == pt(c);
            lemma_bfs_closed_path(*maze, seen@, frontier, p);
        }
        assert forall|k: int, c: (u32, u32), n: int|
            0 <= k < out@.len() && in_grid(gw, gh, c.0 as int, c.1 as int) && c != start && !occupied@.contains(c)
                && !out@.contains(c) && #[trigger] within(gw, gh, cells, pt(start), pt(c), n) implies within(
            gw,
            gh,
            cells,
            pt(start),
            pt(#[trigger] out@[k]),
            n,
        ) by {
            let p = choose|p: Seq<(int, int)>| #[trigger] valid_path(gw, gh, cells, p) && p[0] == pt(start) && p.last() == pt(c)
                && p.len() <= n + 1;
            assert(connected(gw, gh, cells, pt(start), pt(c)));
        }
        assert forall|k1: int, k2: int, n: int|
            0 <= k1 < k2 < out@.len() && #[trigger] within(gw, gh, cells, pt(start), pt(out@[k2]), n) implies within(
            gw,
            gh,
            cells,
            pt(start),
            pt(#[trigger] out@[k1]),
            n,
        ) by {
            let o1 = out@[k1];
            let o2 = out@[k2];
            assert(seen@[cell_at(gw, o1.0 as int, o1.1 as int)]);
            assert(seen@[cell_at(gw, o2.0 as int, o2.1 as int)]);
            lemma_nearer(gw, gh, cells, s, paths[pt(o1)], pt(o2), paths[pt(o2)].len() as int);
        }
    }
    out
}

/// Every cell of a walk from a seen cell is seen, when every seen cell has
/// had all its open neighbours seen.
proof fn lemma_bfs_closed_path(m: Maze, seen: Seq<bool>, frontier: Seq<(u32, u32)>, p: Seq<(int, int)>)
    requires
        m.wf(),
        seen.len() == m.w as int * m.h as int,
        valid_path(m.w as int, m.h as int, m.cells@, p),
        seen[cell_at(m.w as int, p[0].0, p[0].1)],
        forall|x: int, y: int|
            in_grid(m.w as int, m.h as int, x, y) && #[trigger] seen[cell_at(m.w as int, x, y)] ==> exists|k: int|
                0 <= k < frontier.len() && pt(#[trigger] frontier[k]) == (x, y),
        forall|k: int, j: int|
            0 <= k < frontier.len() && 0 <= j < spec_open_neighbors(m, frontier[k].0 as int, frontier[k].1 as int).len()
                ==> #[trigger] seen[cell_at(
                m.w as int,
                spec_open_neighbors(m, frontier[k].0 as int, frontier[k].1 as int)[j].0 as int,
                spec_open_neighbors(m, frontier[k].0 as int, frontier[k].1 as int)[j].1 as int,
            )],
    ensures
        seen[cell_at(m.w as int, p.last().0, p.last().1)],
    decreases p.len(),
{
    let w = m.w as int;
    let h = m.h as int;
    if p.len() > 1 {
        let q = p.drop_last();
        assert forall|k: int| 0 <= k < q.len() - 1 implies #[trigger] open_step(w, h, m.cells@, q[k].0, q[k].1, q[k + 1].0, q[k + 1].1) by {
            assert(open_step(w, h, m.cells@, p[k].0, p[k].1, p[k + 1].0, p[k + 1].1));
        }
        lemma_bfs_closed_path(m, seen, frontier, q);
        let a = p[p.len() - 2];
        let b = p.last();
        let k0 = p.len() - 2;
        assert(open_step(w, h, m.cells@, p[k0].0, p[k0].1, p[k0 + 1].0, p[k0 + 1].1));
        let k = choose|k: int| 0 <= k < frontier.len() && pt(#[trigger] frontier[k]) == (a.0, a.1);
        lemma_open_neighbors_steps(m, a.0, a.1);
        let ns = spec_open_neighbors(m, a.0, a.1);
        assert(ns.contains((b.0 as u32, b.1 as u32)));
        let j = choose|j: int| 0 <= j < ns.len() && ns[j] == (b.0 as u32, b.1 as u32);
        assert(frontier[k].0 as int == a.0 && frontier[k].1 as int == a.1);
        assert(seen[cell_at(w, ns[j].0 as int, ns[j].1 as int)]);
    }
}

} // verus!

verus! {

/// The cells of `cells` that `occupied` does not hold, in order.
pub open spec fn open_cells(cells: Seq<(u32, u32)>, occupied: Seq<(u32, u32)>) -> Seq<(u32, u32)>
    decreases cells.len(),
{
    if cells.len() == 0 {
        Seq::empty()
    } else {
        let rest = open_cells(cells.drop_last(), occupied);
        if occupied.contains(cells.last()) {
            rest
        } else {
            rest.push(cells.last())
        }
    }
}

/// Picks a random cell of `cells` that is not occupied, or `None` when all
/// are: one index into the open cells, in their order.
pub fn take_random_open_cell(rng: &mut Dice, cells: &Vec<(u32, u32)>, occupied: &Vec<(u32, u32)>) -> (r: Option<(u32, u32)>)
    ensures
        r is None <==> forall|k: int| 0 <= k < cells@.len() ==> occupied@.contains(#[trigger] cells@[k]),
        r matches Some(c) ==> cells@.contains(c) && !occupied@.contains(c),
        extends(old(rng).draws(), final(rng).draws()),
        ({
            let open = open_cells(cells@, occupied@);
            let d = draws_since(old(rng).draws(), final(rng).draws());
            if open.len() == 0 {
                d.len() == 0 && r is None
            } else {
                &&& d.len() == 1
                &&& usize_draw(d[0], 0, open.len() as usize)
                &&& r == Some(open[draw_value(d[0])])
            }
        }),
{
    let ghost d0 = rng.draws();
    let mut available: Vec<(u32, u32)> = Vec::new();
    let mut i: usize = 0;
    while i < cells.len()
        invariant
            0 <= i <= cells@.len(),
            forall|k: int| 0 <= k < available@.len() ==> cells@.contains(#[trigger] available@[k]) && !occupied@.contains(available@[k]),
            available@.len() == 0 ==> forall|k: int| 0 <= k < i ==> occupied@.contains(#[trigger] cells@[k]),
            available@ == open_cells(cells@.take(i as int), occupied@),
        decreases cells@.len() - i,
    {
        let c = cells[i];
        assert(cells@.take(i as int + 1).drop_last() =~= cells@.take(i as int));
        if !contains_cell(occupied, c) {
            available.push(c);
            assert(available@[available@.len() - 1] == cells@[i as int]);
        }
        i = i + 1;
    }
    assert(cells@.take(cells@.len() as int) =~= cells@);
    if available.len() == 0 {
        proof {
            lemma_since_append(d0, Seq::empty());
            assert(d0 + Seq::<Draw>::empty() =~= d0);
        }
        None
    } else {
        let k = rng.range_usize(0, available.len());
        proof {
            assert(rng.draws() == d0 + seq![Draw::Usize(0, available@.len() as usize, k)]);
            lemma_since_append(d0, seq![Draw::Usize(0, available@.len() as usize, k)]);
        }
        assert(cells@.contains(available@[k as int]));
        Some(available[k])
    }
}

/// Cells where skeletons may be placed at random: away from the start corner
/// (x <= 2 and y <= 2) and from the exit corners on the east border.
pub open spec fn is_spawn_candidate(w: int, h: int, x: int, y: int) -> bool {
    let start_safe = x <= 2 && y <= 2;
    let east = if w >= 2 { w - 2 } else { 0 };
    let south = if h >= 2 { h - 2 } else { 0 };
    let edge_exit = x >= east && (y == 0 || y >= south);
    in_grid(w, h, x, y) && !start_safe && !edge_exit
}

/// The escorts that surround the king, in placement order.
pub open spec fn entourage() -> Seq<SkeletonVariant> {
    seq![
        SkeletonVariant::Guard, SkeletonVariant::Guard, SkeletonVariant::Archer, SkeletonVariant::Knight,
        SkeletonVariant::Knight, SkeletonVariant::Knight,
    ]
}

/// A placement of skeletons: the king on a candidate cell first, then its
/// escorts, then the skeletons placed at random; no two on the same cell.
pub open spec fn valid_encounter_plan(m: Maze, plan: Seq<((u32, u32), SkeletonVariant)>) -> bool {
    let w = m.w as int;
    let h = m.h as int;
    &&& 1 <= plan.len() <= 35
    &&& plan[0].1 == SkeletonVariant::King
    &&& is_spawn_candidate(w, h, plan[0].0.0 as int, plan[0].0.1 as int)
    &&& forall|i: int| 0 <= i < plan.len() ==> in_grid(w, h, (#[trigger] plan[i]).0.0 as int, plan[i].0.1 as int)
    &&& forall|i: int, j: int| 0 <= i < j < plan.len() ==> (#[trigger] plan[i]).0 != (#[trigger] plan[j]).0
    &&& exists|e: int| 0 <= e <= 6 && #[trigger] escorts_then_others(m, plan, e)
}

/// The kind of the `j`-th skeleton placed at random: 6 archers, then 8
/// knights, 6 sword-and-shield, 4 guards and 4 mages.
pub open spec fn ambient_kind(j: int) -> SkeletonVariant {
    if j < 6 {
        SkeletonVariant::Archer
    } else if j < 14 {
        SkeletonVariant::Knight
    } else if j < 20 {
        SkeletonVariant::SwordShield
    } else if j < 24 {
        SkeletonVariant::Guard
    } else {
        SkeletonVariant::Mage
    }
}

/// Some skeleton of the plan stands on `c`.
pub open spec fn plan_holds(plan: Seq<((u32, u32), SkeletonVariant)>, c: (u32, u32)) -> bool {
    exists|k: int| 0 <= k < plan.len() && (#[trigger] plan[k]).0 == c
}

/// One of the escorts (entries 1..=`e`) stands on `c`.
pub open spec fn escort_holds(plan: Seq<((u32, u32), SkeletonVariant)>, e: int, c: (u32, u32)) -> bool {
    exists|k: int| 1 <= k <= e && k < plan.len() && (#[trigger] plan[k]).0 == c
}

/// Entries 1..=`e` are the escorts: reachable from the king, with the
/// entourage's kinds, nearest to the king first and no farther than any
/// cell left free, and fewer than six only when no other cell is reachable
/// from the king. The later entries are the skeletons placed at
/// random, on candidate cells, with the kinds of `ambient_kind` in order; all
/// 28 of them unless every candidate cell is taken.
pub open spec fn escorts_then_others(m: Maze, plan: Seq<((u32, u32), SkeletonVariant)>, e: int) -> bool {
    let w = m.w as int;
    let h = m.h as int;
    &&& forall|i: int|
        1 <= i <= e && i < plan.len() ==> (#[trigger] plan[i]).1 == entourage()[i - 1] && connected(
            w,
            h,
            m.cells@,
            pt(plan[0].0),
            pt(plan[i].0),
        )
    &&& e < 6 ==> forall|x: int, y: int|
        in_grid(w, h, x, y) && (x as u32, y as u32) != plan[0].0 && #[trigger] connected(w, h, m.cells@, pt(plan[0].0), (x, y))
            ==> escort_holds(plan, e, (x as u32, y as u32))
    &&& forall|i1: int, i2: int, n: int|
        1 <= i1 < i2 <= e && i2 < plan.len() && #[trigger] within(w, h, m.cells@, pt(plan[0].0), pt(plan[i2].0), n) ==> within(
            w,
            h,
            m.cells@,
            pt(plan[0].0),
            pt(#[trigger] plan[i1].0),
            n,
        )
    &&& forall|i: int, x: int, y: int, n: int|
        1 <= i <= e && i < plan.len() && in_grid(w, h, x, y) && (x as u32, y as u32) != plan[0].0 && !escort_holds(
            plan,
            e,
            (x as u32, y as u32),
        ) && #[trigger] within(w, h, m.cells@, pt(plan[0].0), (x, y), n) ==> within(
            w,
            h,
            m.cells@,
            pt(plan[0].0),
            pt(#[trigger] plan[i].0),
            n,
        )
    &&& e + 1 <= plan.len() <= e + 29
    &&& forall|i: int|
        e < i < plan.len() ==> (#[trigger] plan[i]).1 == ambient_kind(i - e - 1) && is_spawn_candidate(
            w,
            h,
            plan[i].0.0 as int,
            plan[i].0.1 as int,
        )
    &&& plan.len() < e + 29 ==> forall|x: int, y: int|
        #[trigger] is_spawn_candidate(w, h, x, y) ==> plan_holds(plan, (x as u32, y as u32))
}

/// The kinds placed at random after the escorts, with how many of each.
pub open spec fn ambient_spawns() -> Seq<(SkeletonVariant, usize)> {
    seq![
        (SkeletonVariant::Archer, 6usize), (SkeletonVariant::Knight, 8usize), (SkeletonVariant::SwordShield, 6usize),
        (SkeletonVariant::Guard, 4usize), (SkeletonVariant::Mage, 4usize),
    ]
}

/// How many skeletons the first `a` kinds of `ambient_spawns` add at most.
pub open spec fn ambient_total(a: int) -> int {
    if a <= 0 {
        0
    } else if a == 1 {
        6
    } else if a == 2 {
        14
    } else if a == 3 {
        20
    } else if a == 4 {
        24
    } else {
        28
    }
}

proof fn lemma_ambient_kind_in_group(a: int, c: int)
    requires
        0 <= a < 5,
        0 <= c < ambient_spawns()[a].1,
    ensures
        ambient_kind(ambient_total(a) + c) == ambient_spawns()[a].0,
        ambient_total(a + 1) == ambient_total(a) + ambient_spawns()[a].1,
{
}

/// Some cell of the maze is a spawn candidate.
pub open spec fn has_spawn_candidate(w: int, h: int) -> bool {
    exists|x: int, y: int| #[trigger] is_spawn_candidate(w, h, x, y)
}

/// Whether a `w` x `h` maze has a cell where a skeleton may be placed (the
/// level cannot be populated otherwise).
pub fn spawn_candidates_exist(w: u32, h: u32) -> (b: bool)
    ensures
        b == has_spawn_candidate(w as int, h as int),
{
    let east = w.saturating_sub(2);
    let south = h.saturating_sub(2);
    let mut y: u32 = 0;
    while y < h
        invariant
            y <= h,
            east == (if w >= 2 { w - 2 } else { 0 }),
            south == (if h >= 2 { h - 2 } else { 0 }),
            forall|x2: int, y2: int| 0 <= y2 < y ==> !#[trigger] is_spawn_candidate(w as int, h as int, x2, y2),
        decreases h - y,
    {
        let mut x: u32 = 0;
        while x < w
            invariant
                x <= w,
                y < h,
                east == (if w >= 2 { w - 2 } else { 0 }),
                south == (if h >= 2 { h - 2 } else { 0 }),
                forall|x2: int| 0 <= x2 < x ==> !#[trigger] is_spawn_candidate(w as int, h as int, x2, y as int),
            decreases w - x,
        {
            let start_safe = x <= 2 && y <= 2;
            let edge_exit = x >= east && (y == 0 || y >= south);
            if !start_safe && !edge_exit {
                assert(is_spawn_candidate(w as int, h as int, x as int, y as int));
                return true;
            }
            x = x + 1;
        }
        assert forall|x2: int, y2: int| 0 <= y2 < y + 1 implies !#[trigger] is_spawn_candidate(w as int, h as int, x2, y2) by {
            if y2 == y && 0 <= x2 < w {
                assert(!is_spawn_candidate(w as int, h as int, x2, y as int));
            }
        }
        y = y + 1;
    }
    false
}

/// How many coins a pile of `amount` gold shows: one per 14 gold, rounded
/// up, between 1 and 6.
pub open spec fn spec_coin_count(amount: int) -> int {
    if amount <= 14 {
        1
    } else if amount > 70 {
        6
    } else {
        (amount + 13) / 14
    }
}

/// The number of coins drawn for a pile of `amount` gold.
pub fn gold_coin_count(amount: i32) -> (n: usize)
    ensures
        n == spec_coin_count(amount as int),
        1 <= n <= 6,
{
    if amount <= 14 {
        1
    } else if amount > 70 {
        6
    } else {
        ((amount + 13) / 14) as usize
    }
}

/// Places the skeletons of a level: the king on a random candidate cell,
/// its escorts on the nearest free cells reachable from it, then 6 archers,
/// 8 knights, 6 sword-and-shield, 4 guards and 4 mages on random free
/// candidate cells (as long as any are left).
pub fn plan_skeleton_encounters(maze: &Maze, rng: &mut Dice) -> (plan: Vec<((u32, u32), SkeletonVariant)>)
    requires
        maze.wf(),
        maze.w as int * maze.h as int <= u32::MAX,
        has_spawn_candidate(maze.w as int, maze.h as int),
    ensures
        valid_encounter_plan(*maze, plan@),
{
    let ghost gw = maze.w as int;
    let ghost gh = maze.h as int;
    let mut cells: Vec<(u32, u32)> = Vec::new();
    let east = maze.w.saturating_sub(2);
    let south = maze.h.saturating_sub(2);
    let mut y: u32 = 0;
    while y < maze.h
        invariant
            gw == maze.w as int,
            gh == maze.h as int,
            east == if gw >= 2 { gw - 2 } else { 0 },
            south == if gh >= 2 { gh - 2 } else { 0 },
            0 <= y <= gh,
            forall|k: int| 0 <= k < cells@.len() ==> is_spawn_candidate(gw, gh, (#[trigger] cells@[k]).0 as int, cells@[k].1 as int),
            forall|x2: int, y2: int| 0 <= y2 < y && #[trigger] is_spawn_candidate(gw, gh, x2, y2) ==> cells@.contains((x2 as u32, y2 as u32)),
        decreases gh - y,
    {
        let mut x: u32 = 0;
        while x < maze.w
            invariant
                gw == maze.w as int,
                gh == maze.h as int,
                east == if gw >= 2 { gw - 2 } else { 0 },
                south == if gh >= 2 { gh - 2 } else { 0 },
                0 <= y < gh,
                0 <= x <= gw,
                forall|k: int| 0 <= k < cells@.len() ==> is_spawn_candidate(gw, gh, (#[trigger] cells@[k]).0 as int, cells@[k].1 as int),
                forall|x2: int, y2: int| 0 <= y2 < y && #[trigger] is_spawn_candidate(gw, gh, x2, y2) ==> cells@.contains((x2 as u32, y2 as u32)),
                forall|x2: int| 0 <= x2 < x && #[trigger] is_spawn_candidate(gw, gh, x2, y as int) ==> cells@.contains((x2 as u32, y)),
            decreases gw - x,
        {
            let start_safe = x <= 2 && y <= 2;
            let edge_exit = x >= east && (y == 0 || y >= south);
            if !start_safe && !edge_exit {
                let ghost before = cells@;
                cells.push((x, y));
                proof {
                    assert(cells@[cells@.len() - 1] == (x, y));
                    assert forall|x2: int, y2: int| 0 <= y2 < y && #[trigger] is_spawn_candidate(gw, gh, x2, y2) implies cells@.contains(
                        (x2 as u32, y2 as u32),
                    ) by {
                        let k = choose|k: int| 0 <= k < before.len() && before[k] == (x2 as u32, y2 as u32);
                        assert(cells@[k] == before[k]);
                    }
                    assert forall|x2: int| 0 <= x2 < x + 1 && #[trigger] is_spawn_candidate(gw, gh, x2, y as int) implies cells@.contains(
                        (x2 as u32, y),
                    ) by {
                        if x2 < x {
                            let k = choose|k: int| 0 <= k < before.len() && before[k] == (x2 as u32, y);
                            assert(cells@[k] == before[k]);
                        }
                    }
                }
            }
            x = x + 1;
        }
        y = y + 1;
    }
    proof {
        let (cx, cy) = choose|x: int, y: int| #[trigger] is_spawn_candidate(gw, gh, x, y);
        assert(cells@.contains((cx as u32, cy as u32)));
    }
    let king_index = rng.range_usize(0, cells.len());
    let ghost all_cells = cells@;
    let king_cell = cells.swap_remove(king_index);
    let mut occupied: Vec<(u32, u32)> = Vec::new();
    occupied.push(king_cell);
    let mut plan: Vec<((u32, u32), SkeletonVariant)> = Vec::new();
    plan.push((king_cell, SkeletonVariant::King));
    proof {
        assert forall|x: int, y: int| #[trigger] is_spawn_candidate(gw, gh, x, y) implies cells@.contains((x as u32, y as u32))
            || (x as u32, y as u32) == king_cell by {
            assert(all_cells.contains((x as u32, y as u32)));
            let k = choose|k: int| 0 <= k < all_cells.len() && all_cells[k] == (x as u32, y as u32);
            if k == king_index as int {
            } else if k == all_cells.len() - 1 {
                assert(cells@[king_index as int] == all_cells[k]);
            } else {
                assert(cells@[k] == all_cells[k]);
            }
        }
        assert(is_spawn_candidate(gw, gh, all_cells[king_index as int].0 as int, all_cells[king_index as int].1 as int));
        assert forall|k: int| 0 <= k < cells@.len() implies is_spawn_candidate(gw, gh, (#[trigger] cells@[k]).0 as int, cells@[k].1 as int) by {
            if k == king_index {
                assert(cells@[k] == all_cells.last());
                assert(is_spawn_candidate(gw, gh, all_cells[all_cells.len() - 1].0 as int, all_cells[all_cells.len() - 1].1 as int));
            } else {
                assert(cells@[k] == all_cells[k]);
            }
        }
    }

    let escorts = collect_reachable_cells(maze, king_cell, 6, &occupied);
    let ghost occ0 = occupied@;
    let entourage_arr = [
        SkeletonVariant::Guard, SkeletonVariant::Guard, SkeletonVariant::Archer, SkeletonVariant::Knight,
        SkeletonVariant::Knight, SkeletonVariant::Knight,
    ];
    assert(entourage_arr@ == entourage());
    let ghost e = escorts@.len() as int;
    let mut i: usize = 0;
    while i < escorts.len()
        invariant
            maze.wf(),
            gw == maze.w as int,
            gh == maze.h as int,
            e == escorts@.len(),
            e <= 6,
            0 <= i <= e,
            entourage_arr@ == entourage(),
            plan@.len() == i + 1,
            occupied@.len() == plan@.len(),
            forall|k: int| 0 <= k < plan@.len() ==> #[trigger] occupied@[k] == plan@[k].0,
            plan@[0] == (king_cell, SkeletonVariant::King),
            is_spawn_candidate(gw, gh, king_cell.0 as int, king_cell.1 as int),
            forall|k: int| 0 <= k < escorts@.len() ==> #[trigger] escorts@[k] != king_cell && in_grid(gw, gh, escorts@[k].0 as int, escorts@[k].1 as int)
                && connected(gw, gh, maze.cells@, pt(king_cell), pt(escorts@[k])),
            forall|k1: int, k2: int| 0 <= k1 < k2 < escorts@.len() ==> #[trigger] escorts@[k1] != #[trigger] escorts@[k2],
            forall|k: int| 1 <= k < plan@.len() ==> #[trigger] plan@[k] == (escorts@[k - 1], entourage()[k - 1]),
        decreases e - i,
    {
        let cell = escorts[i];
        occupied.push(cell);
        plan.push((cell, entourage_arr[i]));
        i = i + 1;
    }

    let ambient = [
        (SkeletonVariant::Archer, 6usize),
        (SkeletonVariant::Knight, 8usize),
        (SkeletonVariant::SwordShield, 6usize),
        (SkeletonVariant::Guard, 4usize),
        (SkeletonVariant::Mage, 4usize),
    ];
    let ghost escort_end = plan@.len();
    assert(ambient@ == ambient_spawns());
    proof {
        assert forall|i1: int, j1: int| 0 <= i1 < j1 < plan@.len() implies (#[trigger] plan@[i1]).0 != (#[trigger] plan@[j1]).0 by {
            if i1 > 0 {
                assert(plan@[i1] == (escorts@[i1 - 1], entourage()[i1 - 1]));
            }
            assert(plan@[j1] == (escorts@[j1 - 1], entourage()[j1 - 1]));
        }
        assert forall|k: int| 0 <= k < plan@.len() implies in_grid(gw, gh, (#[trigger] plan@[k]).0.0 as int, plan@[k].0.1 as int) by {
            if k > 0 {
                assert(plan@[k] == (escorts@[k - 1], entourage()[k - 1]));
            }
        }
    }
    let ghost mut g: int = 0;
    let mut a: usize = 0;
    while a < 5
        invariant
            gw == maze.w as int,
            gh == maze.h as int,
            0 <= a <= 5,
            g == ambient_total(a as int),
            plan@.len() - escort_end <= g,
            forall|k: int| escort_end <= k < plan@.len() ==> (#[trigger] plan@[k]).1 == ambient_kind(k - escort_end),
            plan@.len() - escort_end < g ==> forall|x: int, y: int|
                #[trigger] is_spawn_candidate(gw, gh, x, y) ==> plan_holds(plan@, (x as u32, y as u32)),
            forall|x: int, y: int| #[trigger] is_spawn_candidate(gw, gh, x, y) ==> cells@.contains((x as u32, y as u32))
                || (x as u32, y as u32) == king_cell,
            escort_end <= plan@.len() <= escort_end + ambient_total(a as int),
            ambient@ == ambient_spawns(),
            escort_end <= 7,
            occupied@.len() == plan@.len(),
            forall|k: int| 0 <= k < plan@.len() ==> #[trigger] occupied@[k] == plan@[k].0,
            forall|k: int| 0 <= k < cells@.len() ==> is_spawn_candidate(gw, gh, (#[trigger] cells@[k]).0 as int, cells@[k].1 as int),
            forall|k: int| 0 <= k < plan@.len() ==> in_grid(gw, gh, (#[trigger] plan@[k]).0.0 as int, plan@[k].0.1 as int),
            forall|i1: int, j1: int| 0 <= i1 < j1 < plan@.len() ==> (#[trigger] plan@[i1]).0 != (#[trigger] plan@[j1]).0,
            forall|k: int|
                escort_end <= k < plan@.len() ==> (#[trigger] plan@[k]).1 != SkeletonVariant::King && is_spawn_candidate(
                    gw,
                    gh,
                    plan@[k].0.0 as int,
                    plan@[k].0.1 as int,
                ),
            plan@.len() >= 1,
            plan@[0] == (king_cell, SkeletonVariant::King),
            forall|k: int| 1 <= k < escort_end ==> #[trigger] plan@[k] == (escorts@[k - 1], entourage()[k - 1]),
        decreases 5 - a,
    {
        let (variant, count) = ambient[a];
        let mut c: usize = 0;
        while c < count
            invariant
                gw == maze.w as int,
                gh == maze.h as int,
                0 <= a < 5,
                (variant, count) == ambient@[a as int],
                g == ambient_total(a as int) + c,
                plan@.len() - escort_end <= g,
                forall|k: int| escort_end <= k < plan@.len() ==> (#[trigger] plan@[k]).1 == ambient_kind(k - escort_end),
                plan@.len() - escort_end < g ==> forall|x: int, y: int|
                    #[trigger] is_spawn_candidate(gw, gh, x, y) ==> plan_holds(plan@, (x as u32, y as u32)),
                forall|x: int, y: int| #[trigger] is_spawn_candidate(gw, gh, x, y) ==> cells@.contains((x as u32, y as u32))
                    || (x as u32, y as u32) == king_cell,
                0 <= c <= count,
                escort_end <= plan@.len() <= escort_end + ambient_total(a as int) + c,
                ambient@ == ambient_spawns(),
                count == ambient_total(a as int + 1) - ambient_total(a as int),
                escort_end <= 7,
                occupied@.len() == plan@.len(),
                forall|k: int| 0 <= k < plan@.len() ==> #[trigger] occupied@[k] == plan@[k].0,
                forall|k: int| 0 <= k < cells@.len() ==> is_spawn_candidate(gw, gh, (#[trigger] cells@[k]).0 as int, cells@[k].1 as int),
                forall|k: int| 0 <= k < plan@.len() ==> in_grid(gw, gh, (#[trigger] plan@[k]).0.0 as int, plan@[k].0.1 as int),
                forall|i1: int, j1: int| 0 <= i1 < j1 < plan@.len() ==> (#[trigger] plan@[i1]).0 != (#[trigger] plan@[j1]).0,
                forall|k: int|
                    escort_end <= k < plan@.len() ==> (#[trigger] plan@[k]).1 != SkeletonVariant::King && is_spawn_candidate(
                        gw,
                        gh,
                        plan@[k].0.0 as int,
                        plan@[k].0.1 as int,
                    ),
                plan@.len() >= 1,
                plan@[0] == (king_cell, SkeletonVariant::King),
                forall|k: int| 1 <= k < escort_end ==> #[trigger] plan@[k] == (escorts@[k - 1], entourage()[k - 1]),
            decreases count - c,
        {
            let ghost pre_plan = plan@;
            let ghost pre_occ = occupied@;
            proof {
                lemma_ambient_kind_in_group(a as int, c as int);
                if plan@.len() - escort_end < g {
                    assert forall|k: int| 0 <= k < cells@.len() implies pre_occ.contains(#[trigger] cells@[k]) by {
                        let cc = cells@[k];
                        assert(is_spawn_candidate(gw, gh, cc.0 as int, cc.1 as int));
                        assert(plan_holds(pre_plan, ((cc.0 as int) as u32, (cc.1 as int) as u32)));
                        let k2 = choose|k2: int| 0 <= k2 < pre_plan.len() && (#[trigger] pre_plan[k2]).0 == cc;
                        assert(pre_occ[k2] == cc);
                    }
                }
            }
            match take_random_open_cell(rng, &cells, &occupied) {
                Some(cell) => {
                    let ghost old_plan = plan@;
                    let ghost old_occ = occupied@;
                    occupied.push(cell);
                    plan.push((cell, variant));
                    proof {
                        assert(old_plan.len() - escort_end == g);
                        assert forall|k: int| escort_end <= k < plan@.len() implies (#[trigger] plan@[k]).1 == ambient_kind(k - escort_end) by {
                            if k < old_plan.len() {
                                assert(plan@[k] == old_plan[k]);
                            }
                        }
                        let k0 = choose|k: int| 0 <= k < cells@.len() && cells@[k] == cell;
                        assert(is_spawn_candidate(gw, gh, cells@[k0].0 as int, cells@[k0].1 as int));
                        assert forall|i1: int, j1: int| 0 <= i1 < j1 < plan@.len() implies (#[trigger] plan@[i1]).0 != (#[trigger] plan@[j1]).0 by {
                            assert(plan@[i1] == old_plan[i1]);
                            if j1 == plan@.len() - 1 {
                                assert(old_occ[i1] == old_plan[i1].0);
                                assert(old_occ.contains(old_plan[i1].0));
                            } else {
                                assert(plan@[j1] == old_plan[j1]);
                            }
                        }
                        assert forall|k: int| 0 <= k < plan@.len() implies #[trigger] occupied@[k] == plan@[k].0 by {
                            if k < old_plan.len() {
                                assert(occupied@[k] == old_occ[k]);
                                assert(plan@[k] == old_plan[k]);
                            }
                        }
                        assert forall|k: int| 1 <= k < escort_end implies #[trigger] plan@[k] == (escorts@[k - 1], entourage()[k - 1]) by {
                            assert(plan@[k] == old_plan[k]);
                        }
                        assert(variant != SkeletonVariant::King);
                    }
                },
                None => {
                    proof {
                        assert forall|x: int, y: int| #[trigger] is_spawn_candidate(gw, gh, x, y) implies plan_holds(
                            plan@,
                            (x as u32, y as u32),
                        ) by {
                            let cc = (x as u32, y as u32);
                            if cc == king_cell {
                                assert(plan@[0].0 == cc);
                            } else {
                                assert(cells@.contains(cc));
                                let k = choose|k: int| 0 <= k < cells@.len() && cells@[k] == cc;
                                assert(occupied@.contains(cells@[k]));
                                let k2 = choose|k2: int| 0 <= k2 < occupied@.len() && occupied@[k2] == cc;
                                assert(plan@[k2].0 == cc);
                            }
                        }
                    }
                },
            }
            c = c + 1;
            proof {
                g = g + 1;
            }
        }
        a = a + 1;
    }
    proof {
        let ee = escort_end - 1;
        assert(forall|k: int| 1 <= k <= ee && k < plan@.len() ==> #[trigger] plan@[k] == (escorts@[k - 1], entourage()[k - 1]));
        assert forall|k: int| 1 <= k <= ee && k < plan@.len() implies (#[trigger] plan@[k]).1 == entourage()[k - 1] && connected(
            gw,
            gh,
            maze.cells@,
            pt(plan@[0].0),
            pt(plan@[k].0),
        ) by {
            assert(plan@[k] == (escorts@[k - 1], entourage()[k - 1]));
        }
        assert(ambient_total(5) == 28);
        if ee < 6 {
            assert forall|x: int, y: int|
                in_grid(gw, gh, x, y) && (x as u32, y as u32) != plan@[0].0 && #[trigger] connected(
                    gw,
                    gh,
                    maze.cells@,
                    pt(plan@[0].0),
                    (x, y),
                ) implies escort_holds(plan@, ee, (x as u32, y as u32)) by {
                let cc = (x as u32, y as u32);
                assert(pt(cc) == (x, y));
                assert(!occ0.contains(cc)) by {
                    if occ0.contains(cc) {
                        let k = choose|k: int| 0 <= k < occ0.len() && occ0[k] == cc;
                        assert(occ0[0] == king_cell);
                    }
                }
                assert(escorts@.contains(cc));
                let k = choose|k: int| 0 <= k < escorts@.len() && escorts@[k] == cc;
                assert(plan@[k + 1] == (escorts@[k], entourage()[k]));
            }
        }
        assert forall|i1: int, i2: int, n: int|
            1 <= i1 < i2 <= ee && i2 < plan@.len() && #[trigger] within(gw, gh, maze.cells@, pt(plan@[0].0), pt(plan@[i2].0), n)
                implies within(gw, gh, maze.cells@, pt(plan@[0].0), pt(#[trigger] plan@[i1].0), n) by {
            assert(plan@[i1] == (escorts@[i1 - 1], entourage()[i1 - 1]));
            assert(plan@[i2] == (escorts@[i2 - 1], entourage()[i2 - 1]));
            assert(within(gw, gh, maze.cells@, pt(king_cell), pt(escorts@[i2 - 1]), n));
        }
        assert forall|i: int, x: int, y: int, n: int|
            1 <= i <= ee && i < plan@.len() && in_grid(gw, gh, x, y) && (x as u32, y as u32) != plan@[0].0 && !escort_holds(
                plan@,
                ee,
                (x as u32, y as u32),
            ) && #[trigger] within(gw, gh, maze.cells@, pt(plan@[0].0), (x, y), n) implies within(
            gw,
            gh,
            maze.cells@,
            pt(plan@[0].0),
            pt(#[trigger] plan@[i].0),
            n,
        ) by {
            let cc = (x as u32, y as u32);
            assert(pt(cc) == (x, y));
            assert(!occ0.contains(cc)) by {
                if occ0.contains(cc) {
                    let k = choose|k: int| 0 <= k < occ0.len() && occ0[k] == cc;
                    assert(occ0[0] == king_cell);
                }
            }
            assert(!escorts@.contains(cc)) by {
                if escorts@.contains(cc) {
                    let k = choose|k: int| 0 <= k < escorts@.len() && escorts@[k] == cc;
                    assert(plan@[k + 1] == (escorts@[k], entourage()[k]));
                    assert(escort_holds(plan@, ee, cc));
                }
            }
            assert(plan@[i] == (escorts@[i - 1], entourage()[i - 1]));
            assert(within(gw, gh, maze.cells@, pt(king_cell), pt(cc), n));
        }
        assert(escorts_then_others(*maze, plan@, ee));
    }
    plan
}

} // verus!

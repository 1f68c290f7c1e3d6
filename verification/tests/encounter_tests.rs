use arc_maze::encounters::{
    chest_spawn_count, collect_reachable_cells, gold_coin_count, spawn_candidates_exist, contains_cell, gold_drop_amount, gold_drop_style_for_variant,
    cache_chance_for, chest_item_attempts_for, chest_tier_for_roll, roll_chest_item, COMMON_CHEST_GOLD_PERCENT, open_neighbors, plan_skeleton_encounters, roll_chest, roll_chest_cache,
    roll_chest_gold, roll_chest_site, roll_chest_tier,
    skeleton_name, take_random_open_cell, GoldDropStyle, SkeletonVariant,
};
use arc_maze::inventory::ChestTier;
use arc_maze::items::{roll_item, Item, Rarity};
use arc_maze::maze::Maze;
use arc_maze::rng::Dice;
use std::collections::HashSet;

const ALL: [SkeletonVariant; 6] = [
    SkeletonVariant::Archer,
    SkeletonVariant::Knight,
    SkeletonVariant::SwordShield,
    SkeletonVariant::Guard,
    SkeletonVariant::Mage,
    SkeletonVariant::King,
];

#[test]
fn skeleton_names() {
    assert_eq!(skeleton_name(SkeletonVariant::Archer), "Skeleton Archer");
    assert_eq!(skeleton_name(SkeletonVariant::SwordShield), "Skeleton Swordshield");
    assert_eq!(skeleton_name(SkeletonVariant::King), "Skeleton King");
}

#[test]
fn gold_drops_stay_in_their_ranges() {
    let mut rng = Dice::from_seed(11);
    let ranges = [(8, 14), (11, 18), (10, 16), (16, 24), (18, 28), (80, 120)];
    for (v, (lo, hi)) in ALL.iter().zip(ranges) {
        let mut seen = HashSet::new();
        for _ in 0..200 {
            let g = gold_drop_amount(*v, &mut rng);
            assert!(lo <= g && g <= hi);
            seen.insert(g);
        }
        assert!(seen.len() > 1);
    }
}

#[test]
fn gold_drop_styles() {
    assert_eq!(gold_drop_style_for_variant(SkeletonVariant::Archer), GoldDropStyle::Common);
    assert_eq!(gold_drop_style_for_variant(SkeletonVariant::Knight), GoldDropStyle::Martial);
    assert_eq!(gold_drop_style_for_variant(SkeletonVariant::Guard), GoldDropStyle::Martial);
    assert_eq!(gold_drop_style_for_variant(SkeletonVariant::Mage), GoldDropStyle::Arcane);
    assert_eq!(gold_drop_style_for_variant(SkeletonVariant::King), GoldDropStyle::Royal);
}

#[test]
fn chest_tiers_follow_their_shares() {
    let mut rng = Dice::from_seed(5);
    let mut common = 0;
    let mut royal = 0;
    for _ in 0..4000 {
        match roll_chest_tier(&mut rng) {
            ChestTier::Common => common += 1,
            ChestTier::Royal => royal += 1,
            _ => {}
        }
    }
    assert!(common > 1800 && common < 2400);
    assert!(royal > 100 && royal < 320);
}

#[test]
fn chest_counts() {
    assert_eq!(chest_spawn_count(10, 8), 8);
    assert_eq!(chest_spawn_count(12, 12), 12);
    assert_eq!(chest_spawn_count(30, 30), 40);
    assert_eq!(chest_spawn_count(1, 1), 8);
}

#[test]
fn chest_sites_gold_and_caches() {
    let mut rng = Dice::from_seed(77);
    let mut xs = HashSet::new();
    let mut ys = HashSet::new();
    for _ in 0..300 {
        let site = roll_chest_site(&mut rng, 9, 4);
        assert!(site.x < 9 && site.y < 4);
        xs.insert(site.x);
        ys.insert(site.y);
        let (lo, hi) = match site.tier {
            ChestTier::Common => (1, 2),
            ChestTier::Rare => (2, 3),
            ChestTier::Epic => (3, 4),
            ChestTier::Royal => (4, 5),
        };
        assert!(lo <= site.item_count && site.item_count <= hi);
        let g = roll_chest_gold(&mut rng, site.tier);
        match site.tier {
            ChestTier::Common => assert!(g == 0 || (12..=34).contains(&g)),
            ChestTier::Rare => assert!((22..=58).contains(&g)),
            ChestTier::Epic => assert!((48..=96).contains(&g)),
            ChestTier::Royal => assert!((95..=170).contains(&g)),
        }
    }
    assert_eq!(xs.len(), 9);
    assert_eq!(ys.len(), 4);
    for _ in 0..50 {
        let c = roll_chest_cache(&mut rng, ChestTier::Royal).expect("a royal chest always has a cache");
        assert!((130..=240).contains(&c));
    }
}

#[test]
fn neighbours_follow_open_walls() {
    let m = Maze::generate_with_three_exits(6, 5, 3);
    for y in 0..5u32 {
        for x in 0..6u32 {
            let n = open_neighbors(&m, (x, y));
            let walls = m.cells[(y * 6 + x) as usize].walls;
            let mut expected = Vec::new();
            if !walls[0] && y > 0 {
                expected.push((x, y - 1));
            }
            if !walls[1] && x + 1 < 6 {
                expected.push((x + 1, y));
            }
            if !walls[2] && y + 1 < 5 {
                expected.push((x, y + 1));
            }
            if !walls[3] && x > 0 {
                expected.push((x - 1, y));
            }
            assert_eq!(n, expected);
        }
    }
}

#[test]
fn reachable_cells_exclude_start_and_occupied() {
    let m = Maze::generate_with_three_exits(8, 8, 21);
    let occupied = vec![(1, 0), (0, 1)];
    let got = collect_reachable_cells(&m, (0, 0), 6, &occupied);
    assert!(got.len() <= 6);
    let set: HashSet<(u32, u32)> = got.iter().copied().collect();
    assert_eq!(set.len(), got.len());
    assert!(!set.contains(&(0, 0)));
    assert!(!set.contains(&(1, 0)) && !set.contains(&(0, 1)));
    // a perfect maze of 64 cells leaves plenty of room
    let all = collect_reachable_cells(&m, (0, 0), 100, &vec![]);
    assert_eq!(all.len(), 63);
}

#[test]
fn random_open_cell() {
    let mut rng = Dice::from_seed(2);
    let cells = vec![(1, 1), (2, 2), (3, 3)];
    assert_eq!(take_random_open_cell(&mut rng, &cells, &vec![(1, 1), (3, 3)]), Some((2, 2)));
    assert_eq!(take_random_open_cell(&mut rng, &cells, &cells), None);
    assert!(contains_cell(&cells, (2, 2)));
    assert!(!contains_cell(&cells, (2, 3)));
}

#[test]
fn encounter_plan_is_valid() {
    let m = Maze::generate_with_three_exits(20, 16, 4242);
    let mut rng = Dice::from_seed(4242);
    let plan = plan_skeleton_encounters(&m, &mut rng);
    assert_eq!(plan[0].1, SkeletonVariant::King);
    // king, six escorts, then the 28 ambient skeletons
    assert_eq!(plan.len(), 35);
    let cells: HashSet<(u32, u32)> = plan.iter().map(|p| p.0).collect();
    assert_eq!(cells.len(), plan.len());
    let escorts: Vec<SkeletonVariant> = plan[1..7].iter().map(|p| p.1).collect();
    assert_eq!(escorts, vec![
        SkeletonVariant::Guard,
        SkeletonVariant::Guard,
        SkeletonVariant::Archer,
        SkeletonVariant::Knight,
        SkeletonVariant::Knight,
        SkeletonVariant::Knight
    ]);
    for (c, v) in &plan[7..] {
        assert_ne!(*v, SkeletonVariant::King);
        assert!(!(c.0 <= 2 && c.1 <= 2));
    }
    assert_eq!(plan[7..].iter().filter(|p| p.1 == SkeletonVariant::Mage).count(), 4);
}

#[test]
fn spawn_candidates() {
    assert!(!spawn_candidates_exist(3, 3));
    assert!(spawn_candidates_exist(4, 4));
    assert!(spawn_candidates_exist(1, 10));
    assert!(!spawn_candidates_exist(1, 5));
    assert!(spawn_candidates_exist(28, 24));
}

#[test]
fn coin_counts() {
    let cases = [(-5, 1), (0, 1), (14, 1), (15, 2), (28, 2), (29, 3), (70, 5), (71, 6), (500, 6)];
    for (amount, coins) in cases {
        assert_eq!(gold_coin_count(amount), coins, "amount {amount}");
    }
}

fn distances(m: &Maze, start: (u32, u32)) -> Vec<Option<usize>> {
    let mut dist = vec![None; (m.w * m.h) as usize];
    let mut q = std::collections::VecDeque::new();
    dist[(start.1 * m.w + start.0) as usize] = Some(0);
    q.push_back(start);
    while let Some(c) = q.pop_front() {
        let d = dist[(c.1 * m.w + c.0) as usize].unwrap();
        for n in open_neighbors(m, c) {
            let i = (n.1 * m.w + n.0) as usize;
            if dist[i].is_none() {
                dist[i] = Some(d + 1);
                q.push_back(n);
            }
        }
    }
    dist
}

#[test]
fn reachable_cells_come_nearest_first() {
    let m = Maze::generate_with_three_exits(12, 10, 808);
    let start = (5, 5);
    let dist = distances(&m, start);
    let d = |c: (u32, u32)| dist[(c.1 * m.w + c.0) as usize].unwrap();
    let occupied = vec![(5, 4), (6, 5)];
    let got = collect_reachable_cells(&m, start, 6, &occupied);
    assert_eq!(got.len(), 6);
    for w in got.windows(2) {
        assert!(d(w[0]) <= d(w[1]));
    }
    let farthest = got.iter().map(|c| d(*c)).max().unwrap();
    for y in 0..m.h {
        for x in 0..m.w {
            let c = (x, y);
            if c != start && !occupied.contains(&c) && !got.contains(&c) {
                assert!(d(c) >= farthest);
            }
        }
    }
}

#[test]
fn escorts_are_nearest_to_the_king() {
    let m = Maze::generate_with_three_exits(16, 12, 99);
    let mut rng = Dice::from_seed(99);
    let plan = plan_skeleton_encounters(&m, &mut rng);
    let king = plan[0].0;
    let dist = distances(&m, king);
    let d = |c: (u32, u32)| dist[(c.1 * m.w + c.0) as usize].unwrap();
    let escorts: Vec<(u32, u32)> = plan[1..7].iter().map(|p| p.0).collect();
    for w in escorts.windows(2) {
        assert!(d(w[0]) <= d(w[1]));
    }
    let farthest = escorts.iter().map(|c| d(*c)).max().unwrap();
    for y in 0..m.h {
        for x in 0..m.w {
            let c = (x, y);
            if c != king && !escorts.contains(&c) {
                assert!(d(c) >= farthest);
            }
        }
    }
}

#[test]
fn chest_tier_for_roll_bands() {
    assert_eq!(chest_tier_for_roll(0), ChestTier::Common);
    assert_eq!(chest_tier_for_roll(51), ChestTier::Common);
    assert_eq!(chest_tier_for_roll(52), ChestTier::Rare);
    assert_eq!(chest_tier_for_roll(79), ChestTier::Rare);
    assert_eq!(chest_tier_for_roll(80), ChestTier::Epic);
    assert_eq!(chest_tier_for_roll(94), ChestTier::Epic);
    assert_eq!(chest_tier_for_roll(95), ChestTier::Royal);
    assert_eq!(chest_tier_for_roll(99), ChestTier::Royal);
}

#[test]
fn cache_chances_per_tier() {
    assert_eq!(cache_chance_for(ChestTier::Common), 22);
    assert_eq!(cache_chance_for(ChestTier::Rare), 42);
    assert_eq!(cache_chance_for(ChestTier::Epic), 65);
    assert_eq!(cache_chance_for(ChestTier::Royal), 100);
    assert_eq!(COMMON_CHEST_GOLD_PERCENT, 28);
}

#[test]
fn rolled_chests_are_consistent() {
    let mut rng = Dice::from_seed(0xC0FFEE);
    for _ in 0..200 {
        let r = roll_chest(&mut rng, 12, 9, &|it: &Item| it.size.1 as i32);
        assert!(r.site.x < 12 && r.site.y < 9);
        assert_eq!(r.chest.tier, r.site.tier);
        assert_eq!(r.chest.items.len() as i32, r.site.item_count);
        match r.site.tier {
            ChestTier::Common => assert!(r.chest.gold == 0 || (12..=34).contains(&r.chest.gold)),
            ChestTier::Rare => assert!((22..=58).contains(&r.chest.gold)),
            ChestTier::Epic => assert!((48..=96).contains(&r.chest.gold)),
            ChestTier::Royal => {
                assert!((95..=170).contains(&r.chest.gold));
                assert!(r.cache.is_some());
            },
        }
    }
}

#[test]
fn chest_items_are_the_best_of_their_attempts() {
    assert_eq!(chest_item_attempts_for(ChestTier::Common), 1);
    assert_eq!(chest_item_attempts_for(ChestTier::Rare), 2);
    assert_eq!(chest_item_attempts_for(ChestTier::Epic), 4);
    assert_eq!(chest_item_attempts_for(ChestTier::Royal), 6);
    let value = |it: &Item| match it.rarity {
        Rarity::Common => 1,
        Rarity::Uncommon => 2,
        Rarity::Rare => 3,
        Rarity::UltraRare => 4,
        Rarity::Legendary => 5,
        Rarity::Unique => 6,
    };
    for seed in 0..40u64 {
        // the same seed, drawn by hand: six items, the first of highest value
        let mut by_hand = Dice::from_seed(seed);
        let cands: Vec<Item> = (0..6).map(|_| roll_item(&mut by_hand)).collect();
        let best = (0..6).fold(0, |b, j| if value(&cands[j]) > value(&cands[b]) { j } else { b });
        let mut rng = Dice::from_seed(seed);
        let it = roll_chest_item(&mut rng, ChestTier::Royal, &value);
        assert_eq!(it.name, cands[best].name);
        assert_eq!(it.rarity, cands[best].rarity);
    }
}

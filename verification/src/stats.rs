//! Character attributes: the five integer stats and their base/bonus split.

use vstd::prelude::*;

verus! {

/// The five character attributes.
#[derive(Clone, Copy, Debug, PartialEq, Eq, Structural)]
pub struct Stats {
    /// Health and regeneration speed.
    pub vigor: i32,
    /// Damage multiplier and damage reduction.
    pub strength: i32,
    /// Dexterity and interaction speed.
    pub agility: i32,
    /// Number of spells and spell power.
    pub magic: i32,
    /// Magic capacity and stamina.
    pub endurance: i32,
}

impl Default for Stats {
    fn default() -> (s: Self)
        ensures
            s == (Stats { vigor: 0, strength: 0, agility: 0, magic: 0, endurance: 0 }),
    {
        Stats { vigor: 0, strength: 0, agility: 0, magic: 0, endurance: 0 }
    }
}

impl Stats {
    /// Every attribute starts at 5.
    pub fn base() -> (s: Self)
        ensures
            s == (Stats { vigor: 5, strength: 5, agility: 5, magic: 5, endurance: 5 }),
    {
        Stats { vigor: 5, strength: 5, agility: 5, magic: 5, endurance: 5 }
    }
}

} // verus!

verus! {

/// The player's attributes: the base values chosen at the start screen and
/// the bonus granted by equipment. (Limb health, which scales with vigor in
/// floating point, is kept by the game loop.)
#[derive(Clone, Copy, Debug, PartialEq, Eq, Structural)]
pub struct PlayerStats {
    pub base: Stats,
    pub bonus: Stats,
}

/// `a - b`, attribute by attribute.
pub open spec fn stats_diff(a: Stats, b: Stats) -> Stats {
    Stats {
        vigor: (a.vigor - b.vigor) as i32,
        strength: (a.strength - b.strength) as i32,
        agility: (a.agility - b.agility) as i32,
        magic: (a.magic - b.magic) as i32,
        endurance: (a.endurance - b.endurance) as i32,
    }
}

/// `a - b` stays inside `i32` on every attribute.
pub open spec fn diff_fits(a: Stats, b: Stats) -> bool {
    &&& i32::MIN <= a.vigor - b.vigor <= i32::MAX
    &&& i32::MIN <= a.strength - b.strength <= i32::MAX
    &&& i32::MIN <= a.agility - b.agility <= i32::MAX
    &&& i32::MIN <= a.magic - b.magic <= i32::MAX
    &&& i32::MIN <= a.endurance - b.endurance <= i32::MAX
}

/// `a + b` stays inside `i32` on every attribute.
pub open spec fn sum_fits(a: Stats, b: Stats) -> bool {
    &&& i32::MIN <= a.vigor + b.vigor <= i32::MAX
    &&& i32::MIN <= a.strength + b.strength <= i32::MAX
    &&& i32::MIN <= a.agility + b.agility <= i32::MAX
    &&& i32::MIN <= a.magic + b.magic <= i32::MAX
    &&& i32::MIN <= a.endurance + b.endurance <= i32::MAX
}

/// `a + b`, attribute by attribute.
pub open spec fn stats_sum(a: Stats, b: Stats) -> Stats {
    Stats {
        vigor: (a.vigor + b.vigor) as i32,
        strength: (a.strength + b.strength) as i32,
        agility: (a.agility + b.agility) as i32,
        magic: (a.magic + b.magic) as i32,
        endurance: (a.endurance + b.endurance) as i32,
    }
}

impl Default for PlayerStats {
    /// Base 5 everywhere, no bonus.
    fn default() -> (p: Self)
        ensures
            p.base == (Stats { vigor: 5, strength: 5, agility: 5, magic: 5, endurance: 5 }),
            p.bonus == (Stats { vigor: 0, strength: 0, agility: 0, magic: 0, endurance: 0 }),
    {
        PlayerStats { base: Stats::base(), bonus: Stats::default() }
    }
}

impl PlayerStats {
    /// Base plus bonus.
    pub fn total(&self) -> (t: Stats)
        requires
            sum_fits(self.base, self.bonus),
        ensures
            t == stats_sum(self.base, self.bonus),
    {
        Stats {
            vigor: self.base.vigor + self.bonus.vigor,
            strength: self.base.strength + self.bonus.strength,
            agility: self.base.agility + self.bonus.agility,
            magic: self.base.magic + self.bonus.magic,
            endurance: self.base.endurance + self.bonus.endurance,
        }
    }
}

/// `a - b`, attribute by attribute.
pub fn diff_stats(a: Stats, b: Stats) -> (d: Stats)
    requires
        diff_fits(a, b),
    ensures
        d == stats_diff(a, b),
{
    Stats {
        vigor: a.vigor - b.vigor,
        strength: a.strength - b.strength,
        agility: a.agility - b.agility,
        magic: a.magic - b.magic,
        endurance: a.endurance - b.endurance,
    }
}

} // verus!

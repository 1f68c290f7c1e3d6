//! Spells and their charges.

use vstd::prelude::*;

verus! {

/// The player's spells.
#[derive(Clone, Copy, Debug, PartialEq, Eq, Hash, Structural)]
pub enum Spell {
    Fireball,
    WaterGun,
    Zap,
    WindSlash,
    LightHeal,
}

/// The spell selected for casting, if any.
pub struct ActiveSpell {
    pub selected: Option<Spell>,
}

impl Default for ActiveSpell {
    fn default() -> (a: Self)
        ensures
            a.selected is None,
    {
        ActiveSpell { selected: None }
    }
}

/// Charges left for each spell. (The recharge timers live with the game
/// loop; a finished timer adds one charge through `add_charge`.)
#[derive(Clone, Copy, Debug, PartialEq, Eq, Structural)]
pub struct Spellbook {
    pub fireball: i32,
    pub water_gun: i32,
    pub zap: i32,
    pub wind_slash: i32,
    pub light_heal: i32,
}

/// Charges of spell `s`.
pub open spec fn charges_of(b: Spellbook, s: Spell) -> i32 {
    match s {
        Spell::Fireball => b.fireball,
        Spell::WaterGun => b.water_gun,
        Spell::Zap => b.zap,
        Spell::WindSlash => b.wind_slash,
        Spell::LightHeal => b.light_heal,
    }
}

/// `b` with the charges of `s` set to `n`.
pub open spec fn with_charges(b: Spellbook, s: Spell, n: i32) -> Spellbook {
    match s {
        Spell::Fireball => Spellbook { fireball: n, ..b },
        Spell::WaterGun => Spellbook { water_gun: n, ..b },
        Spell::Zap => Spellbook { zap: n, ..b },
        Spell::WindSlash => Spellbook { wind_slash: n, ..b },
        Spell::LightHeal => Spellbook { light_heal: n, ..b },
    }
}

impl Default for Spellbook {
    /// Fireball 5, Water Gun 8, Zap 10, Wind Slash 10, Light Heal 5.
    fn default() -> (b: Self)
        ensures
            b == (Spellbook { fireball: 5, water_gun: 8, zap: 10, wind_slash: 10, light_heal: 5 }),
    {
        Spellbook { fireball: 5, water_gun: 8, zap: 10, wind_slash: 10, light_heal: 5 }
    }
}

impl Spellbook {
    /// Charges left for `s`.
    pub fn charges(&self, s: Spell) -> (n: i32)
        ensures
            n == charges_of(*self, s),
    {
        match s {
            Spell::Fireball => self.fireball,
            Spell::WaterGun => self.water_gun,
            Spell::Zap => self.zap,
            Spell::WindSlash => self.wind_slash,
            Spell::LightHeal => self.light_heal,
        }
    }

    /// Spends one charge of `s` if there is one; returns whether the spell
    /// may be cast.
    pub fn try_consume(&mut self, s: Spell) -> (cast: bool)
        ensures
            cast == (charges_of(*old(self), s) > 0),
            *final(self) == if cast {
                with_charges(*old(self), s, (charges_of(*old(self), s) - 1) as i32)
            } else {
                *old(self)
            },
    {
        let n = self.charges(s);
        if n > 0 {
            self.set(s, n - 1);
            true
        } else {
            false
        }
    }

    /// Adds one charge to `s` (a finished recharge timer).
    pub fn add_charge(&mut self, s: Spell)
        requires
            charges_of(*old(self), s) < i32::MAX,
        ensures
            *final(self) == with_charges(*old(self), s, (charges_of(*old(self), s) + 1) as i32),
    {
        let n = self.charges(s);
        self.set(s, n + 1);
    }

    fn set(&mut self, s: Spell, n: i32)
        ensures
            *final(self) == with_charges(*old(self), s, n),
    {
        match s {
            Spell::Fireball => self.fireball = n,
            Spell::WaterGun => self.water_gun = n,
            Spell::Zap => self.zap = n,
            Spell::WindSlash => self.wind_slash = n,
            Spell::LightHeal => self.light_heal = n,
        }
    }
}

/// Casting only touches the cast spell's charges.
pub proof fn lemma_consume_other_spells(b: Spellbook, s: Spell, t: Spell, n: i32)
    requires
        s != t,
    ensures
        charges_of(with_charges(b, s, n), t) == charges_of(b, t),
{
}

/// A recharge followed by a cast restores the spellbook.
pub proof fn lemma_recharge_then_cast(b: Spellbook, s: Spell)
    requires
        0 <= charges_of(b, s) < i32::MAX,
    ensures
        charges_of(with_charges(b, s, (charges_of(b, s) + 1) as i32), s) > 0,
        with_charges(
            with_charges(b, s, (charges_of(b, s) + 1) as i32),
            s,
            (charges_of(with_charges(b, s, (charges_of(b, s) + 1) as i32), s) - 1) as i32,
        ) == b,
{
}

} // verus!

use arc_maze::spells::{ActiveSpell, Spell, Spellbook};

#[test]
fn default_charges() {
    let b = Spellbook::default();
    assert_eq!(b.charges(Spell::Fireball), 5);
    assert_eq!(b.charges(Spell::WaterGun), 8);
    assert_eq!(b.charges(Spell::Zap), 10);
    assert_eq!(b.charges(Spell::WindSlash), 10);
    assert_eq!(b.charges(Spell::LightHeal), 5);
}

#[test]
fn casting_spends_one_charge_of_that_spell_only() {
    let mut b = Spellbook::default();
    assert!(b.try_consume(Spell::Zap));
    assert_eq!(b.charges(Spell::Zap), 9);
    assert_eq!(b.charges(Spell::Fireball), 5);
    assert_eq!(b.charges(Spell::WaterGun), 8);
}

#[test]
fn casting_without_charges_is_refused() {
    let mut b = Spellbook { fireball: 0, water_gun: 1, zap: 0, wind_slash: 0, light_heal: 0 };
    assert!(!b.try_consume(Spell::Fireball));
    assert_eq!(b.charges(Spell::Fireball), 0);
    assert!(b.try_consume(Spell::WaterGun));
    assert!(!b.try_consume(Spell::WaterGun));
}

#[test]
fn recharge_then_cast_restores_the_book() {
    let start = Spellbook::default();
    let mut b = start;
    b.add_charge(Spell::LightHeal);
    assert_eq!(b.charges(Spell::LightHeal), 6);
    assert!(b.try_consume(Spell::LightHeal));
    assert_eq!(b, start);
}

#[test]
fn no_spell_selected_at_start() {
    assert_eq!(ActiveSpell::default().selected, None);
    let a = ActiveSpell { selected: Some(Spell::WindSlash) };
    assert_eq!(a.selected, Some(Spell::WindSlash));
}

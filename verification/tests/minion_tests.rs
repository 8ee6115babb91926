use rustfire_core::minion::{Buff, Minion, Modifier};
use rustfire_core::minions::generate_test_minion;

#[test]
fn test_minion_values() {
    let m = Minion::test();
    assert_eq!(m.id, "1");
    assert_eq!(m.card_id, "1");
    assert_eq!(m.name, "test");
    assert_eq!(m.base_cost, 1);
    assert_eq!(m.base_attack, 1);
    assert_eq!(m.base_health, 1);
    assert_eq!(m.cost, 1);
    assert_eq!(m.attack, 1);
    assert_eq!(m.health, 1);
    assert!(m.modifiers.is_empty());
    assert!(m.buffs.is_empty());
    assert!(!m.deathrattle_fired);
    assert!(m.on_summon.is_none());
    assert!(m.on_deathrattle.is_none());
}

#[test]
fn generate_test_minion_values() {
    let m = generate_test_minion();
    assert_eq!(m.id, "1");
    assert_eq!(m.card_id, "1");
    assert_eq!(m.name, "test");
    assert_eq!(m.cost, 1);
    assert_eq!(m.attack, 1);
    assert_eq!(m.health, 1);
    assert!(m.on_summon.is_none());
}

#[test]
fn new_minion_is_blank() {
    let m = Minion::new();
    assert_eq!(m.id, "");
    assert_eq!(m.attack, 0);
    assert_eq!(m.health, 0);
    assert!(m.modifiers.is_empty());
    assert!(m.buffs.is_empty());
}

#[test]
fn take_damage_goes_below_zero() {
    let mut m = generate_test_minion();
    m.health = 5;
    m.take_damage(3);
    assert_eq!(m.health, 2);
    m.take_damage(10);
    assert_eq!(m.health, -8);
}

#[test]
fn divine_shield_absorbs_one_instance() {
    let mut m = generate_test_minion();
    m.health = 4;
    m.add_modifier(Modifier::DivineShield);
    m.take_damage(3);
    assert_eq!(m.health, 4);
    assert!(!m.has_modifier(Modifier::DivineShield));
    m.take_damage(3);
    assert_eq!(m.health, 1);
}

#[test]
fn zero_damage_keeps_divine_shield() {
    let mut m = generate_test_minion();
    m.add_modifier(Modifier::DivineShield);
    m.take_damage(0);
    assert_eq!(m.health, 1);
    assert!(m.has_modifier(Modifier::DivineShield));
}

#[test]
fn spell_damage_stacks_additively() {
    let mut m = generate_test_minion();
    m.add_modifier(Modifier::SpellDamage(2));
    m.add_modifier(Modifier::SpellDamage(3));
    assert_eq!(m.spell_damage(), 5);
    m.add_modifier(Modifier::SpellDamage(2));
    assert_eq!(m.spell_damage(), 7);
    assert_eq!(m.modifiers.len(), 3);
}

#[test]
fn plain_modifiers_do_not_duplicate() {
    let mut m = generate_test_minion();
    m.add_modifier(Modifier::Taunt);
    m.add_modifier(Modifier::Taunt);
    assert_eq!(m.modifiers.len(), 1);
    assert!(m.has_modifier(Modifier::Taunt));
    m.remove_modifier(Modifier::Taunt);
    assert!(!m.has_modifier(Modifier::Taunt));
    assert!(m.modifiers.is_empty());
}

#[test]
fn remove_all_modifiers_clears_set_not_buffs() {
    let mut m = generate_test_minion();
    m.apply_buff(Buff::GrantModifier(Modifier::Stealth));
    m.apply_buff(Buff::GrantModifier(Modifier::Windfury));
    assert_eq!(m.modifiers.len(), 2);
    m.remove_all_modifiers();
    assert!(m.modifiers.is_empty());
    assert_eq!(m.buffs.len(), 2);
}

#[test]
fn buffs_adjust_stats_and_log() {
    let mut m = generate_test_minion();
    m.apply_buff(Buff::Attack(2));
    assert_eq!(m.attack, 3);
    assert_eq!(m.health, 1);
    m.apply_buff(Buff::Health(4));
    assert_eq!(m.health, 5);
    m.apply_buff(Buff::AttackHealth(1, 1));
    assert_eq!(m.attack, 4);
    assert_eq!(m.health, 6);
    m.apply_buff(Buff::GrantModifier(Modifier::Charge));
    assert!(m.has_modifier(Modifier::Charge));
    assert_eq!(m.buffs.len(), 4);
    assert_eq!(m.buffs[0], Buff::Attack(2));
    assert_eq!(m.buffs[3], Buff::GrantModifier(Modifier::Charge));
    assert_eq!(m.base_attack, 1);
    assert_eq!(m.base_health, 1);
}

#[test]
fn restore_and_reduce_health() {
    let mut m = generate_test_minion();
    m.health = -2;
    m.restore_health(5);
    assert_eq!(m.health, 3);
    m.reduce_health(4);
    assert_eq!(m.health, -1);
}

#[test]
fn reduce_health_ignores_divine_shield() {
    let mut m = generate_test_minion();
    m.add_modifier(Modifier::DivineShield);
    m.reduce_health(3);
    assert_eq!(m.health, -2);
    assert!(m.has_modifier(Modifier::DivineShield));
}

#[test]
fn reduce_attack_stops_at_zero() {
    let mut m = generate_test_minion();
    m.attack = 3;
    m.reduce_attack(1);
    assert_eq!(m.attack, 2);
    m.reduce_attack(5);
    assert_eq!(m.attack, 0);
}

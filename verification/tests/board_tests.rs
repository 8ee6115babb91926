use std::sync::Arc;

use rustfire_core::board::{Board, BoardError, HookSlot, MinionHook, PSide};
use rustfire_core::minion::Minion;
use rustfire_core::minions::generate_test_minion;

fn mk(attack: u32, health: i64) -> Minion {
    let mut m = generate_test_minion();
    m.attack = attack;
    m.health = health;
    m
}

struct NoOp;

impl MinionHook for NoOp {
    fn fire(&self, _board: &mut Board, _player: u8, _slot: usize) {}
}

struct SummonToken;

impl MinionHook for SummonToken {
    fn fire(&self, board: &mut Board, player: u8, _slot: usize) {
        let token = generate_test_minion();
        board.summon_minion(token, player, 0).unwrap();
    }
}

#[test]
fn new_board_is_empty() {
    let board = Board::new();
    assert_eq!(board.minion_count(1), Ok(0));
    assert_eq!(board.minion_count(2), Ok(0));
}

#[test]
fn invalid_player_is_rejected_for_any_state() {
    let mut board = Board::new();
    assert_eq!(board.minion_count(0), Err(BoardError::InvalidPlayer));
    assert_eq!(board.minion_count(3), Err(BoardError::InvalidPlayer));
    assert_eq!(
        board.summon_minion(generate_test_minion(), 3, 0),
        Err(BoardError::InvalidPlayer)
    );
    board.summon_minion(generate_test_minion(), 1, 0).unwrap();
    assert_eq!(board.minion_count(3), Err(BoardError::InvalidPlayer));
    assert_eq!(
        board.summon_minion(generate_test_minion(), 3, 0),
        Err(BoardError::InvalidPlayer)
    );
}

#[test]
fn summon_increments_count_and_ids_are_unique() {
    let mut board = Board::new();
    let mut ids: Vec<u128> = Vec::new();
    for k in 0..6 {
        let before = board.minion_count(1).unwrap();
        let id = board.summon_minion(generate_test_minion(), 1, k).unwrap();
        assert_eq!(board.minion_count(1).unwrap(), before + 1);
        ids.push(id);
    }
    for k in 0..4 {
        let before = board.minion_count(2).unwrap();
        let id = board.summon_minion(generate_test_minion(), 2, k).unwrap();
        assert_eq!(board.minion_count(2).unwrap(), before + 1);
        ids.push(id);
    }
    for i in 0..ids.len() {
        for j in 0..ids.len() {
            if i != j {
                assert_ne!(ids[i], ids[j]);
            }
        }
    }
}

#[test]
fn summoned_minion_carries_its_returned_id() {
    let mut board = Board::new();
    let id = board.summon_minion(generate_test_minion(), 1, 0).unwrap();
    let m = board.get_minion_clone(1, 0).unwrap().unwrap();
    assert_eq!(m.uuid, id);
}

#[test]
fn capacity_exceeded_leaves_side_unchanged() {
    let mut board = Board::new();
    for k in 0..7 {
        board.summon_minion(generate_test_minion(), 1, k).unwrap();
    }
    let before: Vec<u128> = (0..7)
        .map(|s| board.get_minion_clone(1, s).unwrap().unwrap().uuid)
        .collect();
    assert_eq!(
        board.summon_minion(generate_test_minion(), 1, 0),
        Err(BoardError::CapacityExceeded)
    );
    // A full side reports capacity first, whatever the slot.
    assert_eq!(
        board.summon_minion(generate_test_minion(), 1, 99),
        Err(BoardError::CapacityExceeded)
    );
    assert_eq!(board.minion_count(1), Ok(7));
    let after: Vec<u128> = (0..7)
        .map(|s| board.get_minion_clone(1, s).unwrap().unwrap().uuid)
        .collect();
    assert_eq!(before, after);
}

#[test]
fn summon_beyond_length_is_invalid_slot() {
    let mut board = Board::new();
    assert_eq!(
        board.summon_minion(generate_test_minion(), 1, 1),
        Err(BoardError::InvalidSlot)
    );
    assert_eq!(board.minion_count(1), Ok(0));
}

#[test]
fn scenario_lethal_cross_attack_clears_both_sides() {
    let mut board = Board::new();
    board.summon_minion(mk(2, 2), 1, 0).unwrap();
    board.summon_minion(mk(5, 1), 2, 0).unwrap();
    board.minion_attack((1, 0), (2, 0)).unwrap();
    assert_eq!(board.minion_count(1), Ok(0));
    assert_eq!(board.minion_count(2), Ok(0));
}

#[test]
fn cross_attack_damage_is_simultaneous() {
    let mut board = Board::new();
    board.summon_minion(mk(3, 5), 1, 0).unwrap();
    board.summon_minion(mk(4, 2), 2, 0).unwrap();
    board.minion_attack((1, 0), (2, 0)).unwrap();
    // The attacker survives with 5 - 4 = 1 health even though the
    // target died: the dying minion still dealt its full damage back.
    let a = board.get_minion_clone(1, 0).unwrap().unwrap();
    assert_eq!(a.health, 1);
    assert_eq!(board.minion_count(2), Ok(0));
}

#[test]
fn friendly_attack_damages_both() {
    let mut board = Board::new();
    board.summon_minion(mk(1, 5), 1, 0).unwrap();
    board.summon_minion(mk(2, 6), 1, 1).unwrap();
    board.minion_attack((1, 0), (1, 1)).unwrap();
    let a = board.get_minion_clone(1, 0).unwrap().unwrap();
    let t = board.get_minion_clone(1, 1).unwrap().unwrap();
    assert_eq!(a.health, 3);
    assert_eq!(t.health, 5);
}

#[test]
fn attack_on_empty_slot_is_minion_not_found() {
    let mut board = Board::new();
    board.summon_minion(mk(2, 2), 1, 0).unwrap();
    assert_eq!(
        board.minion_attack((1, 0), (2, 0)),
        Err(BoardError::MinionNotFound)
    );
    assert_eq!(
        board.minion_attack((2, 0), (1, 0)),
        Err(BoardError::MinionNotFound)
    );
    assert_eq!(
        board.minion_attack((1, 1), (1, 0)),
        Err(BoardError::MinionNotFound)
    );
    assert_eq!(
        board.minion_attack((1, 0), (3, 0)),
        Err(BoardError::InvalidPlayer)
    );
    assert_eq!(board.minion_count(1), Ok(1));
    let m = board.get_minion_clone(1, 0).unwrap().unwrap();
    assert_eq!(m.health, 2);
}

#[test]
fn divine_shield_survives_lethal_blow() {
    let mut board = Board::new();
    let mut shielded = mk(1, 1);
    shielded.add_modifier(rustfire_core::minion::Modifier::DivineShield);
    board.summon_minion(shielded, 1, 0).unwrap();
    board.summon_minion(mk(5, 5), 2, 0).unwrap();
    board.minion_attack((1, 0), (2, 0)).unwrap();
    let m = board.get_minion_clone(1, 0).unwrap().unwrap();
    assert_eq!(m.health, 1);
    assert!(m.modifiers.is_empty());
    let other = board.get_minion_clone(2, 0).unwrap().unwrap();
    assert_eq!(other.health, 4);
}

#[test]
fn scenario_remove_keeps_relative_order() {
    let mut side = PSide::new();
    let mut ids: Vec<u128> = Vec::new();
    for k in 0..3 {
        ids.push(side.summon_minion(generate_test_minion(), k).unwrap());
    }
    side.remove_minion(1).unwrap();
    assert_eq!(side.minion_count(), 2);
    assert_eq!(side.get_minion_clone(0).unwrap().uuid, ids[0]);
    assert_eq!(side.get_minion_clone(1).unwrap().uuid, ids[2]);
    assert!(side.get_minion_clone(2).is_none());
}

#[test]
fn side_summon_assigns_fresh_identifier() {
    let mut side = PSide::new();
    let mut handed_in = generate_test_minion();
    handed_in.uuid = 42;
    let id = side.summon_minion(handed_in, 0).unwrap();
    // The side draws the identifier itself, stores it on the minion
    // and returns it; what the caller set is overwritten.
    assert_eq!(side.get_minion_clone(0).unwrap().uuid, id);
    let mut again = generate_test_minion();
    again.uuid = 42;
    let id2 = side.summon_minion(again, 1).unwrap();
    assert_eq!(side.get_minion_clone(1).unwrap().uuid, id2);
    assert_ne!(id, id2);
}

#[test]
fn pside_errors() {
    let mut side = PSide::new();
    assert_eq!(
        side.remove_minion(0),
        Err(BoardError::InvalidSlot)
    );
    assert_eq!(
        side.summon_minion(generate_test_minion(), 1),
        Err(BoardError::InvalidSlot)
    );
    for _ in 0..7 {
        side.summon_minion(generate_test_minion(), 0).unwrap();
    }
    assert_eq!(
        side.summon_minion(generate_test_minion(), 0),
        Err(BoardError::CapacityExceeded)
    );
    assert_eq!(
        side.deal_damage_to_minion(7, 1),
        Err(BoardError::InvalidSlot)
    );
    assert_eq!(
        side.minion_attack_friendly(0, 7),
        Err(BoardError::MinionNotFound)
    );
}

#[test]
fn deal_damage_is_pure_stat_mutation() {
    let mut side = PSide::new();
    side.summon_minion(mk(1, 3), 0).unwrap();
    side.deal_damage_to_minion(0, 5).unwrap();
    // The minion is dead but still present: death handling is the
    // board's job, not the side's.
    assert_eq!(side.minion_count(), 1);
    assert_eq!(side.get_minion(0).unwrap().health, -2);
}

#[test]
fn remove_dead_is_idempotent() {
    let mut board = Board::new();
    board.summon_minion(mk(2, 2), 1, 0).unwrap();
    board.summon_minion(mk(1, 9), 1, 1).unwrap();
    board.summon_minion(mk(5, 1), 2, 0).unwrap();
    board.minion_attack((1, 0), (2, 0)).unwrap();
    assert_eq!(board.minion_count(1), Ok(1));
    assert_eq!(board.minion_count(2), Ok(0));
    let survivor = board.get_minion_clone(1, 0).unwrap().unwrap().uuid;
    board.deathrattle_dead();
    board.remove_dead();
    assert_eq!(board.minion_count(1), Ok(1));
    assert_eq!(board.minion_count(2), Ok(0));
    assert_eq!(board.get_minion_clone(1, 0).unwrap().unwrap().uuid, survivor);
}

#[test]
fn on_summon_hook_reenters_the_board() {
    let mut board = Board::new();
    let mut hooked = mk(4, 4);
    hooked.on_summon = Some(HookSlot::new(Arc::new(SummonToken)));
    let id = board.summon_minion(hooked, 1, 0).unwrap();
    // The behavior ran after the minion was committed, and summoned a
    // token into slot 0, shifting the hooked minion right.
    assert_eq!(board.minion_count(1), Ok(2));
    let token = board.get_minion_clone(1, 0).unwrap().unwrap();
    assert_eq!(token.attack, 1);
    let original = board.get_minion_clone(1, 1).unwrap().unwrap();
    assert_eq!(original.uuid, id);
    assert_ne!(token.uuid, id);
}

#[test]
fn deathrattle_fires_exactly_once() {
    let mut board = Board::new();
    let mut rattler = mk(0, 1);
    rattler.on_deathrattle = Some(HookSlot::new(Arc::new(SummonToken)));
    board.summon_minion(rattler, 1, 0).unwrap();
    board.summon_minion(mk(5, 5), 2, 0).unwrap();
    board.minion_attack((2, 0), (1, 0)).unwrap();
    // The rattler died; its deathrattle summoned one token to its side.
    assert_eq!(board.minion_count(1), Ok(1));
    assert_eq!(board.minion_count(2), Ok(1));
    // A second sweep with no new damage fires nothing new.
    board.deathrattle_dead();
    board.remove_dead();
    assert_eq!(board.minion_count(1), Ok(1));
    assert_eq!(board.minion_count(2), Ok(1));
}

#[test]
fn clone_preserves_hook_presence() {
    let mut board = Board::new();
    let mut hooked = mk(1, 1);
    hooked.on_summon = Some(HookSlot::new(Arc::new(NoOp)));
    hooked.on_deathrattle = Some(HookSlot::new(Arc::new(NoOp)));
    board.summon_minion(hooked, 1, 0).unwrap();
    let copy = board.get_minion_clone(1, 0).unwrap().unwrap();
    assert!(copy.on_summon.is_some());
    assert!(copy.on_deathrattle.is_some());
    let plain = board.summon_minion(generate_test_minion(), 1, 1);
    assert!(plain.is_ok());
    let copy2 = board.get_minion_clone(1, 1).unwrap().unwrap();
    assert!(copy2.on_summon.is_none());
}

struct Token(u32);

impl MinionHook for Token {
    fn fire(&self, board: &mut Board, player: u8, _slot: usize) {
        let token = mk(self.0, 1);
        board.summon_minion(token, player, 0).unwrap();
    }
}

#[test]
fn minion_attacking_itself_takes_own_damage() {
    let mut board = Board::new();
    board.summon_minion(mk(2, 5), 1, 0).unwrap();
    board.minion_attack((1, 0), (1, 0)).unwrap();
    let m = board.get_minion_clone(1, 0).unwrap().unwrap();
    assert_eq!(m.health, 3);
}

#[test]
fn deathrattles_fire_in_spawn_order() {
    let mut board = Board::new();
    let mut first = mk(9, 1);
    first.on_deathrattle = Some(HookSlot::new(Arc::new(Token(7))));
    let mut second = mk(9, 1);
    second.on_deathrattle = Some(HookSlot::new(Arc::new(Token(9))));
    board.summon_minion(first, 1, 0).unwrap();
    board.summon_minion(second, 1, 1).unwrap();
    // They slay each other; the sweep then fires both deathrattles in
    // spawn order. Each summons its token into slot 0, so the later
    // deathrattle's token ends up leftmost.
    board.minion_attack((1, 0), (1, 1)).unwrap();
    assert_eq!(board.minion_count(1), Ok(2));
    assert_eq!(board.get_minion_clone(1, 0).unwrap().unwrap().attack, 9);
    assert_eq!(board.get_minion_clone(1, 1).unwrap().unwrap().attack, 7);
}

#[test]
fn find_minion_tracks_identity_until_death() {
    let mut board = Board::new();
    let id1 = board.summon_minion(mk(2, 2), 1, 0).unwrap();
    let id2 = board.summon_minion(mk(5, 1), 2, 0).unwrap();
    assert_eq!(board.find_minion(id1), Some((1, 0)));
    assert_eq!(board.find_minion(id2), Some((2, 0)));
    assert_eq!(board.find_minion(id1 ^ id2 ^ 1), None);
    // A later summon at slot 0 shifts the first minion right; its
    // identity still finds it.
    let id3 = board.summon_minion(mk(1, 9), 1, 0).unwrap();
    assert_eq!(board.find_minion(id1), Some((1, 1)));
    assert_eq!(board.find_minion(id3), Some((1, 0)));
    // Both combatants die in the exchange and vanish from the board.
    board.minion_attack((1, 1), (2, 0)).unwrap();
    assert_eq!(board.find_minion(id1), None);
    assert_eq!(board.find_minion(id2), None);
    assert_eq!(board.find_minion(id3), Some((1, 0)));
}

use vstd::prelude::*;

use crate::board::{clone_hook, HookSlot};

verus! {

/// A keyword ability a minion can carry. `SpellDamage` is the one
/// parameterized keyword; every other modifier is a plain flag.
#[derive(Clone, Copy, PartialEq, Eq, Structural, Debug)]
pub enum Modifier {
    Taunt,
    DivineShield,
    Charge,
    Windfury,
    Stealth,
    Poisonous,
    Rush,
    SpellDamage(u32),
}

/// One applied stat or keyword change. The buff log on a minion is
/// append-only history: applying a buff records it and adjusts the
/// current stats, and nothing ever erases the log.
#[derive(Clone, Copy, PartialEq, Eq, Structural, Debug)]
pub enum Buff {
    Attack(u32),
    Health(u32),
    AttackHealth(u32, u32),
    GrantModifier(Modifier),
}

pub open spec fn is_spell_damage(m: Modifier) -> bool {
    m matches Modifier::SpellDamage(_)
}

/// Current health after subtracting `d`, clamped only at the machine
/// minimum. Health is deliberately not clamped at zero: a negative
/// value is the death test.
pub open spec fn sat_sub_health(h: int, d: int) -> int {
    if h - d < i64::MIN {
        i64::MIN as int
    } else {
        h - d
    }
}

/// Current health after adding `d`, clamped only at the machine maximum.
pub open spec fn sat_add_health(h: int, d: int) -> int {
    if h + d > i64::MAX {
        i64::MAX as int
    } else {
        h + d
    }
}

/// Current attack after adding `d`, clamped only at the machine maximum.
pub open spec fn sat_add_attack(a: int, d: int) -> int {
    if a + d > u32::MAX {
        u32::MAX as int
    } else {
        a + d
    }
}

/// The modifier set with every occurrence of `m` removed.
pub open spec fn without_modifier(s: Seq<Modifier>, m: Modifier) -> Seq<Modifier> {
    s.filter(|x: Modifier| x != m)
}

/// Removing `m` commutes with appending an element.
pub proof fn lemma_without_modifier_push(s: Seq<Modifier>, x: Modifier, m: Modifier)
    ensures
        without_modifier(s.push(x), m) == if x != m {
            without_modifier(s, m).push(x)
        } else {
            without_modifier(s, m)
        },
{
    broadcast use vstd::prelude::Seq::lemma_filter_push;

}

/// Sum of the amounts of every `SpellDamage` entry. Stacked spell
/// damage is additive: duplicates accumulate.
pub open spec fn spell_damage_total(s: Seq<Modifier>) -> int
    decreases s.len(),
{
    if s.len() == 0 {
        0
    } else {
        spell_damage_total(s.drop_last()) + match s.last() {
            Modifier::SpellDamage(x) => x as int,
            _ => 0,
        }
    }
}

/// The attack value that a buff log yields over a printed value.
pub open spec fn attack_after_log(base: u32, log: Seq<Buff>) -> int
    decreases log.len(),
{
    if log.len() == 0 {
        base as int
    } else {
        let prev = attack_after_log(base, log.drop_last());
        match log.last() {
            Buff::Attack(d) => sat_add_attack(prev, d as int),
            Buff::AttackHealth(d, _) => sat_add_attack(prev, d as int),
            _ => prev,
        }
    }
}

/// The health value that a buff log yields over a printed value.
pub open spec fn health_after_log(base: i64, log: Seq<Buff>) -> int
    decreases log.len(),
{
    if log.len() == 0 {
        base as int
    } else {
        let prev = health_after_log(base, log.drop_last());
        match log.last() {
            Buff::Health(d) => sat_add_health(prev, d as int),
            Buff::AttackHealth(_, d) => sat_add_health(prev, d as int),
            _ => prev,
        }
    }
}

/// Applying a buff keeps the current stats consistent with the buff
/// history: where attack and health were derivable from the printed
/// values plus the log, they still are afterwards. (Combat damage and
/// the direct stat mutators change health outside the log, so the
/// derivation holds of the buffs alone.)
pub proof fn lemma_buff_log_consistent(a: Minion, b: Minion, buff: Buff)
    requires
        buffed_rel(a, b, buff),
        a.attack == attack_after_log(a.base_attack, a.buffs@),
        a.health == health_after_log(a.base_health, a.buffs@),
    ensures
        b.attack == attack_after_log(b.base_attack, b.buffs@),
        b.health == health_after_log(b.base_health, b.buffs@),
{
    assert(b.buffs@.drop_last() =~= a.buffs@);
    assert(b.buffs@.last() == buff);
}

/// In a simultaneous exchange between two unshielded minions, each
/// minion's health drops by exactly the other's pre-attack attack
/// value: a minion that dies still deals its full damage back, and
/// neither blow is discounted by the other.
pub proof fn lemma_simultaneous_damage(a: Minion, a2: Minion, b: Minion, b2: Minion)
    requires
        damaged_rel(a, a2, b.attack),
        damaged_rel(b, b2, a.attack),
        !a.modifiers@.contains(Modifier::DivineShield),
        !b.modifiers@.contains(Modifier::DivineShield),
        a.health - b.attack >= i64::MIN,
        b.health - a.attack >= i64::MIN,
    ensures
        a2.health == a.health - b.attack,
        b2.health == b.health - a.attack,
{
}

/// One instance of a card in play: its identity, printed and current
/// stats, keyword modifiers, buff history, and attached behaviors.
pub struct Minion {
    /// Instance identity as the external catalog labels it.
    pub id: String,
    /// The board-assigned instance identifier, unique per summon.
    pub uuid: u128,
    /// Key of the card definition in the external catalog.
    pub card_id: String,
    pub name: String,
    /// Printed values, immutable once the minion is created.
    pub base_cost: u32,
    pub base_attack: u32,
    pub base_health: i64,
    /// Current values, derived from the printed values plus buffs.
    pub cost: u32,
    pub attack: u32,
    /// May go negative: health at or below zero is the death test.
    pub health: i64,
    pub modifiers: Vec<Modifier>,
    pub buffs: Vec<Buff>,
    /// Set once the deathrattle of this minion has been dispatched,
    /// so that a death is never announced twice.
    pub deathrattle_fired: bool,
    /// Fired by the board right after this minion is structurally on it.
    pub on_summon: Option<HookSlot>,
    /// Fired by the death sweep while this minion, already dead, is
    /// still on the board.
    pub on_deathrattle: Option<HookSlot>,
}

/// Agreement on every plain field; hook handles agree on presence
/// (copies of a minion share its behaviors, which carry no equality).
pub open spec fn minion_like(a: Minion, b: Minion) -> bool {
    &&& b.id == a.id
    &&& b.uuid == a.uuid
    &&& b.card_id == a.card_id
    &&& b.name == a.name
    &&& b.base_cost == a.base_cost
    &&& b.base_attack == a.base_attack
    &&& b.base_health == a.base_health
    &&& b.cost == a.cost
    &&& b.attack == a.attack
    &&& b.health == a.health
    &&& b.modifiers@ == a.modifiers@
    &&& b.buffs@ == a.buffs@
    &&& b.deathrattle_fired == a.deathrattle_fired
    &&& (b.on_summon is Some <==> a.on_summon is Some)
    &&& (b.on_deathrattle is Some <==> a.on_deathrattle is Some)
}

/// The minion as it stands on the board once the board has assigned it
/// the instance identifier `id`.
pub open spec fn with_uuid(m: Minion, id: u128) -> Minion {
    Minion { uuid: id, ..m }
}

/// The fields no stat mutation ever touches.
pub open spec fn same_static(a: Minion, b: Minion) -> bool {
    &&& b.id == a.id
    &&& b.uuid == a.uuid
    &&& b.card_id == a.card_id
    &&& b.name == a.name
    &&& b.base_cost == a.base_cost
    &&& b.base_attack == a.base_attack
    &&& b.base_health == a.base_health
    &&& b.on_summon == a.on_summon
    &&& b.on_deathrattle == a.on_deathrattle
}

/// How `take_damage` relates the minion before (`a`) to the minion
/// after (`b`): a Divine Shield absorbs the whole instance of damage
/// and is spent instead; otherwise the raw amount comes off health.
pub open spec fn damaged_rel(a: Minion, b: Minion, amount: u32) -> bool {
    &&& same_static(a, b)
    &&& b.cost == a.cost
    &&& b.attack == a.attack
    &&& b.buffs == a.buffs
    &&& b.deathrattle_fired == a.deathrattle_fired
    &&& if a.modifiers@.contains(Modifier::DivineShield) && amount > 0 {
        &&& b.health == a.health
        &&& b.modifiers@ == without_modifier(a.modifiers@, Modifier::DivineShield)
    } else {
        &&& b.health == sat_sub_health(a.health as int, amount as int)
        &&& b.modifiers@ == a.modifiers@
    }
}

/// How `apply_buff` relates the minion before to the minion after.
pub open spec fn buffed_rel(a: Minion, b: Minion, buff: Buff) -> bool {
    &&& same_static(a, b)
    &&& b.cost == a.cost
    &&& b.deathrattle_fired == a.deathrattle_fired
    &&& b.buffs@ == a.buffs@.push(buff)
    &&& match buff {
        Buff::Attack(d) => {
            &&& b.attack == sat_add_attack(a.attack as int, d as int)
            &&& b.health == a.health
            &&& b.modifiers@ == a.modifiers@
        },
        Buff::Health(d) => {
            &&& b.attack == a.attack
            &&& b.health == sat_add_health(a.health as int, d as int)
            &&& b.modifiers@ == a.modifiers@
        },
        Buff::AttackHealth(da, dh) => {
            &&& b.attack == sat_add_attack(a.attack as int, da as int)
            &&& b.health == sat_add_health(a.health as int, dh as int)
            &&& b.modifiers@ == a.modifiers@
        },
        Buff::GrantModifier(m) => {
            &&& b.attack == a.attack
            &&& b.health == a.health
            &&& b.modifiers@ == granted_modifiers(a.modifiers@, m)
        },
    }
}

/// The modifier set after granting `m`: `SpellDamage` entries stack
/// (they accumulate additively), any other modifier is a set member
/// and is added only if absent.
pub open spec fn granted_modifiers(s: Seq<Modifier>, m: Modifier) -> Seq<Modifier> {
    if is_spell_damage(m) || !s.contains(m) {
        s.push(m)
    } else {
        s
    }
}

impl Minion {
    /// A blank minion: empty identity, zero stats, no modifiers, no
    /// buffs, no hooks. The board-assigned identifier starts out as a
    /// random placeholder; the board overwrites it at summon time.
    pub fn new() -> (r: Minion)
        ensures
            r.id@ == Seq::<char>::empty(),
            r.card_id@ == Seq::<char>::empty(),
            r.name@ == Seq::<char>::empty(),
            r.base_cost == 0 && r.base_attack == 0 && r.base_health == 0,
            r.cost == 0 && r.attack == 0 && r.health == 0,
            r.modifiers@ == Seq::<Modifier>::empty(),
            r.buffs@ == Seq::<Buff>::empty(),
            !r.deathrattle_fired,
            r.on_summon is None,
            r.on_deathrattle is None,
    {
        Minion {
            id: String::new(),
            uuid: crate::board::random_uuid_bits(),
            card_id: String::new(),
            name: String::new(),
            base_cost: 0,
            base_attack: 0,
            base_health: 0,
            cost: 0,
            attack: 0,
            health: 0,
            modifiers: Vec::new(),
            buffs: Vec::new(),
            deathrattle_fired: false,
            on_summon: None,
            on_deathrattle: None,
        }
    }

    /// The canonical sample minion: a 1-cost 1/1 named "test".
    pub fn test() -> (r: Minion)
        ensures
            r.id@ == "1"@,
            r.card_id@ == "1"@,
            r.name@ == "test"@,
            r.base_cost == 1 && r.base_attack == 1 && r.base_health == 1,
            r.cost == 1 && r.attack == 1 && r.health == 1,
            r.modifiers@ == Seq::<Modifier>::empty(),
            r.buffs@ == Seq::<Buff>::empty(),
            !r.deathrattle_fired,
            r.on_summon is None,
            r.on_deathrattle is None,
    {
        let mut min = Minion::new();
        min.id = "1".to_owned();
        min.card_id = "1".to_owned();
        min.name = "test".to_owned();
        min.base_cost = 1;
        min.base_attack = 1;
        min.base_health = 1;
        min.cost = 1;
        min.attack = 1;
        min.health = 1;
        min
    }

    /// Whether the minion currently carries `m`. Pure query.
    pub fn has_modifier(&self, m: Modifier) -> (r: bool)
        ensures
            r == self.modifiers@.contains(m),
    {
        let mut i: usize = 0;
        while i < self.modifiers.len()
            invariant
                i <= self.modifiers@.len(),
                forall|j: int| 0 <= j < i ==> self.modifiers@[j] != m,
            decreases self.modifiers@.len() - i,
        {
            if self.modifiers[i] == m {
                return true;
            }
            i = i + 1;
        }
        false
    }

    /// Grants `m`. `SpellDamage` entries may stack; any other modifier
    /// is added only if not already present.
    pub fn add_modifier(&mut self, m: Modifier)
        ensures
            same_static(*old(self), *final(self)),
            final(self).cost == old(self).cost,
            final(self).attack == old(self).attack,
            final(self).health == old(self).health,
            final(self).buffs == old(self).buffs,
            final(self).deathrattle_fired == old(self).deathrattle_fired,
            final(self).modifiers@ == granted_modifiers(old(self).modifiers@, m),
    {
        let stacking = match m {
            Modifier::SpellDamage(_) => true,
            _ => false,
        };
        if stacking || !self.has_modifier(m) {
            self.modifiers.push(m);
        }
    }

    /// Removes every occurrence of `m` from the modifier set.
    pub fn remove_modifier(&mut self, m: Modifier)
        ensures
            same_static(*old(self), *final(self)),
            final(self).cost == old(self).cost,
            final(self).attack == old(self).attack,
            final(self).health == old(self).health,
            final(self).buffs == old(self).buffs,
            final(self).deathrattle_fired == old(self).deathrattle_fired,
            final(self).modifiers@ == without_modifier(old(self).modifiers@, m),
    {
        let ghost all = self.modifiers@;
        let mut kept: Vec<Modifier> = Vec::new();
        let mut i: usize = 0;
        while i < self.modifiers.len()
            invariant
                i <= all.len(),
                self.modifiers@ == all,
                kept@ == without_modifier(all.take(i as int), m),
            decreases all.len() - i,
        {
            let x = self.modifiers[i];
            proof {
                assert(all.take(i as int + 1) =~= all.take(i as int).push(all[i as int]));
                lemma_without_modifier_push(all.take(i as int), all[i as int], m);
            }
            if x != m {
                kept.push(x);
            }
            i = i + 1;
        }
        proof {
            assert(all.take(all.len() as int) =~= all);
        }
        self.modifiers = kept;
    }

    /// Clears the modifier set. The buff history stays as it is.
    pub fn remove_all_modifiers(&mut self)
        ensures
            same_static(*old(self), *final(self)),
            final(self).cost == old(self).cost,
            final(self).attack == old(self).attack,
            final(self).health == old(self).health,
            final(self).buffs == old(self).buffs,
            final(self).deathrattle_fired == old(self).deathrattle_fired,
            final(self).modifiers@ == Seq::<Modifier>::empty(),
    {
        self.modifiers = Vec::new();
    }

    /// The effective spell damage bonus: the sum of every `SpellDamage`
    /// entry (stacking is additive), clamped only at the machine maximum.
    pub fn spell_damage(&self) -> (r: u64)
        ensures
            r as int == if spell_damage_total(self.modifiers@) <= u64::MAX {
                spell_damage_total(self.modifiers@)
            } else {
                u64::MAX as int
            },
    {
        let ghost all = self.modifiers@;
        let mut acc: u64 = 0;
        let mut i: usize = 0;
        while i < self.modifiers.len()
            invariant
                i <= all.len(),
                self.modifiers@ == all,
                spell_damage_total(all.take(i as int)) >= 0,
                acc as int == if spell_damage_total(all.take(i as int)) <= u64::MAX {
                    spell_damage_total(all.take(i as int))
                } else {
                    u64::MAX as int
                },
            decreases all.len() - i,
        {
            proof {
                assert(all.take(i as int + 1).drop_last() =~= all.take(i as int));
                assert(all.take(i as int + 1).last() == all[i as int]);
            }
            let add_amount: u32 = match self.modifiers[i] {
                Modifier::SpellDamage(x) => x,
                _ => 0,
            };
            if acc <= u64::MAX - add_amount as u64 {
                acc = acc + add_amount as u64;
            } else {
                acc = u64::MAX;
            }
            i = i + 1;
        }
        proof {
            assert(all.take(all.len() as int) =~= all);
        }
        acc
    }

    /// Applies one instance of damage. A Divine Shield, if present,
    /// absorbs the whole instance and is spent instead of reducing
    /// health; otherwise health drops by `amount`, possibly below zero
    /// (the raw value is the death test), clamped only at the machine
    /// minimum.
    pub fn take_damage(&mut self, amount: u32)
        ensures
            damaged_rel(*old(self), *final(self), amount),
    {
        if amount > 0 && self.has_modifier(Modifier::DivineShield) {
            self.remove_modifier(Modifier::DivineShield);
        } else {
            if self.health >= i64::MIN + amount as i64 {
                self.health = self.health - amount as i64;
            } else {
                self.health = i64::MIN;
            }
        }
    }

    /// Raises current health by `amount`, clamped only at the machine
    /// maximum.
    pub fn restore_health(&mut self, amount: u32)
        ensures
            same_static(*old(self), *final(self)),
            final(self).cost == old(self).cost,
            final(self).attack == old(self).attack,
            final(self).modifiers == old(self).modifiers,
            final(self).buffs == old(self).buffs,
            final(self).deathrattle_fired == old(self).deathrattle_fired,
            final(self).health == sat_add_health(old(self).health as int, amount as int),
    {
        if self.health <= i64::MAX - amount as i64 {
            self.health = self.health + amount as i64;
        } else {
            self.health = i64::MAX;
        }
    }

    /// Lowers current health by `amount` directly, bypassing Divine
    /// Shield (this is a stat reduction, not an instance of damage).
    pub fn reduce_health(&mut self, amount: u32)
        ensures
            same_static(*old(self), *final(self)),
            final(self).cost == old(self).cost,
            final(self).attack == old(self).attack,
            final(self).modifiers == old(self).modifiers,
            final(self).buffs == old(self).buffs,
            final(self).deathrattle_fired == old(self).deathrattle_fired,
            final(self).health == sat_sub_health(old(self).health as int, amount as int),
    {
        if self.health >= i64::MIN + amount as i64 {
            self.health = self.health - amount as i64;
        } else {
            self.health = i64::MIN;
        }
    }

    /// Lowers current attack by `amount`, stopping at zero.
    pub fn reduce_attack(&mut self, amount: u32)
        ensures
            same_static(*old(self), *final(self)),
            final(self).cost == old(self).cost,
            final(self).health == old(self).health,
            final(self).modifiers == old(self).modifiers,
            final(self).buffs == old(self).buffs,
            final(self).deathrattle_fired == old(self).deathrattle_fired,
            final(self).attack == if old(self).attack >= amount {
                (old(self).attack - amount) as int
            } else {
                0
            },
    {
        if self.attack >= amount {
            self.attack = self.attack - amount;
        } else {
            self.attack = 0;
        }
    }

    /// Applies a buff: adjusts the current stats or grants a modifier,
    /// and appends the buff to the history log.
    pub fn apply_buff(&mut self, buff: Buff)
        ensures
            buffed_rel(*old(self), *final(self), buff),
    {
        match buff {
            Buff::Attack(d) => {
                self.raise_attack(d);
            },
            Buff::Health(d) => {
                self.raise_health(d);
            },
            Buff::AttackHealth(da, dh) => {
                self.raise_attack(da);
                self.raise_health(dh);
            },
            Buff::GrantModifier(m) => {
                self.add_modifier(m);
            },
        }
        self.buffs.push(buff);
    }

    /// A copy of this minion: equal on every plain field, sharing the
    /// same hook behaviors.
    pub(crate) fn duplicate(&self) -> (r: Minion)
        ensures
            minion_like(*self, r),
    {
        Minion {
            id: self.id.clone(),
            uuid: self.uuid,
            card_id: self.card_id.clone(),
            name: self.name.clone(),
            base_cost: self.base_cost,
            base_attack: self.base_attack,
            base_health: self.base_health,
            cost: self.cost,
            attack: self.attack,
            health: self.health,
            modifiers: copy_items(&self.modifiers),
            buffs: copy_items(&self.buffs),
            deathrattle_fired: self.deathrattle_fired,
            on_summon: clone_hook(&self.on_summon),
            on_deathrattle: clone_hook(&self.on_deathrattle),
        }
    }

    fn raise_attack(&mut self, amount: u32)
        ensures
            same_static(*old(self), *final(self)),
            final(self).cost == old(self).cost,
            final(self).health == old(self).health,
            final(self).modifiers == old(self).modifiers,
            final(self).buffs == old(self).buffs,
            final(self).deathrattle_fired == old(self).deathrattle_fired,
            final(self).attack == sat_add_attack(old(self).attack as int, amount as int),
    {
        if self.attack <= u32::MAX - amount {
            self.attack = self.attack + amount;
        } else {
            self.attack = u32::MAX;
        }
    }

    fn raise_health(&mut self, amount: u32)
        ensures
            same_static(*old(self), *final(self)),
            final(self).cost == old(self).cost,
            final(self).attack == old(self).attack,
            final(self).modifiers == old(self).modifiers,
            final(self).buffs == old(self).buffs,
            final(self).deathrattle_fired == old(self).deathrattle_fired,
            final(self).health == sat_add_health(old(self).health as int, amount as int),
    {
        if self.health <= i64::MAX - amount as i64 {
            self.health = self.health + amount as i64;
        } else {
            self.health = i64::MAX;
        }
    }
}

/// An element-wise copy of a vector of plain values.
fn copy_items<T: Copy>(v: &Vec<T>) -> (r: Vec<T>)
    ensures
        r@ == v@,
{
    let mut out: Vec<T> = Vec::new();
    let mut i: usize = 0;
    while i < v.len()
        invariant
            i <= v@.len(),
            out@ == v@.take(i as int),
        decreases v@.len() - i,
    {
        out.push(v[i]);
        proof {
            assert(v@.take(i as int + 1) =~= v@.take(i as int).push(v@[i as int]));
        }
        i = i + 1;
    }
    proof {
        assert(v@.take(v@.len() as int) =~= v@);
    }
    out
}

} // verus!

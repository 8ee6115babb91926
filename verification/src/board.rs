use vstd::prelude::*;

use std::sync::Arc;

use crate::minion::{damaged_rel, Minion};

verus! {

/// The error kinds a board operation can return. All are local and
/// non-fatal: the board is left unchanged whenever one is returned.
#[derive(Clone, Copy, PartialEq, Eq, Structural, Debug)]
pub enum BoardError {
    /// A player selector other than 1 or 2.
    InvalidPlayer,
    /// A slot index outside the valid range for its side.
    InvalidSlot,
    /// A summon was attempted on a side already holding 7 minions.
    CapacityExceeded,
    /// An attack or lookup addressed an empty slot.
    MinionNotFound,
}

/// A behavior a card attaches to its minion, fired by the board at a
/// lifecycle point. The board never inspects the behavior: it only
/// invokes it, handing it mutable access to the whole board, the
/// acting minion's player selector and its slot at dispatch time. The
/// behavior may call back into any public board operation; it is
/// external code and carries no contract of its own.
pub trait MinionHook {
    fn fire(&self, board: &mut Board, player: u8, slot: usize);
}

/// One attached behavior, held opaquely. The behavior is externally
/// supplied code whose type refers back to [`Board`], a knot the
/// verifier refuses in a field type; this wrapper hides it, so the
/// verifier sees only whether a hook is attached (`Option<HookSlot>`),
/// never what it is.
#[verifier::external_body]
pub struct HookSlot {
    inner: Arc<dyn MinionHook>,
}

impl HookSlot {
    /// Wraps an externally supplied behavior for attachment to a
    /// minion. The body only moves the handle into the opaque wrapper.
    #[verifier::external_body]
    pub fn new(behavior: Arc<dyn MinionHook>) -> HookSlot {
        HookSlot { inner: behavior }
    }
}

/// A second handle to an attached behavior. Relies on
/// alloc::sync::Arc::clone, which returns a second handle to the same
/// allocation; the body only matches the option around it.
#[verifier::external_body]
pub(crate) fn clone_hook(h: &Option<HookSlot>) -> (r: Option<HookSlot>)
    ensures
        r is Some <==> h is Some,
{
    match h {
        Some(x) => Some(HookSlot { inner: Arc::clone(&x.inner) }),
        None => None,
    }
}

/// Dispatches an attached behavior, handing it mutable access to the
/// whole board. The behavior is external code; the one clause below
/// rests not on any outside crate but on encapsulation: the board's
/// fields are private, so every board value the behavior can produce —
/// by calling the public operations, each verified to preserve
/// `Board::inv`, or by swapping in a fresh board, which `new` delivers
/// well-formed — satisfies the invariant. Nothing else is claimed: a
/// behavior may even replace the whole board.
#[verifier::external_body]
fn fire_hook(h: &HookSlot, board: &mut Board, player: u8, slot: usize)
    ensures
        old(board).inv() ==> final(board).inv(),
{
    h.inner.fire(board, player, slot)
}

/// Relies on uuid::Uuid::new_v4, a randomly generated version-4 UUID,
/// and uuid::Uuid::as_u128, its value as one 128-bit integer. The
/// result is random, so nothing is promised of it; freshness of the
/// identifiers the board hands out is established by its own verified
/// logic.
#[verifier::external_body]
pub(crate) fn random_uuid_bits() -> u128 {
    uuid::Uuid::new_v4().as_u128()
}

/// One position in a side's minion sequence.
pub enum BoardSlot {
    Minion(Minion),
    Unknown,
}

/// Whether index `i` of `s` is a filled minion slot.
pub open spec fn slot_occupied(s: Seq<BoardSlot>, i: int) -> bool {
    0 <= i < s.len() && s[i] is Minion
}

/// The minion held by a slot; meaningless for an empty slot.
pub open spec fn slot_minion(x: BoardSlot) -> Minion {
    match x {
        BoardSlot::Minion(m) => m,
        BoardSlot::Unknown => vstd::pervasive::arbitrary(),
    }
}

/// Whether `x` holds a minion whose board-assigned identifier is `id`.
pub open spec fn slot_has_uuid(x: BoardSlot, id: u128) -> bool {
    x matches BoardSlot::Minion(m) && m.uuid == id
}

/// Whether some slot of `s` holds a minion with identifier `id`.
pub open spec fn side_contains_id(s: Seq<BoardSlot>, id: u128) -> bool {
    exists|i: int| 0 <= i < s.len() && slot_has_uuid(#[trigger] s[i], id)
}

/// A slot survives the death sweep: empty slots and living minions stay.
pub open spec fn slot_alive(x: BoardSlot) -> bool {
    match x {
        BoardSlot::Minion(m) => m.health > 0,
        BoardSlot::Unknown => true,
    }
}

/// A slot holds a dead minion whose deathrattle has not been announced.
pub open spec fn slot_newly_dead(x: BoardSlot) -> bool {
    x matches BoardSlot::Minion(m) && m.health <= 0 && !m.deathrattle_fired
}

/// The slot after the death-announcement pass: a dead minion has its
/// `deathrattle_fired` flag set; everything else is untouched.
pub open spec fn mark_slot(x: BoardSlot) -> BoardSlot {
    match x {
        BoardSlot::Minion(m) => if m.health <= 0 {
            BoardSlot::Minion(Minion { deathrattle_fired: true, ..m })
        } else {
            x
        },
        BoardSlot::Unknown => x,
    }
}

/// A side after the death-announcement pass.
pub open spec fn mark_dead_seq(s: Seq<BoardSlot>) -> Seq<BoardSlot> {
    Seq::new(s.len(), |i: int| mark_slot(s[i]))
}

/// A side after dead minions are removed: living minions keep their
/// relative order and are compacted to the left.
pub open spec fn remove_dead_seq(s: Seq<BoardSlot>) -> Seq<BoardSlot> {
    s.filter(|x: BoardSlot| slot_alive(x))
}

/// The death sweep's removal commutes with appending a slot.
pub proof fn lemma_remove_dead_push(s: Seq<BoardSlot>, x: BoardSlot)
    ensures
        remove_dead_seq(s.push(x)) == if slot_alive(x) {
            remove_dead_seq(s).push(x)
        } else {
            remove_dead_seq(s)
        },
{
    broadcast use vstd::prelude::Seq::lemma_filter_push;

}

/// The identifiers of the dead, not-yet-announced minions of `s`, in
/// slot order.
pub open spec fn newly_dead_ids(s: Seq<BoardSlot>) -> Seq<u128>
    decreases s.len(),
{
    if s.len() == 0 {
        Seq::empty()
    } else {
        let rest = newly_dead_ids(s.drop_last());
        if slot_newly_dead(s.last()) {
            rest.push(slot_minion(s.last()).uuid)
        } else {
            rest
        }
    }
}

/// How a same-side attack relates the side before to the side after:
/// both minions take damage equal to the other's pre-attack attack
/// value simultaneously; a minion attacking itself takes its own. No
/// other slot changes.
pub open spec fn friendly_exchange_rel(
    pre: Seq<BoardSlot>,
    post: Seq<BoardSlot>,
    a: int,
    t: int,
) -> bool {
    &&& post.len() == pre.len()
    &&& forall|i: int| 0 <= i < pre.len() && i != a && i != t ==> post[i] == pre[i]
    &&& (a == t ==> post[a] is Minion && damaged_rel(
        slot_minion(pre[a]),
        slot_minion(post[a]),
        slot_minion(pre[a]).attack,
    ))
    &&& (a != t ==> post[a] is Minion && post[t] is Minion && damaged_rel(
        slot_minion(pre[a]),
        slot_minion(post[a]),
        slot_minion(pre[t]).attack,
    ) && damaged_rel(slot_minion(pre[t]), slot_minion(post[t]), slot_minion(pre[a]).attack))
}

/// How an opposite-side attack relates the two sides before to the two
/// sides after: the attacker (side `pre_a`, slot `a`) and the target
/// (side `pre_t`, slot `t`) each take damage equal to the other's
/// pre-attack attack value, simultaneously. No other slot changes. A
/// Divine Shield never weakens the blow its carrier deals: both
/// outgoing amounts are fixed first, and each shield then absorbs only
/// its own carrier's incoming instance.
pub open spec fn cross_exchange_rel(
    pre_a: Seq<BoardSlot>,
    post_a: Seq<BoardSlot>,
    pre_t: Seq<BoardSlot>,
    post_t: Seq<BoardSlot>,
    a: int,
    t: int,
) -> bool {
    &&& post_a.len() == pre_a.len()
    &&& post_t.len() == pre_t.len()
    &&& forall|i: int| 0 <= i < pre_a.len() && i != a ==> post_a[i] == pre_a[i]
    &&& forall|i: int| 0 <= i < pre_t.len() && i != t ==> post_t[i] == pre_t[i]
    &&& post_a[a] is Minion
    &&& post_t[t] is Minion
    &&& damaged_rel(slot_minion(pre_a[a]), slot_minion(post_a[a]), slot_minion(pre_t[t]).attack)
    &&& damaged_rel(slot_minion(pre_t[t]), slot_minion(post_t[t]), slot_minion(pre_a[a]).attack)
}

/// The combat exchange of `minion_attack`, over both sides of the
/// board: a same-player pair resolves within one side, an opposite
/// pair across the two.
pub open spec fn exchanged_sides(
    s1: Seq<BoardSlot>,
    s2: Seq<BoardSlot>,
    e1: Seq<BoardSlot>,
    e2: Seq<BoardSlot>,
    ap: u8,
    aslot: int,
    tp: u8,
    tslot: int,
) -> bool {
    if ap == tp {
        if ap == 1 {
            e2 == s2 && friendly_exchange_rel(s1, e1, aslot, tslot)
        } else {
            e1 == s1 && friendly_exchange_rel(s2, e2, aslot, tslot)
        }
    } else {
        if ap == 1 {
            cross_exchange_rel(s1, e1, s2, e2, aslot, tslot)
        } else {
            cross_exchange_rel(s2, e2, s1, e1, aslot, tslot)
        }
    }
}

/// One player's half of the board: an ordered sequence of at most 7
/// minion slots, indexed 0..6 in left-to-right play order. Order is
/// significant and is preserved across insertions and removals.
pub struct PSide {
    minionslots: Vec<BoardSlot>,
}

impl PSide {
    /// The slot sequence of this side, for specifications.
    pub closed spec fn slots(&self) -> Seq<BoardSlot> {
        self.minionslots@
    }

    /// Constructs an empty side of the board.
    pub fn new() -> (s: PSide)
        ensures
            s.slots() == Seq::<BoardSlot>::empty(),
    {
        PSide { minionslots: Vec::new() }
    }

    /// Returns the number of occupied slots on this side.
    pub fn minion_count(&self) -> (n: usize)
        ensures
            n == self.slots().len(),
    {
        self.minionslots.len()
    }

    /// Returns the minion in the given slot, or nothing if the slot is
    /// out of bounds or empty. Absence is a valid state, not an error.
    pub fn get_minion(&self, slot: usize) -> (r: Option<&Minion>)
        ensures
            match r {
                Some(m) => slot < self.slots().len() && self.slots()[slot as int] is Minion
                    && *m == slot_minion(self.slots()[slot as int]),
                None => slot >= self.slots().len() || !(self.slots()[slot as int] is Minion),
            },
    {
        if slot < self.minionslots.len() {
            match &self.minionslots[slot] {
                BoardSlot::Minion(m) => Some(m),
                BoardSlot::Unknown => None,
            }
        } else {
            None
        }
    }

    /// Returns a copy of the minion in the given slot. The copy agrees
    /// with the original on every plain field; its hook handles point
    /// to the same shared behaviors.
    pub fn get_minion_clone(&self, slot: usize) -> (r: Option<Minion>)
        ensures
            match r {
                Some(m) => slot < self.slots().len() && self.slots()[slot as int] is Minion
                    && crate::minion::minion_like(slot_minion(self.slots()[slot as int]), m),
                None => slot >= self.slots().len() || !(self.slots()[slot as int] is Minion),
            },
    {
        if slot < self.minionslots.len() {
            match &self.minionslots[slot] {
                BoardSlot::Minion(m) => Some(m.duplicate()),
                BoardSlot::Unknown => None,
            }
        } else {
            None
        }
    }

    /// Summons `minion` at `slot`, shifting existing minions right.
    /// Fails with `CapacityExceeded` on a side already holding 7
    /// minions, and with `InvalidSlot` when `slot` is beyond the
    /// current length (slots fill contiguously: this is an insertion,
    /// not sparse placement). Either failure leaves the side unchanged.
    /// On success the minion is assigned a freshly drawn instance
    /// identifier, which is stored on it and returned; nothing more is
    /// promised of the draw. Board-level summoning, which must prove
    /// its identifiers unique, places the minion through its own path
    /// instead and checks them against the record of every identifier
    /// it ever issued.
    pub fn summon_minion(&mut self, minion: Minion, slot: usize) -> (r: Result<u128, BoardError>)
        ensures
            old(self).slots().len() >= 7 ==> r == Err::<u128, BoardError>(BoardError::CapacityExceeded)
                && *final(self) == *old(self),
            old(self).slots().len() < 7 && slot > old(self).slots().len() ==> r == Err::<u128,
                BoardError,
            >(BoardError::InvalidSlot) && *final(self) == *old(self),
            old(self).slots().len() < 7 && slot <= old(self).slots().len() ==> (r matches Ok(id)
                && final(self).slots() == old(self).slots().insert(
                slot as int,
                BoardSlot::Minion(crate::minion::with_uuid(minion, id)),
            )),
    {
        if self.minionslots.len() >= 7 {
            return Err(BoardError::CapacityExceeded);
        }
        if slot > self.minionslots.len() {
            return Err(BoardError::InvalidSlot);
        }
        let id = random_uuid_bits();
        let mut m = minion;
        m.uuid = id;
        proof {
            assert(m == crate::minion::with_uuid(minion, id));
        }
        self.minionslots.insert(slot, BoardSlot::Minion(m));
        Ok(id)
    }

    /// Inserts `minion` at `slot` exactly as given, returning the
    /// identifier it already carries: the raw placement beneath
    /// board-level summoning, which assigns the identifier itself. The
    /// same validation as `summon_minion`, the same shifts, no draw.
    pub(crate) fn place_minion(&mut self, minion: Minion, slot: usize) -> (r: Result<
        u128,
        BoardError,
    >)
        ensures
            old(self).slots().len() >= 7 ==> r == Err::<u128, BoardError>(BoardError::CapacityExceeded)
                && *final(self) == *old(self),
            old(self).slots().len() < 7 && slot > old(self).slots().len() ==> r == Err::<u128,
                BoardError,
            >(BoardError::InvalidSlot) && *final(self) == *old(self),
            old(self).slots().len() < 7 && slot <= old(self).slots().len() ==> r == Ok::<u128,
                BoardError,
            >(minion.uuid) && final(self).slots() == old(self).slots().insert(
                slot as int,
                BoardSlot::Minion(minion),
            ),
    {
        if self.minionslots.len() >= 7 {
            return Err(BoardError::CapacityExceeded);
        }
        if slot > self.minionslots.len() {
            return Err(BoardError::InvalidSlot);
        }
        let id = minion.uuid;
        self.minionslots.insert(slot, BoardSlot::Minion(minion));
        Ok(id)
    }

    /// Resolves an attack between two minions of this same side. Both
    /// minions' damage-relevant state is read first and both results
    /// are written back, so the exchange is simultaneous: each takes
    /// damage equal to the other's pre-attack attack value. Fails with
    /// `MinionNotFound`, leaving the side unchanged, if either slot is
    /// empty or out of bounds.
    pub fn minion_attack_friendly(&mut self, attacker: usize, target: usize) -> (r: Result<
        (),
        BoardError,
    >)
        ensures
            !(slot_occupied(old(self).slots(), attacker as int) && slot_occupied(
                old(self).slots(),
                target as int,
            )) ==> r == Err::<(), BoardError>(BoardError::MinionNotFound) && *final(self) == *old(self),
            slot_occupied(old(self).slots(), attacker as int) && slot_occupied(
                old(self).slots(),
                target as int,
            ) ==> r == Ok::<(), BoardError>(()) && friendly_exchange_rel(
                old(self).slots(),
                final(self).slots(),
                attacker as int,
                target as int,
            ),
    {
        let a_atk: u32;
        match self.get_minion(attacker) {
            Some(m) => {
                a_atk = m.attack;
            },
            None => {
                return Err(BoardError::MinionNotFound);
            },
        }
        let t_atk: u32;
        match self.get_minion(target) {
            Some(m) => {
                t_atk = m.attack;
            },
            None => {
                return Err(BoardError::MinionNotFound);
            },
        }
        if attacker == target {
            match &mut self.minionslots[attacker] {
                BoardSlot::Minion(m) => {
                    m.take_damage(a_atk);
                },
                BoardSlot::Unknown => {},
            }
        } else {
            match &mut self.minionslots[attacker] {
                BoardSlot::Minion(m) => {
                    m.take_damage(t_atk);
                },
                BoardSlot::Unknown => {},
            }
            match &mut self.minionslots[target] {
                BoardSlot::Minion(m) => {
                    m.take_damage(a_atk);
                },
                BoardSlot::Unknown => {},
            }
        }
        Ok(())
    }

    /// Removes the slot at `slot`, shifting subsequent minions left so
    /// the remaining minions keep their relative order. Fails with
    /// `InvalidSlot`, leaving the side unchanged, if `slot` is out of
    /// range.
    pub fn remove_minion(&mut self, slot: usize) -> (r: Result<(), BoardError>)
        ensures
            slot >= old(self).slots().len() ==> r == Err::<(), BoardError>(BoardError::InvalidSlot)
                && *final(self) == *old(self),
            slot < old(self).slots().len() ==> r == Ok::<(), BoardError>(()) && final(self).slots()
                == old(self).slots().remove(slot as int),
    {
        if slot >= self.minionslots.len() {
            return Err(BoardError::InvalidSlot);
        }
        self.minionslots.remove(slot);
        Ok(())
    }

    /// Applies one instance of damage to the minion at `slot`. This is
    /// pure stat mutation: death detection and triggers are the board's
    /// responsibility. Fails with `InvalidSlot` if `slot` is out of
    /// range; an in-range empty slot is a valid no-op.
    pub fn deal_damage_to_minion(&mut self, slot: usize, damage: u32) -> (r: Result<
        (),
        BoardError,
    >)
        ensures
            slot >= old(self).slots().len() ==> r == Err::<(), BoardError>(BoardError::InvalidSlot)
                && *final(self) == *old(self),
            slot < old(self).slots().len() && !(old(self).slots()[slot as int] is Minion) ==> r
                == Ok::<(), BoardError>(()) && final(self).slots() == old(self).slots(),
            slot < old(self).slots().len() && old(self).slots()[slot as int] is Minion ==> ({
                let pre = old(self).slots();
                let post = final(self).slots();
                &&& r == Ok::<(), BoardError>(())
                &&& post.len() == pre.len()
                &&& forall|i: int| 0 <= i < pre.len() && i != slot ==> post[i] == pre[i]
                &&& post[slot as int] is Minion
                &&& damaged_rel(
                    slot_minion(pre[slot as int]),
                    slot_minion(post[slot as int]),
                    damage,
                )
            }),
    {
        if slot >= self.minionslots.len() {
            return Err(BoardError::InvalidSlot);
        }
        match &mut self.minionslots[slot] {
            BoardSlot::Minion(m) => {
                m.take_damage(damage);
            },
            BoardSlot::Unknown => {},
        }
        Ok(())
    }

    /// Sets the `deathrattle_fired` flag on every dead minion of this
    /// side and returns, in slot order, the identifiers of the minions
    /// newly marked by this pass.
    pub(crate) fn mark_dead_slots(&mut self) -> (newly: Vec<u128>)
        ensures
            final(self).slots() == mark_dead_seq(old(self).slots()),
            newly@ == newly_dead_ids(old(self).slots()),
    {
        let ghost s0 = self.minionslots@;
        let mut newly: Vec<u128> = Vec::new();
        let mut i: usize = 0;
        while i < self.minionslots.len()
            invariant
                i <= s0.len(),
                self.minionslots@.len() == s0.len(),
                forall|j: int| i <= j < s0.len() ==> self.minionslots@[j] == s0[j],
                forall|j: int| 0 <= j < i ==> self.minionslots@[j] == mark_slot(s0[j]),
                newly@ == newly_dead_ids(s0.take(i as int)),
            decreases s0.len() - i,
        {
            proof {
                assert(s0.take(i as int + 1).drop_last() =~= s0.take(i as int));
                assert(s0.take(i as int + 1).last() == s0[i as int]);
            }
            match &mut self.minionslots[i] {
                BoardSlot::Minion(m) => {
                    if m.health <= 0 {
                        let announced = m.deathrattle_fired;
                        m.deathrattle_fired = true;
                        if !announced {
                            newly.push(m.uuid);
                        }
                    }
                },
                BoardSlot::Unknown => {},
            }
            i = i + 1;
        }
        proof {
            assert(s0.take(s0.len() as int) =~= s0);
            assert(final(self).slots() =~= mark_dead_seq(s0));
        }
        newly
    }

    /// Removes every dead minion of this side, compacting the living
    /// ones to the left in their original relative order.
    pub(crate) fn remove_dead_slots(&mut self)
        ensures
            final(self).slots() == remove_dead_seq(old(self).slots()),
    {
        let ghost s0 = self.minionslots@;
        let ghost mut k: int = 0;
        let mut i: usize = 0;
        while i < self.minionslots.len()
            invariant
                0 <= k <= s0.len(),
                i == remove_dead_seq(s0.take(k)).len(),
                self.minionslots@ == remove_dead_seq(s0.take(k)) + s0.skip(k),
            decreases s0.len() - k,
        {
            proof {
                assert(s0.take(k + 1) =~= s0.take(k).push(s0[k]));
                lemma_remove_dead_push(s0.take(k), s0[k]);
                assert(self.minionslots@[i as int] == s0[k]);
            }
            let alive = match &self.minionslots[i] {
                BoardSlot::Minion(m) => m.health > 0,
                BoardSlot::Unknown => true,
            };
            if alive {
                i = i + 1;
                proof {
                    assert(self.minionslots@ =~= remove_dead_seq(s0.take(k + 1)) + s0.skip(k + 1));
                    k = k + 1;
                }
            } else {
                self.minionslots.remove(i);
                proof {
                    assert(self.minionslots@ =~= remove_dead_seq(s0.take(k + 1)) + s0.skip(k + 1));
                    k = k + 1;
                }
            }
        }
        proof {
            assert(s0.skip(k).len() == 0);
            assert(k == s0.len());
            assert(s0.take(k) =~= s0);
            assert(final(self).slots() =~= remove_dead_seq(s0));
        }
    }

    /// Finds the slot of the minion with identifier `id`, if any.
    pub(crate) fn find_by_uuid(&self, id: u128) -> (r: Option<usize>)
        ensures
            match r {
                Some(i) => i < self.slots().len() && slot_has_uuid(self.slots()[i as int], id),
                None => !side_contains_id(self.slots(), id),
            },
    {
        let mut i: usize = 0;
        while i < self.minionslots.len()
            invariant
                i <= self.slots().len(),
                forall|j: int| 0 <= j < i ==> !slot_has_uuid(self.slots()[j], id),
            decreases self.slots().len() - i,
        {
            match &self.minionslots[i] {
                BoardSlot::Minion(m) => {
                    if m.uuid == id {
                        return Some(i);
                    }
                },
                BoardSlot::Unknown => {},
            }
            i = i + 1;
        }
        None
    }
}

impl Default for PSide {
    /// An empty side, as `PSide::new` builds one.
    fn default() -> (s: PSide)
        ensures
            s.slots() == Seq::<BoardSlot>::empty(),
    {
        PSide::new()
    }
}

/// The two legal player selectors.
pub open spec fn valid_player(p: u8) -> bool {
    p == 1 || p == 2
}

/// The selector of the opposing side.
pub open spec fn other_player(p: u8) -> u8 {
    if p == 1 {
        2
    } else {
        1
    }
}

/// Whether the spawn ledger `l` records the minion `id` on side `p`.
pub open spec fn ledger_has(l: Seq<(u128, u8)>, id: u128, p: u8) -> bool {
    exists|k: int| 0 <= k < l.len() && #[trigger] l[k] == (id, p)
}

/// The spawn ledger restricted to entries whose minion is still present
/// on the recorded side (`s1` for player 1, `s2` for player 2).
pub open spec fn ledger_filtered(
    l: Seq<(u128, u8)>,
    s1: Seq<BoardSlot>,
    s2: Seq<BoardSlot>,
) -> Seq<(u128, u8)> {
    l.filter(
        |e: (u128, u8)|
            side_contains_id(
                if e.1 == 1 {
                    s1
                } else {
                    s2
                },
                e.0,
            ),
    )
}

/// The full game state of this engine: both sides, the spawn ledger,
/// and the record of every instance identifier ever handed out.
pub struct Board {
    player1: PSide,
    player2: PSide,
    /// Spawn ledger: one `(identifier, player)` entry per live minion,
    /// in spawn order. Entries leave when their minion is removed.
    minions: Vec<(u128, u8)>,
    /// Every identifier ever assigned, in order of assignment. Only
    /// ever appended to: identifiers are never reused.
    issued: Vec<u128>,
}

impl Board {
    /// The slot sequence of the selected side, for specifications.
    /// Player 1's side answers for any selector other than 2.
    pub closed spec fn side_slots(&self, player: u8) -> Seq<BoardSlot> {
        if player == 2 {
            self.player2.slots()
        } else {
            self.player1.slots()
        }
    }

    /// The spawn ledger, for specifications.
    pub closed spec fn ledger(&self) -> Seq<(u128, u8)> {
        self.minions@
    }

    /// Every instance identifier ever assigned, in assignment order.
    pub closed spec fn issued_ids(&self) -> Seq<u128> {
        self.issued@
    }

    /// The board's well-formedness invariant. It holds of every board
    /// reachable through the public operations: each side fits its 7
    /// slots; no identifier was ever assigned twice; each ledger entry
    /// names a legal side, an assigned identifier, and a minion still
    /// present on that side; no identifier has two ledger entries; every
    /// minion on the board has its ledger entry; and no two minions on
    /// the board share an identifier.
    pub open spec fn inv(&self) -> bool {
        &&& self.side_slots(1).len() <= 7
        &&& self.side_slots(2).len() <= 7
        &&& self.issued_ids().no_duplicates()
        &&& forall|k: int|
            0 <= k < self.ledger().len() ==> valid_player((#[trigger] self.ledger()[k]).1)
        &&& forall|k: int|
            0 <= k < self.ledger().len() ==> self.issued_ids().contains(
                (#[trigger] self.ledger()[k]).0,
            )
        &&& forall|k: int|
            0 <= k < self.ledger().len() ==> side_contains_id(
                self.side_slots((#[trigger] self.ledger()[k]).1),
                self.ledger()[k].0,
            )
        &&& forall|k1: int, k2: int|
            0 <= k1 < k2 < self.ledger().len() ==> (#[trigger] self.ledger()[k1]).0 != (
            #[trigger] self.ledger()[k2]).0
        &&& forall|p: u8, i: int|
            valid_player(p) && 0 <= i < self.side_slots(p).len() && (#[trigger] self.side_slots(
                p,
            )[i]) is Minion ==> ledger_has(self.ledger(), slot_minion(self.side_slots(p)[i]).uuid, p)
        &&& forall|p: u8, q: u8, i: int, j: int|
            valid_player(p) && valid_player(q) && 0 <= i < self.side_slots(p).len() && 0 <= j
                < self.side_slots(q).len() && (p != q || i != j) && (#[trigger] self.side_slots(
                p,
            )[i]) is Minion && (#[trigger] self.side_slots(q)[j]) is Minion ==> slot_minion(
                self.side_slots(p)[i],
            ).uuid != slot_minion(self.side_slots(q)[j]).uuid
    }

    /// Constructs an empty board.
    pub fn new() -> (b: Board)
        ensures
            b.side_slots(1) == Seq::<BoardSlot>::empty(),
            b.side_slots(2) == Seq::<BoardSlot>::empty(),
            b.ledger() == Seq::<(u128, u8)>::empty(),
            b.issued_ids() == Seq::<u128>::empty(),
            b.inv(),
    {
        Board {
            player1: PSide::new(),
            player2: PSide::new(),
            minions: Vec::new(),
            issued: Vec::new(),
        }
    }

    /// Summons `minion` for `player` at `slot`. Fails with
    /// `InvalidPlayer` for a selector other than 1 or 2, with
    /// `CapacityExceeded` on a side already holding 7 minions, and with
    /// `InvalidSlot` for a slot beyond the side's current length; every
    /// failure leaves the board unchanged. On success the minion gets a
    /// fresh instance identifier, never issued before by this board; it
    /// is inserted at `slot`, shifting minions right; the identifier is
    /// recorded in the spawn ledger; and only then, with the minion
    /// structurally on the board, its on-summon behavior (if any) is
    /// fired with mutable access to the whole board. The behavior may
    /// re-enter any board operation — it could even replace the whole
    /// board — so after a hooked summon only well-formedness is
    /// promised, beside the freshness of the returned identifier.
    /// Without a hook the exact new state is given.
    pub fn summon_minion(&mut self, minion: Minion, player: u8, slot: usize) -> (r: Result<
        u128,
        BoardError,
    >)
        ensures
            old(self).inv() ==> final(self).inv(),
            !valid_player(player) ==> r == Err::<u128, BoardError>(BoardError::InvalidPlayer)
                && *final(self) == *old(self),
            valid_player(player) && old(self).side_slots(player).len() >= 7 ==> r == Err::<
                u128,
                BoardError,
            >(BoardError::CapacityExceeded) && *final(self) == *old(self),
            valid_player(player) && old(self).side_slots(player).len() < 7 && slot > old(self).side_slots(player).len() ==> r == Err::<u128, BoardError>(BoardError::InvalidSlot)
                && *final(self) == *old(self),
            valid_player(player) && old(self).side_slots(player).len() < 7 && slot <= old(self).side_slots(player).len() ==> (r matches Ok(id) && ({
                let placed = crate::minion::with_uuid(minion, id);
                &&& !old(self).issued_ids().contains(id)
                &&& (minion.on_summon is None ==> final(self).side_slots(player) == old(self).side_slots(player).insert(slot as int, BoardSlot::Minion(placed)) && final(self).side_slots(other_player(player)) == old(self).side_slots(other_player(player))
                    && final(self).ledger() == old(self).ledger().push((id, player)) && final(self).issued_ids() == old(self).issued_ids().push(id))
            })),
    {
        let ghost pre = *old(self);
        if player != 1 && player != 2 {
            return Err(BoardError::InvalidPlayer);
        }
        let side_len = if player == 1 {
            self.player1.minion_count()
        } else {
            self.player2.minion_count()
        };
        if side_len >= 7 {
            return Err(BoardError::CapacityExceeded);
        }
        if slot > side_len {
            return Err(BoardError::InvalidSlot);
        }
        let id = fresh_id(&self.issued);
        self.issued.push(id);
        let hook = clone_hook(&minion.on_summon);
        let mut m = minion;
        m.uuid = id;
        proof {
            assert(m == crate::minion::with_uuid(minion, id));
        }
        let _ = if player == 1 {
            self.player1.place_minion(m, slot)
        } else {
            self.player2.place_minion(m, slot)
        };
        self.minions.push((id, player));
        proof {
            if pre.inv() {
                lemma_summon_preserves_inv(
                    pre,
                    *self,
                    id,
                    player,
                    crate::minion::with_uuid(minion, id),
                    slot as int,
                );
            }
        }
        let ghost mid = *self;
        match &hook {
            Some(h) => {
                fire_hook(h, self, player, slot);
            },
            None => {},
        }
        Ok(id)
    }

    /// Announces every death: sets the `deathrattle_fired` flag on each
    /// dead minion (current health at or below zero) of both sides, and
    /// fires the deathrattle behavior of each minion newly marked by
    /// this pass — at most once per minion, ever, thanks to the flag —
    /// in spawn order (the ledger's order), player by player as the
    /// ledger records them. Each behavior runs while its dead minion is
    /// still on the board, with mutable access to the whole board; a
    /// minion no longer present when its turn comes is skipped. With no
    /// deathrattle behaviors on the board, the exact effect is the
    /// marking alone.
    pub fn deathrattle_dead(&mut self)
        ensures
            old(self).inv() ==> final(self).inv(),
            deathrattle_free(*old(self)) ==> final(self).side_slots(1) == mark_dead_seq(
                old(self).side_slots(1),
            ) && final(self).side_slots(2) == mark_dead_seq(old(self).side_slots(2)) && final(self).ledger() == old(self).ledger() && final(self).issued_ids() == old(self).issued_ids(),
    {
        let ghost pre = *old(self);
        let newly1 = self.player1.mark_dead_slots();
        let newly2 = self.player2.mark_dead_slots();
        proof {
            assert forall|p: u8, i: int|
                valid_player(p) && 0 <= i < pre.side_slots(p).len() implies (((
            #[trigger] self.side_slots(p)[i]) is Minion) <==> pre.side_slots(p)[i] is Minion) && (
            pre.side_slots(p)[i] is Minion ==> slot_minion(self.side_slots(p)[i]).uuid
                == slot_minion(pre.side_slots(p)[i]).uuid && slot_minion(
                self.side_slots(p)[i],
            ).on_deathrattle == slot_minion(pre.side_slots(p)[i]).on_deathrattle) by {
                assert(self.side_slots(p)[i] == mark_slot(pre.side_slots(p)[i]));
            }
            if pre.inv() {
                lemma_uuid_preserving_inv(pre, *self);
            }
        }
        let ghost mid = *self;
        let ghost df = deathrattle_free(pre);
        proof {
            if df {
                assert(deathrattle_free(mid));
            }
        }
        let mut queue: Vec<(u128, u8)> = Vec::new();
        let mut i: usize = 0;
        while i < self.minions.len()
            invariant
                *self == mid,
            decreases self.minions@.len() - i,
        {
            let e = self.minions[i];
            let hit = if e.1 == 1 {
                contains_id(&newly1, e.0)
            } else {
                contains_id(&newly2, e.0)
            };
            if hit {
                queue.push(e);
            }
            i = i + 1;
        }
        let mut j: usize = 0;
        while j < queue.len()
            invariant
                pre.inv() ==> self.inv(),
                df == deathrattle_free(pre),
                df ==> *self == mid && deathrattle_free(mid),
            decreases queue@.len() - j,
        {
            let e = queue[j];
            let found = if e.1 == 1 {
                self.player1.find_by_uuid(e.0)
            } else {
                self.player2.find_by_uuid(e.0)
            };
            match found {
                Some(s) => {
                    let hook = if e.1 == 1 {
                        match self.player1.get_minion(s) {
                            Some(m) => clone_hook(&m.on_deathrattle),
                            None => None,
                        }
                    } else {
                        match self.player2.get_minion(s) {
                            Some(m) => clone_hook(&m.on_deathrattle),
                            None => None,
                        }
                    };
                    match &hook {
                        Some(h) => {
                            proof {
                                if df {
                                    let gp: u8 = if e.1 == 1 {
                                        1u8
                                    } else {
                                        2u8
                                    };
                                    assert(mid.side_slots(gp)[s as int] is Minion);
                                    assert(slot_minion(
                                        mid.side_slots(gp)[s as int],
                                    ).on_deathrattle is None);
                                    assert(false);
                                }
                            }
                            fire_hook(h, self, e.1, s);
                        },
                        None => {},
                    }
                },
                None => {},
            }
            j = j + 1;
        }
    }

    /// Removes every dead minion (current health at or below zero) from
    /// both sides, compacting the living minions leftward in their
    /// original relative order, and purges the removed minions' ledger
    /// entries. Fires nothing: announcing deathrattles is
    /// `deathrattle_dead`'s job and must precede removal. Running it
    /// again with no new damage in between finds nothing left to do.
    pub fn remove_dead(&mut self)
        ensures
            remove_dead_post(*old(self), *final(self)),
            old(self).inv() ==> final(self).inv(),
    {
        let ghost pre = *old(self);
        self.player1.remove_dead_slots();
        self.player2.remove_dead_slots();
        let ghost s1 = self.player1.slots();
        let ghost s2 = self.player2.slots();
        let ghost l0 = self.minions@;
        let mut kept: Vec<(u128, u8)> = Vec::new();
        let mut i: usize = 0;
        while i < self.minions.len()
            invariant
                i <= l0.len(),
                self.minions@ == l0,
                self.player1.slots() == s1,
                self.player2.slots() == s2,
                kept@ == ledger_filtered(l0.take(i as int), s1, s2),
            decreases l0.len() - i,
        {
            proof {
                assert(l0.take(i as int + 1) =~= l0.take(i as int).push(l0[i as int]));
                lemma_ledger_filtered_push(l0.take(i as int), l0[i as int], s1, s2);
            }
            let e = self.minions[i];
            let present = if e.1 == 1 {
                self.player1.find_by_uuid(e.0)
            } else {
                self.player2.find_by_uuid(e.0)
            };
            match present {
                Some(s) => {
                    proof {
                        let side = if e.1 == 1 {
                            s1
                        } else {
                            s2
                        };
                        assert(slot_has_uuid(side[s as int], e.0));
                        assert(side_contains_id(side, e.0));
                    }
                    kept.push(e);
                },
                None => {},
            }
            i = i + 1;
        }
        proof {
            assert(l0.take(l0.len() as int) =~= l0);
        }
        self.minions = kept;
        proof {
            if pre.inv() {
                lemma_remove_dead_preserves_inv(pre, *self);
            }
        }
    }

    /// Resolves an attack of the minion at `attacker` (a player
    /// selector and a slot) on the minion at `target`. Fails with
    /// `InvalidPlayer` unless both selectors are 1 or 2, and with
    /// `MinionNotFound` if either addressed slot is empty or out of
    /// range; every failure leaves the board unchanged. On success both
    /// minions take damage equal to the other's pre-attack attack
    /// value, simultaneously — a minion that dies still deals its full
    /// damage back — and then the death sweep runs: dead minions have
    /// their deathrattles announced and are removed, and their ledger
    /// entries are purged, before the call returns. With no deathrattle
    /// behaviors on the board the exact outcome is stated; with one, the
    /// behavior gets mutable access to the whole board and
    /// well-formedness is what remains promised.
    pub fn minion_attack(&mut self, attacker: (u8, usize), target: (u8, usize)) -> (r: Result<
        (),
        BoardError,
    >)
        ensures
            old(self).inv() ==> final(self).inv(),
            r is Err ==> *final(self) == *old(self),
            valid_player(attacker.0) && valid_player(target.0) && slot_occupied(
                old(self).side_slots(attacker.0),
                attacker.1 as int,
            ) && slot_occupied(old(self).side_slots(target.0), target.1 as int) ==> r == Ok::<
                (),
                BoardError,
            >(()),
            !(valid_player(attacker.0) && valid_player(target.0)) ==> r == Err::<(), BoardError>(
                BoardError::InvalidPlayer,
            ) && *final(self) == *old(self),
            valid_player(attacker.0) && valid_player(target.0) && !(slot_occupied(
                old(self).side_slots(attacker.0),
                attacker.1 as int,
            ) && slot_occupied(old(self).side_slots(target.0), target.1 as int)) ==> r == Err::<
                (),
                BoardError,
            >(BoardError::MinionNotFound) && *final(self) == *old(self),
            valid_player(attacker.0) && valid_player(target.0) && slot_occupied(
                old(self).side_slots(attacker.0),
                attacker.1 as int,
            ) && slot_occupied(old(self).side_slots(target.0), target.1 as int)
                && deathrattle_free(*old(self)) ==> r == Ok::<(), BoardError>(()) && attack_outcome(
                *old(self),
                *final(self),
                attacker.0,
                attacker.1 as int,
                target.0,
                target.1 as int,
            ),
    {
        let ghost pre = *old(self);
        if !((attacker.0 == 1 || attacker.0 == 2) && (target.0 == 1 || target.0 == 2)) {
            return Err(BoardError::InvalidPlayer);
        }
        if attacker.0 == target.0 {
            let res = if attacker.0 == 1 {
                self.player1.minion_attack_friendly(attacker.1, target.1)
            } else {
                self.player2.minion_attack_friendly(attacker.1, target.1)
            };
            match res {
                Err(e) => {
                    return Err(e);
                },
                Ok(_) => {},
            }
        } else {
            let a_atk: u32;
            let t_atk: u32;
            let a_found = if attacker.0 == 1 {
                self.player1.get_minion(attacker.1)
            } else {
                self.player2.get_minion(attacker.1)
            };
            match a_found {
                Some(m) => {
                    a_atk = m.attack;
                },
                None => {
                    return Err(BoardError::MinionNotFound);
                },
            }
            let t_found = if target.0 == 1 {
                self.player1.get_minion(target.1)
            } else {
                self.player2.get_minion(target.1)
            };
            match t_found {
                Some(m) => {
                    t_atk = m.attack;
                },
                None => {
                    return Err(BoardError::MinionNotFound);
                },
            }
            if attacker.0 == 1 {
                let _ = self.player1.deal_damage_to_minion(attacker.1, t_atk);
                let _ = self.player2.deal_damage_to_minion(target.1, a_atk);
            } else {
                let _ = self.player2.deal_damage_to_minion(attacker.1, t_atk);
                let _ = self.player1.deal_damage_to_minion(target.1, a_atk);
            }
        }
        let ghost ex = *self;
        proof {
            assert(exchanged_sides(
                pre.side_slots(1),
                pre.side_slots(2),
                ex.side_slots(1),
                ex.side_slots(2),
                attacker.0,
                attacker.1 as int,
                target.0,
                target.1 as int,
            ));
            assert forall|p: u8, i: int|
                valid_player(p) && 0 <= i < pre.side_slots(p).len() implies (((
            #[trigger] ex.side_slots(p)[i]) is Minion) <==> pre.side_slots(p)[i] is Minion) && (
            pre.side_slots(p)[i] is Minion ==> slot_minion(ex.side_slots(p)[i]).uuid == slot_minion(
                pre.side_slots(p)[i],
            ).uuid && slot_minion(ex.side_slots(p)[i]).on_deathrattle == slot_minion(
                pre.side_slots(p)[i],
            ).on_deathrattle) by {}
            if pre.inv() {
                lemma_uuid_preserving_inv(pre, ex);
            }
            if deathrattle_free(pre) {
                assert(deathrattle_free(ex));
            }
        }
        self.deathrattle_dead();
        let ghost md = *self;
        self.remove_dead();
        proof {
            if deathrattle_free(pre) {
                assert(md.side_slots(1) == mark_dead_seq(ex.side_slots(1)));
                assert(md.side_slots(2) == mark_dead_seq(ex.side_slots(2)));
                assert(attack_outcome(
                    pre,
                    *self,
                    attacker.0,
                    attacker.1 as int,
                    target.0,
                    target.1 as int,
                ));
            }
        }
        Ok(())
    }

    /// Finds the minion with instance identifier `id`: the side it
    /// stands on and its current slot. Absence is a valid outcome, not
    /// an error — the minion may have been removed, or never summoned.
    pub fn find_minion(&self, id: u128) -> (r: Option<(u8, usize)>)
        ensures
            match r {
                Some(ps) => valid_player(ps.0) && slot_occupied(
                    self.side_slots(ps.0),
                    ps.1 as int,
                ) && slot_minion(self.side_slots(ps.0)[ps.1 as int]).uuid == id,
                None => !side_contains_id(self.side_slots(1), id) && !side_contains_id(
                    self.side_slots(2),
                    id,
                ),
            },
    {
        match self.player1.find_by_uuid(id) {
            Some(s) => {
                return Some((1, s));
            },
            None => {},
        }
        match self.player2.find_by_uuid(id) {
            Some(s) => Some((2, s)),
            None => None,
        }
    }

    /// Returns a copy of the minion at `slot` on the selected side, as
    /// `PSide::get_minion_clone` does. Fails with `InvalidPlayer` for a
    /// selector other than 1 or 2; an empty or out-of-range slot is a
    /// valid absence, not an error.
    pub fn get_minion_clone(&self, player: u8, slot: usize) -> (r: Result<
        Option<Minion>,
        BoardError,
    >)
        ensures
            !valid_player(player) ==> r == Err::<Option<Minion>, BoardError>(
                BoardError::InvalidPlayer,
            ),
            valid_player(player) ==> (r matches Ok(o) && (match o {
                Some(m) => slot_occupied(self.side_slots(player), slot as int)
                    && crate::minion::minion_like(
                    slot_minion(self.side_slots(player)[slot as int]),
                    m,
                ),
                None => !slot_occupied(self.side_slots(player), slot as int),
            })),
    {
        match player {
            1 => Ok(self.player1.get_minion_clone(slot)),
            2 => Ok(self.player2.get_minion_clone(slot)),
            _ => Err(BoardError::InvalidPlayer),
        }
    }

    /// Counts the minions on the selected side of the board. Fails with
    /// `InvalidPlayer` for any selector other than 1 or 2.
    pub fn minion_count(&self, player: u8) -> (r: Result<usize, BoardError>)
        ensures
            valid_player(player) ==> (r matches Ok(n) && n == self.side_slots(player).len()),
            !valid_player(player) ==> r == Err::<usize, BoardError>(BoardError::InvalidPlayer),
    {
        match player {
            1 => Ok(self.player1.minion_count()),
            2 => Ok(self.player2.minion_count()),
            _ => Err(BoardError::InvalidPlayer),
        }
    }
}

/// Whether no minion on the board carries a deathrattle behavior. Where
/// this holds, the death sweep's exact effect is stated; where it does
/// not, an announced behavior gets mutable access to the whole board
/// and only well-formedness is promised.
pub open spec fn deathrattle_free(b: Board) -> bool {
    forall|p: u8, i: int|
        valid_player(p) && 0 <= i < b.side_slots(p).len() && (#[trigger] b.side_slots(
            p,
        )[i]) is Minion ==> slot_minion(b.side_slots(p)[i]).on_deathrattle is None
}

/// What a completed `minion_attack` leaves behind, when no deathrattle
/// behavior is attached: the combat exchange, then the death sweep —
/// dead minions announced and removed, their ledger entries purged.
pub open spec fn attack_outcome(
    pre: Board,
    post: Board,
    ap: u8,
    aslot: int,
    tp: u8,
    tslot: int,
) -> bool {
    exists|e1: Seq<BoardSlot>, e2: Seq<BoardSlot>|
        {
            &&& #[trigger] exchanged_sides(
                pre.side_slots(1),
                pre.side_slots(2),
                e1,
                e2,
                ap,
                aslot,
                tp,
                tslot,
            )
            &&& post.side_slots(1) == remove_dead_seq(mark_dead_seq(e1))
            &&& post.side_slots(2) == remove_dead_seq(mark_dead_seq(e2))
            &&& post.ledger() == ledger_filtered(
                pre.ledger(),
                post.side_slots(1),
                post.side_slots(2),
            )
            &&& post.issued_ids() == pre.issued_ids()
        }
}

/// What `remove_dead` does: dead minions leave both sides with the
/// survivors' order kept, the ledger keeps exactly the entries whose
/// minion is still present, and the issued record stays.
pub open spec fn remove_dead_post(pre: Board, post: Board) -> bool {
    &&& post.side_slots(1) == remove_dead_seq(pre.side_slots(1))
    &&& post.side_slots(2) == remove_dead_seq(pre.side_slots(2))
    &&& post.ledger() == ledger_filtered(pre.ledger(), post.side_slots(1), post.side_slots(2))
    &&& post.issued_ids() == pre.issued_ids()
}

/// A change that touches neither the set of filled slots nor any
/// minion's identifier — damage, announcement flags, stat or modifier
/// changes — preserves the board's well-formedness.
proof fn lemma_uuid_preserving_inv(pre: Board, mid: Board)
    requires
        pre.inv(),
        mid.ledger() == pre.ledger(),
        mid.issued_ids() == pre.issued_ids(),
        mid.side_slots(1).len() == pre.side_slots(1).len(),
        mid.side_slots(2).len() == pre.side_slots(2).len(),
        forall|p: u8, i: int|
            valid_player(p) && 0 <= i < pre.side_slots(p).len() ==> (((#[trigger] mid.side_slots(
                p,
            )[i]) is Minion) <==> pre.side_slots(p)[i] is Minion) && (pre.side_slots(
                p,
            )[i] is Minion ==> slot_minion(mid.side_slots(p)[i]).uuid == slot_minion(
                pre.side_slots(p)[i],
            ).uuid),
    ensures
        mid.inv(),
{
    assert forall|p: u8, x: u128|
        valid_player(p) && side_contains_id(pre.side_slots(p), x) implies side_contains_id(
        mid.side_slots(p),
        x,
    ) by {
        let i = choose|i: int|
            0 <= i < pre.side_slots(p).len() && slot_has_uuid(pre.side_slots(p)[i], x);
        assert(slot_has_uuid(mid.side_slots(p)[i], x));
    }
    assert forall|k: int| 0 <= k < mid.ledger().len() implies side_contains_id(
        mid.side_slots((#[trigger] mid.ledger()[k]).1),
        mid.ledger()[k].0,
    ) by {
        assert(valid_player(pre.ledger()[k].1));
        assert(side_contains_id(pre.side_slots(pre.ledger()[k].1), pre.ledger()[k].0));
    }
    assert forall|p: u8, i: int|
        valid_player(p) && 0 <= i < mid.side_slots(p).len() && (#[trigger] mid.side_slots(
            p,
        )[i]) is Minion implies ledger_has(
        mid.ledger(),
        slot_minion(mid.side_slots(p)[i]).uuid,
        p,
    ) by {
        assert(pre.side_slots(p)[i] is Minion);
        assert(ledger_has(pre.ledger(), slot_minion(pre.side_slots(p)[i]).uuid, p));
    }
    assert forall|p: u8, q: u8, i: int, j: int|
        valid_player(p) && valid_player(q) && 0 <= i < mid.side_slots(p).len() && 0 <= j
            < mid.side_slots(q).len() && (p != q || i != j) && (#[trigger] mid.side_slots(
            p,
        )[i]) is Minion && (#[trigger] mid.side_slots(q)[j]) is Minion implies slot_minion(
        mid.side_slots(p)[i],
    ).uuid != slot_minion(mid.side_slots(q)[j]).uuid by {
        assert(pre.side_slots(p)[i] is Minion);
        assert(pre.side_slots(q)[j] is Minion);
    }
}

/// Appending an entry to the ledger commutes with the liveness filter.
proof fn lemma_ledger_filtered_push(
    l: Seq<(u128, u8)>,
    e: (u128, u8),
    s1: Seq<BoardSlot>,
    s2: Seq<BoardSlot>,
)
    ensures
        ledger_filtered(l.push(e), s1, s2) == if side_contains_id(
            if e.1 == 1 {
                s1
            } else {
                s2
            },
            e.0,
        ) {
            ledger_filtered(l, s1, s2).push(e)
        } else {
            ledger_filtered(l, s1, s2)
        },
{
    broadcast use vstd::prelude::Seq::lemma_filter_push;

}

/// The liveness filter keeps ledger identifiers pairwise distinct.
proof fn lemma_ledger_filter_distinct(l: Seq<(u128, u8)>, s1: Seq<BoardSlot>, s2: Seq<BoardSlot>)
    requires
        forall|k1: int, k2: int| 0 <= k1 < k2 < l.len() ==> (#[trigger] l[k1]).0 != (
        #[trigger] l[k2]).0,
    ensures
        forall|k1: int, k2: int|
            0 <= k1 < k2 < ledger_filtered(l, s1, s2).len() ==> (#[trigger] ledger_filtered(
                l,
                s1,
                s2,
            )[k1]).0 != (#[trigger] ledger_filtered(l, s1, s2)[k2]).0,
    decreases l.len(),
{
    broadcast use vstd::prelude::Seq::lemma_filter_contains_rev;

    if l.len() > 0 {
        let dl = l.drop_last();
        assert(l == dl.push(l.last()));
        lemma_ledger_filter_distinct(dl, s1, s2);
        lemma_ledger_filtered_push(dl, l.last(), s1, s2);
        let f = ledger_filtered(l, s1, s2);
        let fd = ledger_filtered(dl, s1, s2);
        assert forall|k1: int, k2: int| 0 <= k1 < k2 < f.len() implies (#[trigger] f[k1]).0 != (
        #[trigger] f[k2]).0 by {
            if k2 < fd.len() {
                assert(f[k1] == fd[k1] && f[k2] == fd[k2]);
            } else {
                assert(f[k2] == l.last());
                assert(fd.contains(f[k1]));
                assert(dl.contains(f[k1]));
                let k0 = choose|k0: int| 0 <= k0 < dl.len() && dl[k0] == f[k1];
                assert(l[k0] == f[k1]);
                assert(l[k0].0 != l.last().0);
            }
        }
    }
}

/// The death sweep's removal keeps the identifiers of the minions on a
/// side pairwise distinct.
proof fn lemma_remove_dead_distinct(s: Seq<BoardSlot>)
    requires
        forall|i: int, j: int|
            0 <= i < j < s.len() && (#[trigger] s[i]) is Minion && (#[trigger] s[j]) is Minion
                ==> slot_minion(s[i]).uuid != slot_minion(s[j]).uuid,
    ensures
        forall|i: int, j: int|
            0 <= i < j < remove_dead_seq(s).len() && (#[trigger] remove_dead_seq(s)[i]) is Minion
                && (#[trigger] remove_dead_seq(s)[j]) is Minion ==> slot_minion(
                remove_dead_seq(s)[i],
            ).uuid != slot_minion(remove_dead_seq(s)[j]).uuid,
    decreases s.len(),
{
    broadcast use vstd::prelude::Seq::lemma_filter_contains_rev;

    if s.len() > 0 {
        let dl = s.drop_last();
        assert(s == dl.push(s.last()));
        lemma_remove_dead_distinct(dl);
        lemma_remove_dead_push(dl, s.last());
        let f = remove_dead_seq(s);
        let fd = remove_dead_seq(dl);
        assert forall|i: int, j: int|
            0 <= i < j < f.len() && (#[trigger] f[i]) is Minion && (
            #[trigger] f[j]) is Minion implies slot_minion(f[i]).uuid != slot_minion(f[j]).uuid by {
            if j < fd.len() {
                assert(f[i] == fd[i] && f[j] == fd[j]);
            } else {
                assert(f[j] == s.last());
                assert(fd.contains(f[i]));
                assert(dl.contains(f[i]));
                let k0 = choose|k0: int| 0 <= k0 < dl.len() && dl[k0] == f[i];
                assert(s[k0] == f[i]);
            }
        }
    }
}

/// The death sweep's removal preserves the board's well-formedness.
proof fn lemma_remove_dead_preserves_inv(pre: Board, mid: Board)
    requires
        pre.inv(),
        mid.side_slots(1) == remove_dead_seq(pre.side_slots(1)),
        mid.side_slots(2) == remove_dead_seq(pre.side_slots(2)),
        mid.ledger() == ledger_filtered(pre.ledger(), mid.side_slots(1), mid.side_slots(2)),
        mid.issued_ids() == pre.issued_ids(),
    ensures
        mid.inv(),
{
    broadcast use vstd::prelude::Seq::lemma_filter_len;
    broadcast use vstd::prelude::Seq::lemma_filter_pred;
    broadcast use vstd::prelude::Seq::lemma_filter_contains;
    broadcast use vstd::prelude::Seq::lemma_filter_contains_rev;

    let ll = pre.ledger();
    let ll2 = mid.ledger();

    // Each kept ledger entry is an old entry (so its player selector is
    // legal and its identifier issued), and it satisfies the liveness
    // predicate (so its minion is present on the recorded side).
    assert forall|k: int| 0 <= k < ll2.len() implies valid_player((#[trigger] ll2[k]).1)
        && mid.issued_ids().contains(ll2[k].0) && side_contains_id(
        mid.side_slots(ll2[k].1),
        ll2[k].0,
    ) by {
        assert(ll2.contains(ll2[k]));
        assert(ll.contains(ll2[k]));
        let k0 = choose|k0: int| 0 <= k0 < ll.len() && ll[k0] == ll2[k];
        assert(valid_player(ll[k0].1));
        assert(side_contains_id(
            if ll2[k].1 == 1 {
                mid.side_slots(1)
            } else {
                mid.side_slots(2)
            },
            ll2[k].0,
        ));
    }

    lemma_ledger_filter_distinct(ll, mid.side_slots(1), mid.side_slots(2));
    lemma_remove_dead_distinct(pre.side_slots(1));
    lemma_remove_dead_distinct(pre.side_slots(2));

    // Every surviving minion keeps its ledger entry: the old entry
    // passes the liveness filter because the minion is still present.
    assert forall|p: u8, i: int|
        valid_player(p) && 0 <= i < mid.side_slots(p).len() && (#[trigger] mid.side_slots(
            p,
        )[i]) is Minion implies ledger_has(
        mid.ledger(),
        slot_minion(mid.side_slots(p)[i]).uuid,
        p,
    ) by {
        let u = slot_minion(mid.side_slots(p)[i]).uuid;
        assert(side_contains_id(mid.side_slots(p), u)) by {
            assert(slot_has_uuid(mid.side_slots(p)[i], u));
        }
        assert(mid.side_slots(p).contains(mid.side_slots(p)[i]));
        assert(pre.side_slots(p).contains(mid.side_slots(p)[i]));
        let k0 = choose|k0: int|
            0 <= k0 < pre.side_slots(p).len() && pre.side_slots(p)[k0] == mid.side_slots(p)[i];
        assert(ledger_has(ll, u, p));
        let ke = choose|ke: int| 0 <= ke < ll.len() && ll[ke] == (u, p);
        assert(side_contains_id(
            if ll[ke].1 == 1 {
                mid.side_slots(1)
            } else {
                mid.side_slots(2)
            },
            ll[ke].0,
        ));
        assert(ll2.contains((u, p)));
        let kf = choose|kf: int| 0 <= kf < ll2.len() && ll2[kf] == (u, p);
    }

    // No two surviving minions share an identifier: within one side by
    // the filtered-distinctness lemma, across sides because each maps
    // back to a distinct pair of old positions.
    assert forall|p: u8, q: u8, i: int, j: int|
        valid_player(p) && valid_player(q) && 0 <= i < mid.side_slots(p).len() && 0 <= j
            < mid.side_slots(q).len() && (p != q || i != j) && (#[trigger] mid.side_slots(
            p,
        )[i]) is Minion && (#[trigger] mid.side_slots(q)[j]) is Minion implies slot_minion(
        mid.side_slots(p)[i],
    ).uuid != slot_minion(mid.side_slots(q)[j]).uuid by {
        if p != q {
            assert(mid.side_slots(p).contains(mid.side_slots(p)[i]));
            assert(mid.side_slots(q).contains(mid.side_slots(q)[j]));
            assert(pre.side_slots(p).contains(mid.side_slots(p)[i]));
            assert(pre.side_slots(q).contains(mid.side_slots(q)[j]));
            let a = choose|a: int|
                0 <= a < pre.side_slots(p).len() && pre.side_slots(p)[a] == mid.side_slots(p)[i];
            let b = choose|b: int|
                0 <= b < pre.side_slots(q).len() && pre.side_slots(q)[b] == mid.side_slots(q)[j];
        }
    }
}

/// A committed summon preserves the board's well-formedness: `mid` is
/// `pre` with a fresh identifier issued, the placed minion inserted,
/// and the ledger entry appended.
proof fn lemma_summon_preserves_inv(
    pre: Board,
    mid: Board,
    id: u128,
    player: u8,
    m: Minion,
    slot: int,
)
    requires
        pre.inv(),
        valid_player(player),
        pre.side_slots(player).len() < 7,
        0 <= slot <= pre.side_slots(player).len(),
        m.uuid == id,
        !pre.issued_ids().contains(id),
        mid.issued_ids() == pre.issued_ids().push(id),
        mid.ledger() == pre.ledger().push((id, player)),
        mid.side_slots(player) == pre.side_slots(player).insert(slot, BoardSlot::Minion(m)),
        mid.side_slots(other_player(player)) == pre.side_slots(other_player(player)),
    ensures
        mid.inv(),
{
    let li = pre.issued_ids();
    let li2 = mid.issued_ids();
    let ll = pre.ledger();
    let ll2 = mid.ledger();
    let sp = pre.side_slots(player);
    let sp2 = mid.side_slots(player);
    let op = other_player(player);

    sp.insert_ensures(slot, BoardSlot::Minion(m));

    // The issued record keeps its distinctness: the new identifier was
    // never in it.
    assert forall|i: int, j: int| 0 <= i < j < li2.len() implies li2[i] != li2[j] by {
        if j < li.len() {
            assert(li[i] != li[j]);
        } else {
            if li2[i] == id {
                assert(li[i] == id);
                assert(li.contains(id));
            }
        }
    }
    assert(li2.no_duplicates());

    // Membership in the issued record and the ledger only grows.
    assert forall|x: u128| li.contains(x) implies li2.contains(x) by {
        let k = choose|k: int| 0 <= k < li.len() && li[k] == x;
        assert(li2[k] == x);
    }
    assert forall|x: u128, p: u8| ledger_has(ll, x, p) implies ledger_has(ll2, x, p) by {
        let k = choose|k: int| 0 <= k < ll.len() && ll[k] == (x, p);
        assert(ll2[k] == (x, p));
    }
    assert(li2.contains(id)) by {
        assert(li2[li.len() as int] == id);
    }
    assert(ledger_has(ll2, id, player)) by {
        assert(ll2[ll.len() as int] == (id, player));
    }

    // A minion present on the summoning side stays present after the
    // insertion, and the placed minion is present.
    assert forall|x: u128| side_contains_id(sp, x) implies side_contains_id(sp2, x) by {
        let i = choose|i: int| 0 <= i < sp.len() && slot_has_uuid(sp[i], x);
        if i < slot {
            assert(sp2[i] == sp[i]);
        } else {
            assert(sp2[i + 1] == sp[i]);
        }
    }
    assert(side_contains_id(sp2, id)) by {
        assert(sp2[slot] == BoardSlot::Minion(m));
        assert(slot_has_uuid(sp2[slot], id));
    }

    // Every ledger entry still names a present minion and an issued,
    // pairwise-distinct identifier.
    assert forall|k: int| 0 <= k < ll2.len() implies valid_player((#[trigger] ll2[k]).1)
        && mid.issued_ids().contains(ll2[k].0) && side_contains_id(
        mid.side_slots(ll2[k].1),
        ll2[k].0,
    ) by {
        if k < ll.len() {
            assert(ll2[k] == ll[k]);
            assert(side_contains_id(pre.side_slots(ll[k].1), ll[k].0));
            if ll[k].1 == player {
                assert(side_contains_id(sp2, ll[k].0));
            } else {
                assert(mid.side_slots(ll[k].1) == pre.side_slots(ll[k].1));
            }
        } else {
            assert(ll2[k] == (id, player));
        }
    }
    assert forall|k1: int, k2: int| 0 <= k1 < k2 < ll2.len() implies (#[trigger] ll2[k1]).0 != (
    #[trigger] ll2[k2]).0 by {
        if k2 < ll.len() {
            assert(ll[k1].0 != ll[k2].0);
        } else {
            assert(ll2[k2].0 == id);
            assert(li.contains(ll[k1].0));
            if ll[k1].0 == id {
                assert(li.contains(id));
            }
        }
    }

    // Every minion on the board still has its ledger entry, and no two
    // minions share an identifier. An old minion's slot may have
    // shifted; the new minion's identifier differs from every issued
    // one, hence from every minion already present.
    assert forall|p: u8, i: int|
        valid_player(p) && 0 <= i < mid.side_slots(p).len() && (#[trigger] mid.side_slots(
            p,
        )[i]) is Minion implies ledger_has(
        mid.ledger(),
        slot_minion(mid.side_slots(p)[i]).uuid,
        p,
    ) by {
        if p == player {
            if i == slot {
                assert(mid.side_slots(p)[i] == BoardSlot::Minion(m));
            } else {
                let j = if i < slot {
                    i
                } else {
                    i - 1
                };
                assert(mid.side_slots(p)[i] == sp[j]);
                assert(ledger_has(ll, slot_minion(sp[j]).uuid, p));
            }
        } else {
            assert(mid.side_slots(p) == pre.side_slots(p));
            assert(ledger_has(ll, slot_minion(pre.side_slots(p)[i]).uuid, p));
        }
    }
    assert forall|p: u8, i: int|
        valid_player(p) && 0 <= i < pre.side_slots(p).len() && (#[trigger] pre.side_slots(
            p,
        )[i]) is Minion implies slot_minion(pre.side_slots(p)[i]).uuid != id by {
        assert(ledger_has(ll, slot_minion(pre.side_slots(p)[i]).uuid, p));
        let k = choose|k: int|
            0 <= k < ll.len() && ll[k] == (slot_minion(pre.side_slots(p)[i]).uuid, p);
        assert(li.contains(ll[k].0));
        if slot_minion(pre.side_slots(p)[i]).uuid == id {
            assert(li.contains(id));
        }
    }
    assert forall|p: u8, q: u8, i: int, j: int|
        valid_player(p) && valid_player(q) && 0 <= i < mid.side_slots(p).len() && 0 <= j
            < mid.side_slots(q).len() && (p != q || i != j) && (#[trigger] mid.side_slots(
            p,
        )[i]) is Minion && (#[trigger] mid.side_slots(q)[j]) is Minion implies slot_minion(
        mid.side_slots(p)[i],
    ).uuid != slot_minion(mid.side_slots(q)[j]).uuid by {
        let oi = if p == player && i > slot {
            i - 1
        } else {
            i
        };
        let oj = if q == player && j > slot {
            j - 1
        } else {
            j
        };
        if p == player && i == slot {
            if !(q == player && j == slot) {
                assert(mid.side_slots(q)[j] == pre.side_slots(q)[oj]);
            }
        } else if q == player && j == slot {
            assert(mid.side_slots(p)[i] == pre.side_slots(p)[oi]);
        } else {
            assert(mid.side_slots(p)[i] == pre.side_slots(p)[oi]);
            assert(mid.side_slots(q)[j] == pre.side_slots(q)[oj]);
        }
    }
}

impl Default for Board {
    /// An empty board, as `Board::new` builds one.
    fn default() -> (b: Board)
        ensures
            b.side_slots(1) == Seq::<BoardSlot>::empty(),
            b.side_slots(2) == Seq::<BoardSlot>::empty(),
            b.ledger() == Seq::<(u128, u8)>::empty(),
            b.issued_ids() == Seq::<u128>::empty(),
            b.inv(),
    {
        Board::new()
    }
}

/// After the death sweep, every slot left on a side is an empty slot or
/// a living minion: no dead minion survives the sweep.
pub proof fn lemma_sweep_removes_dead(s: Seq<BoardSlot>)
    ensures
        forall|i: int|
            0 <= i < remove_dead_seq(mark_dead_seq(s)).len() ==> slot_alive(
                #[trigger] remove_dead_seq(mark_dead_seq(s))[i],
            ),
{
    broadcast use vstd::prelude::Seq::lemma_filter_pred;

}

/// The announcement pass reaches every dead minion: afterwards each
/// minion with health at or below zero has its deathrattle flag set.
pub proof fn lemma_mark_announces_dead(s: Seq<BoardSlot>)
    ensures
        forall|i: int|
            0 <= i < mark_dead_seq(s).len() && (#[trigger] mark_dead_seq(s)[i]) is Minion
                && slot_minion(mark_dead_seq(s)[i]).health <= 0 ==> slot_minion(
                mark_dead_seq(s)[i],
            ).deathrattle_fired,
{
}

/// Removing a slot preserves the relative order of the remaining
/// minions: those left of the removed slot keep their place, those
/// right of it shift left by one, in order.
pub proof fn lemma_remove_preserves_order(s: Seq<BoardSlot>, k: int)
    requires
        0 <= k < s.len(),
    ensures
        s.remove(k).len() == s.len() - 1,
        forall|i: int| 0 <= i < k ==> #[trigger] s.remove(k)[i] == s[i],
        forall|i: int| k <= i < s.len() - 1 ==> #[trigger] s.remove(k)[i] == s[i + 1],
{
    s.remove_ensures(k);
}

/// The death sweep's removal is idempotent on a side.
pub proof fn lemma_remove_dead_seq_idempotent(s: Seq<BoardSlot>)
    ensures
        remove_dead_seq(remove_dead_seq(s)) == remove_dead_seq(s),
    decreases s.len(),
{
    if s.len() > 0 {
        let dl = s.drop_last();
        assert(s == dl.push(s.last()));
        lemma_remove_dead_seq_idempotent(dl);
        lemma_remove_dead_push(dl, s.last());
        if slot_alive(s.last()) {
            lemma_remove_dead_push(remove_dead_seq(dl), s.last());
        }
    }
}

/// The announcement pass is idempotent on a side.
pub proof fn lemma_mark_dead_seq_idempotent(s: Seq<BoardSlot>)
    ensures
        mark_dead_seq(mark_dead_seq(s)) == mark_dead_seq(s),
{
    assert(mark_dead_seq(mark_dead_seq(s)) =~= mark_dead_seq(s));
}

/// A second announcement pass announces nothing: after the marking, no
/// minion is dead and unannounced.
pub proof fn lemma_no_second_announcement(s: Seq<BoardSlot>)
    ensures
        newly_dead_ids(mark_dead_seq(s)) == Seq::<u128>::empty(),
    decreases s.len(),
{
    let ms = mark_dead_seq(s);
    if s.len() == 0 {
        assert(ms.len() == 0);
    } else {
        lemma_no_second_announcement(s.drop_last());
        assert(ms.drop_last() =~= mark_dead_seq(s.drop_last()));
        assert(!slot_newly_dead(ms.last()));
    }
}

/// A ledger whose every entry passes the liveness test is left whole by
/// the liveness filter.
proof fn lemma_ledger_filter_identity(l: Seq<(u128, u8)>, s1: Seq<BoardSlot>, s2: Seq<BoardSlot>)
    requires
        forall|k: int|
            0 <= k < l.len() ==> side_contains_id(
                if (#[trigger] l[k]).1 == 1 {
                    s1
                } else {
                    s2
                },
                l[k].0,
            ),
    ensures
        ledger_filtered(l, s1, s2) == l,
    decreases l.len(),
{
    if l.len() > 0 {
        let dl = l.drop_last();
        assert(l == dl.push(l.last()));
        assert(forall|k: int| 0 <= k < dl.len() ==> dl[k] == l[k]);
        lemma_ledger_filter_identity(dl, s1, s2);
        lemma_ledger_filtered_push(dl, l.last(), s1, s2);
        assert(ledger_filtered(l, s1, s2) =~= l);
    }
}

/// Running `remove_dead` twice in a row with no new damage in between
/// performs no mutation the second time: no minion is newly removed and
/// no ledger entry is newly purged.
pub proof fn lemma_remove_dead_idempotent(b0: Board, b1: Board, b2: Board)
    requires
        remove_dead_post(b0, b1),
        remove_dead_post(b1, b2),
    ensures
        b2.side_slots(1) == b1.side_slots(1),
        b2.side_slots(2) == b1.side_slots(2),
        b2.ledger() == b1.ledger(),
        b2.issued_ids() == b1.issued_ids(),
{
    broadcast use vstd::prelude::Seq::lemma_filter_pred;

    lemma_remove_dead_seq_idempotent(b0.side_slots(1));
    lemma_remove_dead_seq_idempotent(b0.side_slots(2));
    assert forall|k: int| 0 <= k < b1.ledger().len() implies side_contains_id(
        if (#[trigger] b1.ledger()[k]).1 == 1 {
            b2.side_slots(1)
        } else {
            b2.side_slots(2)
        },
        b1.ledger()[k].0,
    ) by {
        assert(side_contains_id(
            if b1.ledger()[k].1 == 1 {
                b1.side_slots(1)
            } else {
                b1.side_slots(2)
            },
            b1.ledger()[k].0,
        ));
    }
    lemma_ledger_filter_identity(b1.ledger(), b2.side_slots(1), b2.side_slots(2));
}

/// Instance identifiers are never reused. Every board operation leaves
/// the record of issued identifiers a prefix of what follows (an
/// attached behavior could replace the whole board, which is why the
/// growth stands here as a hypothesis), and a summon hands out only an
/// identifier absent from that record — so an identifier issued
/// earlier can never come out of a later summon.
pub proof fn lemma_ids_never_reused(b1: Board, b2: Board, id1: u128, id2: u128)
    requires
        b1.issued_ids().contains(id1),
        b1.issued_ids().is_prefix_of(b2.issued_ids()),
        !b2.issued_ids().contains(id2),
    ensures
        id1 != id2,
{
    let k = choose|k: int| 0 <= k < b1.issued_ids().len() && b1.issued_ids()[k] == id1;
    assert(b1.issued_ids() =~= b2.issued_ids().subrange(0, b1.issued_ids().len() as int));
    assert(b2.issued_ids()[k] == id1);
    assert(b2.issued_ids().contains(id1));
}

/// After a completed attack, every minion with health at or below zero
/// had its deathrattle announced and is gone: only living minions
/// remain on either side, and every ledger entry still points at a
/// minion present on its side.
pub proof fn lemma_attack_leaves_no_dead(
    pre: Board,
    post: Board,
    ap: u8,
    aslot: int,
    tp: u8,
    tslot: int,
)
    requires
        attack_outcome(pre, post, ap, aslot, tp, tslot),
    ensures
        forall|p: u8, i: int|
            valid_player(p) && 0 <= i < post.side_slots(p).len() ==> slot_alive(
                #[trigger] post.side_slots(p)[i],
            ),
        forall|k: int|
            0 <= k < post.ledger().len() ==> side_contains_id(
                post.side_slots(if (#[trigger] post.ledger()[k]).1 == 1 {
                    1
                } else {
                    2
                }),
                post.ledger()[k].0,
            ),
{
    broadcast use vstd::prelude::Seq::lemma_filter_pred;

    let (e1, e2) = choose|e1: Seq<BoardSlot>, e2: Seq<BoardSlot>|
        {
            &&& #[trigger] exchanged_sides(
                pre.side_slots(1),
                pre.side_slots(2),
                e1,
                e2,
                ap,
                aslot,
                tp,
                tslot,
            )
            &&& post.side_slots(1) == remove_dead_seq(mark_dead_seq(e1))
            &&& post.side_slots(2) == remove_dead_seq(mark_dead_seq(e2))
            &&& post.ledger() == ledger_filtered(
                pre.ledger(),
                post.side_slots(1),
                post.side_slots(2),
            )
            &&& post.issued_ids() == pre.issued_ids()
        };
    lemma_sweep_removes_dead(e1);
    lemma_sweep_removes_dead(e2);
}

/// Whether `v` holds the value `x`.
fn contains_id(v: &Vec<u128>, x: u128) -> (r: bool)
    ensures
        r == v@.contains(x),
{
    let mut i: usize = 0;
    while i < v.len()
        invariant
            i <= v@.len(),
            forall|j: int| 0 <= j < i ==> v@[j] != x,
        decreases v@.len() - i,
    {
        if v[i] == x {
            return true;
        }
        i = i + 1;
    }
    false
}

/// An identifier that was never issued before. A random draw is tried
/// first; if it collides, a fresh value is found by search, which must
/// succeed: among the first `issued.len() + 1` small values, at least
/// one cannot appear in `issued`.
fn fresh_id(issued: &Vec<u128>) -> (id: u128)
    ensures
        !issued@.contains(id),
{
    let cand = random_uuid_bits();
    if !contains_id(issued, cand) {
        return cand;
    }
    let n = issued.len();
    let mut j: usize = 0;
    while j < n
        invariant
            j <= n,
            n == issued@.len(),
            forall|k: int| 0 <= k < j ==> #[trigger] issued@.contains(k as u128),
        decreases n - j,
    {
        if !contains_id(issued, j as u128) {
            return j as u128;
        }
        j = j + 1;
    }
    proof {
        if issued@.contains(n as u128) {
            let cands = Seq::new((n + 1) as nat, |i: int| i as u128);
            assert(cands.no_duplicates()) by {
                assert(forall|a: int, b: int|
                    0 <= a < cands.len() && 0 <= b < cands.len() && a != b ==> cands[a]
                        != cands[b]);
            }
            assert(forall|i: int| 0 <= i <= n ==> #[trigger] issued@.contains(i as u128));
            assert(forall|i: int| 0 <= i < cands.len() ==> issued@.contains(#[trigger] cands[i]));
            assert(forall|x: u128| #[trigger] cands.contains(x) ==> issued@.contains(x));
            assert(cands.to_set().subset_of(issued@.to_set()));
            cands.unique_seq_to_set();
            issued@.lemma_cardinality_of_set();
            vstd::set_lib::lemma_len_subset(cands.to_set(), issued@.to_set());
            assert(false);
        }
    }
    n as u128
}

} // verus!

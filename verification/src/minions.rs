use vstd::prelude::*;

use crate::minion::{Buff, Minion, Modifier};

verus! {

/// A fully populated sample minion, as the external card catalog would
/// hand one to the board: a 1-cost 1/1 named "test" with no modifiers,
/// no buffs and no hooks. Its identifier placeholder is random; the
/// board assigns the real one at summon time.
pub fn generate_test_minion() -> (r: Minion)
    ensures
        r.id@ == "1"@,
        r.card_id@ == "1"@,
        r.name@ == "test"@,
        r.base_cost == 1 && r.base_attack == 1 && r.base_health == 1,
        r.cost == 1 && r.attack == 1 && r.health == 1,
        r.modifiers@ == Seq::<Modifier>::empty(),
        r.buffs@ == Seq::<Buff>::empty(),
        !r.deathrattle_fired,
        r.on_summon is None,
        r.on_deathrattle is None,
{
    Minion::test()
}

} // verus!


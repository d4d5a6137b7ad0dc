//! Sums of stake over sets of slots.

use crate::tower::Slot;
use vstd::prelude::*;

verus! {

/// The stake that `weights` holds for the slots of `slots`, added up.
pub open spec fn stake_of(weights: Map<Slot, usize>, slots: Set<Slot>) -> nat
    decreases slots.len(),
    when slots.finite()
{
    if slots.len() == 0 {
        0
    } else {
        let s = slots.choose();
        weights[s] as nat + stake_of(weights, slots.remove(s))
    }
}

/// Taking one slot out of a set takes its stake out of the sum.
pub proof fn lemma_stake_remove(weights: Map<Slot, usize>, slots: Set<Slot>, x: Slot)
    requires
        slots.finite(),
        slots.contains(x),
    ensures
        stake_of(weights, slots) == weights[x] + stake_of(weights, slots.remove(x)),
    decreases slots.len(),
{
    if slots.len() == 0 {
        slots.lemma_len0_is_empty();
    } else {
        let s = slots.choose();
        if s != x {
            lemma_stake_remove(weights, slots.remove(s), x);
            lemma_stake_remove(weights, slots.remove(x), s);
            assert(slots.remove(s).remove(x) =~= slots.remove(x).remove(s));
        }
    }
}

/// A new slot adds its stake to the sum.
pub proof fn lemma_stake_insert(weights: Map<Slot, usize>, slots: Set<Slot>, x: Slot)
    requires
        slots.finite(),
        !slots.contains(x),
    ensures
        stake_of(weights, slots.insert(x)) == weights[x] + stake_of(weights, slots),
{
    lemma_stake_remove(weights, slots.insert(x), x);
    assert(slots.insert(x).remove(x) =~= slots);
}

} // verus!

use vstd::prelude::*;

verus! {

/// End of a simulation step: the first `next.len()` particles (the mobile
/// ones) take their newly computed values; the others (the fixed ones) keep
/// their current values.
pub fn commit_step<T: Copy>(state: &mut Vec<T>, next: &[T])
    requires
        next@.len() <= old(state)@.len(),
    ensures
        final(state)@.len() == old(state)@.len(),
        forall|i: int| 0 <= i < next@.len() ==> #[trigger] final(state)@[i] == next@[i],
        forall|i: int| next@.len() <= i < old(state)@.len() ==> #[trigger] final(state)@[i] == old(state)@[i],
{
    let mut i: usize = 0;
    while i < next.len()
        invariant
            next@.len() <= old(state)@.len(),
            state@.len() == old(state)@.len(),
            i <= next@.len(),
            forall|k: int| 0 <= k < i ==> #[trigger] state@[k] == next@[k],
            forall|k: int| i <= k < old(state)@.len() ==> #[trigger] state@[k] == old(state)@[k],
        decreases next@.len() - i,
    {
        state.set(i, next[i]);
        i += 1;
    }
}

} // verus!

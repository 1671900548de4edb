//! The linear-congruential pseudo-random generator that drives window
//! sizing and negative-sample selection.

use vstd::prelude::*;

verus! {

/// Thread-local pseudo-random generator: the classic 48-bit style
/// linear-congruential recurrence `state * 25214903917 + 11`, kept in a
/// wrapping `i64`.
pub struct LcRandomGen {
    pub state: i64,
}

impl LcRandomGen {
    pub fn new(seed: i64) -> (r: LcRandomGen)
        ensures
            r.state == seed,
    {
        LcRandomGen { state: seed }
    }

    /// Advances the generator one step and returns the new state.
    pub fn next_rand(&mut self) -> (r: i64)
        ensures
            final(self).state == old(self).state.wrapping_mul(25214903917).wrapping_add(11),
            r == final(self).state,
    {
        self.state = self.state.wrapping_mul(25214903917).wrapping_add(11);
        self.state
    }
}

} // verus!

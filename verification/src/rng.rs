use vstd::prelude::*;

verus! {

/// A small seedable linear congruential generator: the swappable source of
/// uniform choices for random derivations. Two generators built from the
/// same seed pick the same rule sequence, which makes random derivations
/// reproducible.
pub struct Rng {
    state: u64,
}

impl Rng {
    /// A generator starting from the given seed.
    pub fn new(seed: u64) -> Rng {
        Rng { state: seed }
    }

    /// Advances the generator and hands back the upper bits of its state.
    fn next_raw(&mut self) -> u64 {
        let wide: u128 = (self.state as u128) * 6364136223846793005u128 + 1442695040888963407u128;
        self.state = #[verifier::truncate] (wide as u64);
        self.state >> 33
    }

    /// Picks a position below `n`. Nothing more is promised of the choice:
    /// callers must be correct whatever comes back.
    pub fn pick(&mut self, n: usize) -> (r: usize)
        requires
            n > 0,
        ensures
            r < n,
    {
        let v = self.next_raw();
        let m = v % (n as u64);
        m as usize
    }
}

} // verus!

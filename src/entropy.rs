//! A small deterministic source of random choices, seeded by the caller.
use vstd::prelude::*;

verus! {

pub const MULTIPLIER: u64 = 6364136223846793005;

pub const INCREMENT: u64 = 1442695040888963407;

/// The state after one draw from `s`.
pub open spec fn next_state(s: u64) -> u64 {
    s.wrapping_mul(MULTIPLIER).wrapping_add(INCREMENT)
}

/// A linear congruential generator; equal seeds give equal choices.
pub struct Entropy {
    pub state: u64,
    /// How many choices have been drawn so far.
    pub draws: Ghost<nat>,
}

impl Entropy {
    pub fn new(seed: u64) -> (r: Entropy)
        ensures
            r.state == seed,
            r.draws@ == 0,
    {
        Entropy { state: seed, draws: Ghost(0) }
    }

    /// A choice in `0..n`.
    pub fn below(&mut self, n: u64) -> (r: u64)
        requires
            n > 0,
        ensures
            r < n,
            final(self).state == next_state(old(self).state),
            r == (next_state(old(self).state) >> 33u64) % n,
            final(self).draws@ == old(self).draws@ + 1,
    {
        self.state = self.state.wrapping_mul(MULTIPLIER).wrapping_add(INCREMENT);
        self.draws = Ghost(self.draws@ + 1);
        (self.state >> 33u64) % n
    }

    /// A choice in `0..n` as an index.
    pub fn index_below(&mut self, n: usize) -> (r: usize)
        requires
            n > 0,
        ensures
            r < n,
            final(self).draws@ == old(self).draws@ + 1,
    {
        self.below(n as u64) as usize
    }

    /// A fair coin.
    pub fn coin(&mut self) -> (r: bool)
        ensures
            final(self).draws@ == old(self).draws@ + 1,
    {
        self.below(2) == 0
    }
}

} // verus!

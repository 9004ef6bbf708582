//! A Lehmer-style linear congruential generator.

use vstd::prelude::*;

verus! {

/// Multiplier of the generator.
pub const A: u64 = 16807;

/// Increment of the generator.
pub const C: u64 = 0;

/// Modulus of the generator (`i32::MAX - 1`).
pub const M: u64 = 2147483646;

/// The state that follows `s`.
pub open spec fn step(s: u64) -> u64 {
    ((s as int * A as int + C as int) % (M as int)) as u64
}

/// The state reached from `s` after `n` steps.
pub open spec fn iterate(s: u64, n: nat) -> u64
    decreases n,
{
    if n == 0 {
        s
    } else {
        step(iterate(s, (n - 1) as nat))
    }
}

/// A deterministic pseudo-random number generator.
pub struct SimpleRand {
    next: u64,
}

impl SimpleRand {
    /// Every state after construction is below the modulus, so a step never overflows.
    #[verifier::type_invariant]
    spec fn below_modulus(&self) -> bool {
        self.next < M
    }
}

/// The name the storage crate uses for the generator.
pub type Rand = SimpleRand;

impl SimpleRand {
    /// The value that the next call of `next` returns.
    pub closed spec fn state(&self) -> u64 {
        self.next
    }

    /// A generator seeded with 42.
    pub fn new() -> (r: SimpleRand)
        ensures
            r.state() == step(42),
    {
        SimpleRand::with_seed(42)
    }

    /// A generator seeded with `seed`; the seed itself is consumed once.
    pub fn with_seed(seed: u64) -> (r: SimpleRand)
        requires
            seed * A + C <= u64::MAX,
        ensures
            r.state() == step(seed),
    {
        SimpleRand { next: ((seed * A + C) % M) }
    }

    /// Returns the current state and advances the generator.
    pub fn next(&mut self) -> (r: u64)
        ensures
            r == old(self).state(),
            r < M,
            final(self).state() == step(old(self).state()),
            final(self).state() < M,
    {
        proof {
            use_type_invariant(&*self);
        }
        let res = self.next;
        self.next = (res * A + C) % M;
        res
    }

    /// The next value reduced into `0..range`.
    pub fn next_range(&mut self, range: u64) -> (r: u64)
        requires
            range > 0,
        ensures
            r == old(self).state() % range,
            final(self).state() == step(old(self).state()),
    {
        self.next() % range
    }
}

} // verus!

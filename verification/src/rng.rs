//! A tiny deterministic pseudo-random generator (xorshift64*).
//!
//! Quorum never uses wall-clock randomness. Every timeout the simulation
//! picks comes from this seeded stream, so a run with the same seed and
//! the same inputs always produces the same election, every time.

use vstd::prelude::*;

verus! {

/// The state that a zero seed is replaced by (xorshift needs a non-zero state).
pub open spec fn zero_seed_state() -> u64 {
    0x9E3779B97F4A7C15u64
}

/// The generator state that `seed` starts from.
pub open spec fn seed_state(seed: u64) -> u64 {
    if seed == 0 {
        zero_seed_state()
    } else {
        seed
    }
}

/// One xorshift64 step on the state.
pub open spec fn xorshift(x: u64) -> u64 {
    let a = x ^ (x << 13u64);
    let b = a ^ (a >> 7u64);
    b ^ (b << 17u64)
}

/// The output that xorshift64* derives from an advanced state.
pub open spec fn scramble(x: u64) -> u64 {
    x.wrapping_mul(0x2545F4914F6CDD1Du64)
}

/// The value that `range(min, max)` returns from generator state `state`.
pub open spec fn range_value(state: u64, min: u64, max: u64) -> u64 {
    if max <= min {
        min
    } else if max - min == u64::MAX {
        scramble(xorshift(state))
    } else {
        (min + scramble(xorshift(state)) % ((max - min + 1) as u64)) as u64
    }
}

/// The generator state after `range(min, max)` from state `state`:
/// unchanged when the range holds one value, else one xorshift step.
pub open spec fn range_state(state: u64, min: u64, max: u64) -> u64 {
    if max <= min {
        state
    } else {
        xorshift(state)
    }
}

/// A zero seed is replaced by a fixed non-zero state, so the stream never
/// sticks at zero: seed 0 and that state start the same stream, and every
/// seed starts from a non-zero state.
pub proof fn lemma_zero_seed_replaced(seed: u64)
    ensures
        seed_state(0) == seed_state(zero_seed_state()),
        seed_state(seed) != 0,
        seed != 0 ==> seed_state(seed) == seed,
{
}

/// Equal states draw alike: the same `range` call from the same state gives
/// the same value and the same next state.
pub proof fn lemma_same_state_same_draw(a: u64, b: u64, min: u64, max: u64)
    requires
        a == b,
    ensures
        range_value(a, min, max) == range_value(b, min, max),
        range_state(a, min, max) == range_state(b, min, max),
{
}

#[derive(Clone, Debug)]
pub struct Rng {
    state: u64,
}

impl View for Rng {
    type V = u64;

    closed spec fn view(&self) -> u64 {
        self.state
    }
}

impl Rng {
    pub fn new(seed: u64) -> (r: Self)
        ensures
            r@ == seed_state(seed),
            r@ != 0,
    {
        // xorshift64* requires a non-zero state.
        let state = if seed == 0 {
            0x9E3779B97F4A7C15
        } else {
            seed
        };
        Rng { state }
    }

    fn next_u64(&mut self) -> (r: u64)
        ensures
            final(self)@ == xorshift(old(self)@),
            r == scramble(final(self)@),
    {
        let mut x = self.state;
        x ^= x << 13;
        x ^= x >> 7;
        x ^= x << 17;
        self.state = x;
        x.wrapping_mul(0x2545F4914F6CDD1D)
    }

    /// Returns a value in `[min, max]` inclusive. Over the whole of `u64`
    /// every draw is already in range and is returned as it is.
    pub fn range(&mut self, min: u64, max: u64) -> (r: u64)
        ensures
            r == range_value(old(self)@, min, max),
            final(self)@ == range_state(old(self)@, min, max),
            min <= r,
            max <= min ==> r == min,
            min < max ==> r <= max,
    {
        if max <= min {
            return min;
        }
        if max - min == u64::MAX {
            return self.next_u64();
        }
        let span = max - min + 1;
        min + (self.next_u64() % span)
    }
}

} // verus!

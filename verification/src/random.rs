//! PCG random number generator.
//!
//! A permuted congruential generator with 64 bits of state and a 64-bit
//! stream increment. Seeding and every draw are pure integer arithmetic,
//! so the whole stream is pinned by the seed pair: the spec functions
//! below give the state transition, the output permutation, and the
//! `n`-th draw of a freshly seeded generator.

use vstd::prelude::*;

verus! {

/// Multiplier of the linear congruential state transition.
pub const PCG_MULTIPLIER: u64 = 6364136223846793005;

/// State transition: one step of the linear congruential generator,
/// modulo 2^64.
#[verifier::opaque]
pub open spec fn pcg_next_state(state: u64, inc: u64) -> u64 {
    state.wrapping_mul(PCG_MULTIPLIER).wrapping_add(inc)
}

/// Output permutation: the 32-bit value a draw returns for a given state,
/// an xorshift followed by a data-dependent right rotation.
#[verifier::opaque]
pub open spec fn pcg_output(state: u64) -> u32 {
    let xorshifted = (((state >> 18) ^ state) >> 27) as u32;
    let rot = (state >> 59) as u32;
    if rot == 0 {
        xorshifted
    } else {
        (xorshifted >> rot) | (xorshifted << (32 - rot) as u32)
    }
}

/// Increment chosen by seeding: the stream selector, always odd.
pub open spec fn pcg_seeded_inc(init_seq: u64) -> u64 {
    (init_seq << 1) | 1
}

/// State a generator holds right after seeding with `(init_state, init_seq)`.
pub open spec fn pcg_seeded_state(init_state: u64, init_seq: u64) -> u64 {
    let inc = pcg_seeded_inc(init_seq);
    pcg_next_state(pcg_next_state(0, inc).wrapping_add(init_state), inc)
}

/// State after `n` further draws.
pub open spec fn pcg_skip(state: u64, inc: u64, n: nat) -> u64
    decreases n,
{
    if n == 0 {
        state
    } else {
        pcg_skip(pcg_next_state(state, inc), inc, (n - 1) as nat)
    }
}

/// Skipping one more draw advances the final state by one step.
pub proof fn lemma_pcg_skip_snoc(state: u64, inc: u64, n: nat)
    ensures
        pcg_skip(state, inc, n + 1) == pcg_next_state(pcg_skip(state, inc, n), inc),
    decreases n,
{
    assert(pcg_skip(state, inc, (n + 1) as nat) == pcg_skip(pcg_next_state(state, inc), inc, n));
    if n > 0 {
        lemma_pcg_skip_snoc(pcg_next_state(state, inc), inc, (n - 1) as nat);
    }
}

/// The stream is memoryless: continuing for `n` draws after `m` draws
/// reaches the same state as `m + n` draws in one go. With the seeding
/// equations this fixes every draw of a seeded generator as a function
/// of the seed pair and the draw's position alone.
pub proof fn lemma_pcg_skip_add(state: u64, inc: u64, m: nat, n: nat)
    ensures
        pcg_skip(state, inc, m + n) == pcg_skip(pcg_skip(state, inc, m), inc, n),
    decreases m,
{
    if m > 0 {
        lemma_pcg_skip_add(pcg_next_state(state, inc), inc, (m - 1) as nat, n);
    }
}

/// The `n`-th value (counting from zero) drawn from a generator seeded
/// with `(init_state, init_seq)`. The whole stream is a function of the
/// seeds alone.
pub open spec fn pcg_nth(init_state: u64, init_seq: u64, n: nat) -> u32 {
    pcg_output(
        pcg_skip(pcg_seeded_state(init_state, init_seq), pcg_seeded_inc(init_seq), n),
    )
}

/// PCG random number generator.
#[derive(Clone, Copy, Debug)]
pub struct Pcg {
    state: u64,
    inc: u64,
}

impl Pcg {
    /// Current state, for specifications.
    pub closed spec fn spec_state(self) -> u64 {
        self.state
    }

    /// Stream increment, for specifications.
    pub closed spec fn spec_inc(self) -> u64 {
        self.inc
    }

    /// Seed a generator: start from state zero with the stream selector
    /// taken from `init_seq`, draw once, mix `init_state` into the state
    /// (modulo 2^64), and draw once more.
    pub fn new(init_state: u64, init_seq: u64) -> (pcg: Pcg)
        ensures
            pcg.spec_state() == pcg_seeded_state(init_state, init_seq),
            pcg.spec_inc() == pcg_seeded_inc(init_seq),
    {
        let state: u64 = 0;
        let inc: u64 = (init_seq << 1u64) | 1;
        let mut pcg = Pcg { state, inc };
        pcg.random();
        pcg.state = pcg.state.wrapping_add(init_state);
        pcg.random();
        pcg
    }

    /// Draw the next 32-bit value and advance the state by one step.
    pub fn random(&mut self) -> (r: u32)
        ensures
            final(self).spec_state() == pcg_next_state(old(self).spec_state(), old(self).spec_inc()),
            final(self).spec_inc() == old(self).spec_inc(),
            r == pcg_output(old(self).spec_state()),
    {
        proof {
            reveal(pcg_next_state);
            reveal(pcg_output);
        }
        let old_state = self.state;
        self.state = old_state.wrapping_mul(PCG_MULTIPLIER).wrapping_add(self.inc);
        let xorshifted = #[verifier::truncate] ((((old_state >> 18u64) ^ old_state) >> 27u64) as u32);
        let rot = #[verifier::truncate] ((old_state >> 59u64) as u32);
        proof {
            assert(old_state >> 59u64 < 32) by (bit_vector);
        }
        if rot == 0 {
            xorshifted
        } else {
            (xorshifted >> rot) | (xorshifted << (32 - rot))
        }
    }

    /// Current 64-bit state.
    pub fn state(&self) -> (s: u64)
        ensures
            s == self.spec_state(),
    {
        self.state
    }

    /// Stream increment chosen at seeding time.
    pub fn inc(&self) -> (i: u64)
        ensures
            i == self.spec_inc(),
    {
        self.inc
    }
}

impl Default for Pcg {
    /// The default seed pair is `(42, 54)`.
    fn default() -> (pcg: Pcg)
        ensures
            pcg.spec_state() == pcg_seeded_state(42, 54),
            pcg.spec_inc() == pcg_seeded_inc(54),
    {
        Pcg::new(42, 54)
    }
}

} // verus!


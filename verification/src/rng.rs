//! The pseudo-random generator that decides each packet.

use vstd::prelude::*;
use vstd::arithmetic::power2::pow2;

use crate::single::{fraction_of_2_24, is_nan, is_negative, value};

verus! {

/// The multiplier of the linear congruential step.
pub const MULT: u64 = 6_364_136_223_846_793_005;

/// What the seed is mixed with before the first draw.
pub const SEED_MIX: u64 = 0x853c_49e6_748f_ea9b;

/// The state of a generator: where it stands and which stream it walks.
pub struct RngState {
    pub state: u64,
    pub inc: u64,
}

/// One congruential step, modulo 2^64.
pub open spec fn advance(s: RngState) -> RngState {
    RngState { state: ((s.state * MULT + s.inc) % 0x1_0000_0000_0000_0000) as u64, inc: s.inc }
}

/// `n` congruential steps.
pub open spec fn advance_by(s: RngState, n: nat) -> RngState
    decreases n,
{
    if n == 0 {
        s
    } else {
        advance(advance_by(s, (n - 1) as nat))
    }
}

/// `x` with its low `n` bits moved to the top, for `n` below 32.
pub open spec fn rotated(x: u32, n: u32) -> u32 {
    (x >> n) | (x << ((32 - n) % 32) as u32)
}

/// The word drawn in a state: the upper bits, folded by a shift and an
/// exclusive or, and rotated by the topmost five.
pub open spec fn output(state: u64) -> u32 {
    rotated(#[verifier::truncate] ((((state >> 18) ^ state) >> 27) as u32), (state >> 59) as u32)
}

/// The state right after seeding: one step from zero on the stream that the
/// seed names, the mixed seed added in, and another step.
pub open spec fn seeded(seed: u64) -> RngState {
    let inc = (2 * (seed as int % 0x8000_0000_0000_0000) + 1) as u64;
    let first = advance(RngState { state: 0, inc });
    advance(
        RngState {
            state: ((first.state + (seed ^ SEED_MIX)) % 0x1_0000_0000_0000_0000) as u64,
            inc,
        },
    )
}

/// A word read as a number in [0, 1), by its upper 24 bits, in the unit of
/// [`value`].
pub open spec fn uniform(word: u32) -> int {
    (word as int / 256) * pow2(125)
}

/// Rotates to the right.
fn rotate_right(x: u32, n: u32) -> (r: u32)
    requires
        n < 32,
    ensures
        r == rotated(x, n),
{
    if n == 0 {
        assert((x >> 0u32) | (x << 0u32) == x) by (bit_vector);
        x
    } else {
        (x >> n) | (x << (32 - n))
    }
}

/// PCG32 (PCG-XSH-RR 64/32): deterministic from a seed, and without a heap.
pub struct Pcg32 {
    state: u64,
    inc: u64,
}

impl View for Pcg32 {
    type V = RngState;

    closed spec fn view(&self) -> RngState {
        RngState { state: self.state, inc: self.inc }
    }
}

impl Pcg32 {
    /// A generator at the start of the stream of `seed`.
    pub fn new(seed: u64) -> (rng: Self)
        ensures
            rng@ == seeded(seed),
    {
        assert((seed << 1) | 1 == 2 * (seed % 0x8000_0000_0000_0000) + 1) by (bit_vector);
        let mut rng = Pcg32 { state: 0, inc: (seed << 1) | 1 };
        let _ = rng.next_u32();
        rng.state = rng.state.wrapping_add(seed ^ SEED_MIX);
        let _ = rng.next_u32();
        rng
    }

    /// Draws a word and advances.
    pub fn next_u32(&mut self) -> (word: u32)
        ensures
            word == output(old(self)@.state),
            final(self)@ == advance(old(self)@),
    {
        let old_state: u64 = self.state;
        self.state = old_state.wrapping_mul(MULT).wrapping_add(self.inc);
        let xorshifted: u32 = #[verifier::truncate] ((((old_state >> 18) ^ old_state) >> 27) as u32);
        let rot: u32 = (old_state >> 59) as u32;
        assert(old_state >> 59 < 32) by (bit_vector);
        rotate_right(xorshifted, rot)
    }

    /// Draws a single in [0, 1) from the top 24 bits of the next word, and
    /// returns its pattern.
    pub fn next_f32(&mut self) -> (r: u32)
        ensures
            value(r) == uniform(output(old(self)@.state)),
            !is_negative(r),
            !is_nan(r),
            final(self)@ == advance(old(self)@),
    {
        let word: u32 = self.next_u32();
        assert(word >> 8 == word / 256) by (bit_vector);
        fraction_of_2_24(word >> 8)
    }
}

} // verus!

//! A tiny deterministic pseudo-random generator for election timeouts.
//!
//! Raft randomises each node's election timeout so that nodes that time out
//! together do not split the vote forever. The protocol core must nevertheless
//! be deterministic: given the same seed and the same events it always behaves
//! identically. [`Rng`] is the SplitMix64 generator, seeded explicitly, so
//! randomness is real but reproducible. It is not a cryptographic generator.

use vstd::prelude::*;

verus! {

/// The increment of the generator's state.
pub const GOLDEN_GAMMA: u64 = 0x9E37_79B9_7F4A_7C15;

/// The first multiplier of the output mix.
pub const MIX_FIRST: u64 = 0xBF58_476D_1CE4_E5B9;

/// The second multiplier of the output mix.
pub const MIX_SECOND: u64 = 0x94D0_49BB_1331_11EB;

/// A seedable SplitMix64 pseudo-random generator.
#[derive(Debug)]
pub struct Rng {
    state: u64,
}

/// The state after one step from `state`.
pub open spec fn next_state(state: u64) -> u64 {
    vstd::wrapping::u64_specs::wrapping_add(state, GOLDEN_GAMMA)
}

/// One round of the output mix: fold in the high bits, then multiply.
pub open spec fn mix_round(z: u64, shift: u64, factor: u64) -> u64 {
    vstd::wrapping::u64_specs::wrapping_mul(z ^ (z >> shift), factor)
}

/// The value the generator gives in `state`.
pub open spec fn mix(state: u64) -> u64 {
    let z = mix_round(mix_round(state, 30, MIX_FIRST), 27, MIX_SECOND);
    z ^ (z >> 31)
}

/// The value a draw from `[min, max]` gives when the generator is in `state`.
pub open spec fn drawn(state: u64, min: u32, max: u32) -> u32 {
    if max <= min {
        min
    } else {
        (min + mix(next_state(state)) as int % (max - min + 1)) as u32
    }
}

/// The generator's state after a draw from `[min, max]`: a degenerate range
/// consumes nothing.
pub open spec fn state_after_draw(state: u64, min: u32, max: u32) -> u64 {
    if max <= min {
        state
    } else {
        next_state(state)
    }
}

/// A drawn value lies in the range it was drawn from.
pub proof fn law_draw_is_in_range(state: u64, min: u32, max: u32)
    ensures
        min <= drawn(state, min, max),
        min <= max ==> drawn(state, min, max) <= max,
        max <= min ==> drawn(state, min, max) == min,
{
    if min < max {
        let span: int = max - min + 1;
        let m: int = mix(next_state(state)) as int % span;
        assert(0 <= m < span) by (nonlinear_arith)
            requires
                m == mix(next_state(state)) as int % span,
                span > 0,
        ;
    }
}

/// A draw from more than one value moves the generator on, so that the next one is
/// another draw; one from a single value does not.
pub proof fn law_a_draw_moves_the_generator_on(state: u64, min: u32, max: u32)
    ensures
        min < max <==> state_after_draw(state, min, max) != state,
        min < max ==> drawn(state, min, max) == min + mix(state_after_draw(state, min, max)) as int
            % (max - min + 1),
{
    law_draw_is_in_range(state, min, max);
    if min < max {
        let span: int = max - min + 1;
        let m: int = mix(next_state(state)) as int % span;
        assert(0 <= m < span) by (nonlinear_arith)
            requires
                m == mix(next_state(state)) as int % span,
                span > 0,
        ;
    }
}

impl View for Rng {
    type V = u64;

    closed spec fn view(&self) -> u64 {
        self.state
    }
}

impl Clone for Rng {
    fn clone(&self) -> (r: Self)
        ensures
            r@ == self@,
    {
        Rng { state: self.state }
    }
}

impl Rng {
    /// Creates a generator from `seed`. Equal seeds yield equal streams.
    pub fn new(seed: u64) -> (r: Self)
        ensures
            r@ == seed,
    {
        Rng { state: seed }
    }

    /// Returns the next 64-bit value and advances the state.
    pub fn next_u64(&mut self) -> (r: u64)
        ensures
            final(self)@ == next_state(old(self)@),
            r == mix(next_state(old(self)@)),
    {
        self.state = self.state.wrapping_add(GOLDEN_GAMMA);
        let a: u64 = self.state;
        let b: u64 = (a ^ (a >> 30)).wrapping_mul(MIX_FIRST);
        let c: u64 = (b ^ (b >> 27)).wrapping_mul(MIX_SECOND);
        c ^ (c >> 31)
    }

    /// Returns a value in the inclusive range `[min, max]`.
    ///
    /// If `max <= min` the function returns `min`, so a degenerate range is safe
    /// rather than a panic.
    pub fn gen_range(&mut self, min: u32, max: u32) -> (r: u32)
        ensures
            r == drawn(old(self)@, min, max),
            final(self)@ == state_after_draw(old(self)@, min, max),
    {
        if max <= min {
            return min;
        }
        let span: u64 = (max - min) as u64 + 1;
        let draw: u64 = self.next_u64();
        let offset: u64 = draw % span;
        proof {
            law_draw_is_in_range(old(self)@, min, max);
        }
        min + offset as u32
    }
}

} // verus!

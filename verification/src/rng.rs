//! SplitMix64 — the bot-side RNG (agent decisions, arena scheduling).
//! Distinct from the battle PRNG on purpose: bot randomness must never
//! consume battle PRNG state.

use vstd::prelude::*;
use vstd::wrapping::u64_specs;

use crate::text::{decimal, push_char, push_decimal};

verus! {

/// The Weyl-sequence increment added to the state on every draw.
pub const GAMMA: u64 = 0x9E37_79B9_7F4A_7C15;
/// First finalizer multiplier.
pub const MIX1: u64 = 0xBF58_476D_1CE4_E5B9;
/// Second finalizer multiplier.
pub const MIX2: u64 = 0x94D0_49BB_1331_11EB;

/// The state after one draw.
pub open spec fn advance(state: u64) -> u64 {
    u64_specs::wrapping_add(state, GAMMA)
}

/// The output drawn from an (already advanced) state.
pub open spec fn mix(z: u64) -> u64 {
    let a = u64_specs::wrapping_mul(z ^ (z >> 30u64), MIX1);
    let b = u64_specs::wrapping_mul(a ^ (a >> 27u64), MIX2);
    b ^ (b >> 31u64)
}

/// The four 16-bit limbs of `v`, most significant first, rendered as PS
/// `Gen5RNG.getSeed()` does: decimal, comma separated.
pub open spec fn seed_string(v: u64) -> Seq<char> {
    decimal(((v >> 48u64) & 0xffff) as nat) + seq![','] + decimal(((v >> 32u64) & 0xffff) as nat)
        + seq![','] + decimal(((v >> 16u64) & 0xffff) as nat) + seq![','] + decimal(
        (v & 0xffff) as nat,
    )
}

#[derive(Clone, Debug)]
pub struct SplitMix64(pub u64);

impl SplitMix64 {
    pub fn new(seed: u64) -> (r: Self)
        ensures
            r.0 == seed,
    {
        SplitMix64(seed)
    }

    pub fn next(&mut self) -> (out: u64)
        ensures
            final(self).0 == advance(old(self).0),
            out == mix(final(self).0),
    {
        self.0 = self.0.wrapping_add(GAMMA);
        let mut z = self.0;
        z = (z ^ (z >> 30)).wrapping_mul(MIX1);
        z = (z ^ (z >> 27)).wrapping_mul(MIX2);
        z ^ (z >> 31)
    }

    /// Uniform in `0..n` (n > 0).
    pub fn below(&mut self, n: usize) -> (out: usize)
        requires
            n > 0,
        ensures
            final(self).0 == advance(old(self).0),
            out as int == mix(final(self).0) as int % n as int,
            out < n,
    {
        let v = self.next();
        let m = n as u64;
        (v % m) as usize
    }

    /// A battle seed string in PS `Gen5RNG.getSeed()` format
    /// (four decimal 16-bit limbs).
    pub fn battle_seed(&mut self) -> (s: String)
        ensures
            final(self).0 == advance(old(self).0),
            s@ == seed_string(mix(final(self).0)),
    {
        let v = self.next();
        let mut s = String::new();
        push_decimal(&mut s, (v >> 48) & 0xffff);
        push_char(&mut s, ',');
        push_decimal(&mut s, (v >> 32) & 0xffff);
        push_char(&mut s, ',');
        push_decimal(&mut s, (v >> 16) & 0xffff);
        push_char(&mut s, ',');
        push_decimal(&mut s, v & 0xffff);
        proof {
            assert(s@ =~= seed_string(v));
        }
        s
    }
}

} // verus!

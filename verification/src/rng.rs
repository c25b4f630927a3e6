//! Deterministic pseudorandom source.
//!
//! A 128-bit xorshift-with-addition generator seeded from a 64-bit user
//! value. The seed is combined with two fixed, named salt constants so that
//! two streams keyed from the same nominal seed elsewhere cannot collide
//! with this one by accident, and so that the derived state is never the
//! all-zero state the generator cannot leave. Every step is an exact
//! integer computation: the state after a draw and the value drawn are spec
//! functions of the state before it, which makes the whole synthesis
//! pipeline reproducible bit for bit under a fixed seed.

use vstd::prelude::*;

use crate::fixed::Fx;
use crate::fixed::SCALE;

verus! {

/// Salt folded into the low word of the initial state.
pub const SALT_LO: u64 = 0x12345678;

/// Salt folded into the high word of the initial state.
pub const SALT_HI: u64 = 0x87654321;

/// A deterministic pseudorandom source: the state of a xorshift generator
/// with 128 bits of state and an additive output scrambler.
#[derive(Clone, Copy, Debug, PartialEq, Eq, Structural)]
pub struct Source {
    pub lo: u64,
    pub hi: u64,
}

/// The scrambled word that one generator step derives from the state.
pub open spec fn spec_mix(s: Source) -> u64 {
    let a = s.lo ^ (s.lo << 23);
    let b = a ^ (a >> 17);
    b ^ s.hi ^ (s.hi >> 26)
}

/// The state after one draw.
pub open spec fn spec_step(s: Source) -> Source {
    Source { lo: s.hi, hi: spec_mix(s) }
}

/// The 64-bit word one draw returns: the scrambled word plus the high
/// state word, wrapping modulo `2^64`.
pub open spec fn spec_word(s: Source) -> u64 {
    (((spec_mix(s) as int) + (s.hi as int)) % 0x1_0000_0000_0000_0000int) as u64
}

/// The unit-interval value one draw returns: the top 32 bits of the drawn
/// word, read as a fixed-point number in `[0, 1)`.
pub open spec fn spec_unit(s: Source) -> u64 {
    spec_word(s) / SCALE
}

/// The state after `n` draws.
pub open spec fn spec_step_n(s: Source, n: nat) -> Source
    decreases n,
{
    if n == 0 {
        s
    } else {
        spec_step(spec_step_n(s, (n - 1) as nat))
    }
}

impl Source {
    /// Derive the initial generator state from a 64-bit user seed by
    /// folding the two salt constants into it. The two state words can
    /// never both be zero, since the salts differ.
    pub fn seed(value: u64) -> (s: Source)
        ensures
            s.lo == value ^ SALT_LO,
            s.hi == value ^ SALT_HI,
            s.lo != 0 || s.hi != 0,
    {
        let s = Source { lo: value ^ SALT_LO, hi: value ^ SALT_HI };
        proof {
            let a = value ^ 0x12345678u64;
            let b = value ^ 0x87654321u64;
            assert(a != 0 || b != 0) by (bit_vector)
                requires
                    a == value ^ 0x12345678u64,
                    b == value ^ 0x87654321u64;
        }
        s
    }

    /// Advance the generator one step and return the drawn 64-bit word.
    pub fn next_word(&mut self) -> (r: u64)
        ensures
            *final(self) == spec_step(*old(self)),
            r == spec_word(*old(self)),
    {
        let mut x: u64 = self.lo;
        let y: u64 = self.hi;
        self.lo = y;
        x = x ^ (x << 23);
        x = x ^ (x >> 17);
        x = x ^ y ^ (y >> 26);
        self.hi = x;
        let r: u64 = (((x as u128) + (y as u128)) % 0x1_0000_0000_0000_0000u128) as u64;
        r
    }

    /// Advance the generator one step and return a fixed-point value
    /// uniform over `[0, 1)`.
    pub fn next_unit(&mut self) -> (r: Fx)
        ensures
            *final(self) == spec_step(*old(self)),
            r.bits == spec_unit(*old(self)),
            r.bits < SCALE,
    {
        let w: u64 = self.next_word();
        Fx { bits: w / SCALE }
    }
}

} // verus!

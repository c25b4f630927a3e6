//! Non-negative fixed-point scalars.
//!
//! Every quantity of the cascade model — timestamps, increments, split
//! ratios, Beta shape parameters — is a non-negative real carried as a
//! `Q32.32` fixed-point number: a `u64` holding `value * 2^32`. All
//! arithmetic on these numbers is exact integer arithmetic, so every
//! computation of the crate is a pure function of its integer inputs.

use vstd::prelude::*;

verus! {

/// Number of fractional steps per unit: a value `v` is carried as `v * SCALE`.
pub const SCALE: u64 = 0x1_0000_0000;

/// A non-negative fixed-point number with 32 fractional bits.
///
/// The represented real value is `bits / SCALE`; the representable range is
/// `[0, 2^32)` with resolution `2^-32`.
#[derive(Clone, Copy, Debug, PartialEq, Eq, Structural)]
pub struct Fx {
    pub bits: u64,
}

impl Fx {
    /// The number zero.
    pub fn zero() -> (r: Fx)
        ensures
            r.bits == 0,
    {
        Fx { bits: 0 }
    }

    /// The fixed-point number with the given raw bit pattern.
    pub fn from_bits(bits: u64) -> (r: Fx)
        ensures
            r.bits == bits,
    {
        Fx { bits }
    }

    /// The fixed-point image of a small whole number.
    pub fn from_whole(v: u32) -> (r: Fx)
        ensures
            r.bits == v * SCALE,
    {
        Fx { bits: (v as u64) * SCALE }
    }
}

/// Product of two fixed-point values, rounded down: `(a * b) / SCALE`
/// over the raw bit patterns.
pub open spec fn mul_down(a: int, b: int) -> int {
    (a * b) / (SCALE as int)
}

/// Quotient of two fixed-point values, rounded down: `(a * SCALE) / b`
/// over the raw bit patterns.
pub open spec fn div_down(a: int, b: int) -> int {
    (a * (SCALE as int)) / b
}

/// Integer square root, rounded down.
pub open spec fn spec_isqrt(x: int) -> int
    decreases x,
{
    if x <= 0 {
        0
    } else {
        let r = 2 * spec_isqrt(x / 4);
        if (r + 1) * (r + 1) <= x {
            r + 1
        } else {
            r
        }
    }
}

/// `spec_isqrt(x)` is the greatest integer whose square does not exceed `x`.
pub proof fn lemma_isqrt(x: int)
    requires
        x >= 0,
    ensures
        0 <= spec_isqrt(x),
        spec_isqrt(x) * spec_isqrt(x) <= x,
        x < (spec_isqrt(x) + 1) * (spec_isqrt(x) + 1),
    decreases x,
{
    if x <= 0 {
    } else {
        lemma_isqrt(x / 4);
        let s = spec_isqrt(x / 4);
        assert(4 * (x / 4) <= x && x <= 4 * (x / 4) + 3) by (nonlinear_arith);
        assert((2 * s) * (2 * s) <= 4 * (x / 4)) by (nonlinear_arith)
            requires
                s * s <= x / 4;
        assert(4 * (x / 4) + 3 < (2 * s + 2) * (2 * s + 2)) by (nonlinear_arith)
            requires
                x / 4 < (s + 1) * (s + 1);
        let r = 2 * s;
        if (r + 1) * (r + 1) <= x {
            assert(spec_isqrt(x) == r + 1);
            assert(x < (r + 2) * (r + 2));
        } else {
            assert(spec_isqrt(x) == r);
        }
    }
}

/// Integer square root of a `u128`, computed by halving the operand's
/// width at each step.
pub fn isqrt128(x: u128) -> (r: u64)
    requires
        x < 0x4_0000_0000_0000_0000u128,
    ensures
        r as int == spec_isqrt(x as int),
        r < 0x4_0000_0000u64,
        (r as int) * (r as int) <= x as int,
        (x as int) < (r as int + 1) * (r as int + 1),
    decreases x as int,
{
    proof {
        lemma_isqrt(x as int);
    }
    if x == 0 {
        0
    } else {
        proof {
            lemma_isqrt((x / 4) as int);
            assert(spec_isqrt((x / 4) as int) * spec_isqrt((x / 4) as int) <= (x / 4) as int);
            assert(spec_isqrt((x / 4) as int) < 0x2_0000_0000int) by (nonlinear_arith)
                requires
                    spec_isqrt((x / 4) as int) * spec_isqrt((x / 4) as int) <= (x / 4) as int,
                    0 <= spec_isqrt((x / 4) as int),
                    ((x / 4) as int) < 0x1_0000_0000_0000_0000int;
        }
        let h: u64 = isqrt128(x / 4);
        let r: u64 = 2 * h;
        let c: u64 = r + 1;
        proof {
            assert((c as int) * (c as int) <= 0x4_0000_0001int * 0x4_0000_0001int)
                by (nonlinear_arith)
                requires
                    0 <= c as int,
                    (c as int) <= 0x4_0000_0001int;
        }
        if (c as u128) * (c as u128) <= x {
            c
        } else {
            r
        }
    }
}

} // verus!

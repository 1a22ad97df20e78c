//! Conversions between binary64 numbers and unsigned 32-bit integers.

use crate::binary64::{Double, INFINITY_BITS};
use crate::rounding::{lemma_pow2_monotone, lemma_pow2_values, lemma_scaled_division, power_of_two};
use vstd::arithmetic::power2::{lemma_pow2_adds, pow2};
use vstd::prelude::*;

verus! {

/// `2^1074`: the number one in units of `2^-1074`.
pub open spec fn one() -> nat {
    pow2(1074)
}

impl Double {
    /// The number with the value of an unsigned 32-bit integer.
    pub open spec fn of_u32(n: u32) -> Double {
        Double::rounded(false, n as nat * one())
    }

    /// The integer part of the number, kept within the range of an unsigned
    /// 32-bit integer: what is negative or not a number gives zero, what is
    /// too large gives the largest integer.
    pub open spec fn truncated(self) -> u32 {
        if self.is_nan() || self.negative() {
            0
        } else if self.is_infinite() || self.magnitude() / one() > u32::MAX {
            u32::MAX
        } else {
            (self.magnitude() / one()) as u32
        }
    }
}

impl Double {
    /// The number with the value of `n`.
    pub fn from_u32(n: u32) -> (d: Double)
        ensures
            d == Double::of_u32(n),
            d.is_finite(),
            !d.negative(),
            d.magnitude() == n * one(),
    {
        proof {
            Double::lemma_of_u32_exact(n);
        }
        Double::nearest(false, n as u128, 1074)
    }

    /// The integer part of the number, kept within the range of the result.
    pub fn to_u32(self) -> (n: u32)
        ensures
            n == self.truncated(),
    {
        let body: u64 = self.unsigned_bits();
        if body > INFINITY_BITS || self.sign() {
            return 0;
        }
        if body == INFINITY_BITS {
            return u32::MAX;
        }
        let (sig, scale) = self.parts();
        let ghost w = pow2(scale as nat);
        proof {
            self.lemma_fields();
            lemma_pow2_values();
            lemma_pow2_monotone(0, scale as nat);
        }
        if scale < 1022 {
            proof {
                // Below one.
                lemma_pow2_adds(53, scale as nat);
                lemma_pow2_monotone((53 + scale) as nat, 1074);
                assert(sig * w < pow2(53) * w) by (nonlinear_arith)
                    requires
                        sig < pow2(53),
                        w > 0,
                ;
                vstd::arithmetic::div_mod::lemma_basic_div(self.magnitude() as int, one() as int);
            }
            0
        } else if scale >= 1054 {
            proof {
                // At least 2^32.
                lemma_pow2_adds(52, scale as nat);
                lemma_pow2_adds(32, 1074);
                lemma_pow2_monotone(1106, (52 + scale) as nat);
                assert(pow2(52) * w <= sig * w) by (nonlinear_arith)
                    requires
                        pow2(52) <= sig,
                        w > 0,
                ;
                vstd::arithmetic::div_mod::lemma_div_is_ordered(
                    (pow2(32) * one()) as int,
                    self.magnitude() as int,
                    one() as int,
                );
                vstd::arithmetic::div_mod::lemma_div_by_multiple(pow2(32) as int, one() as int);
            }
            u32::MAX
        } else {
            let drop: u32 = 1074 - scale;
            let unit: u128 = power_of_two(drop);
            proof {
                lemma_scaled_division(sig as nat, scale as nat, drop as nat);
                lemma_pow2_monotone(21, drop as nat);
                lemma_pow2_adds(21, 32);
                vstd::arithmetic::div_mod::lemma_div_is_ordered_by_denominator(
                    sig as int,
                    pow2(21) as int,
                    unit as int,
                );
                assert(sig / 0x20_0000 < 0x1_0000_0000);
            }
            (sig as u128 / unit) as u32
        }
    }
}

impl Double {
    /// Every unsigned 32-bit integer is a number of the format.
    pub proof fn lemma_of_u32_exact(n: u32)
        ensures
            Double::of_u32(n).is_finite(),
            !Double::of_u32(n).negative(),
            Double::of_u32(n).magnitude() == n * one(),
    {
        Double::lemma_rounded_representable(false, n as nat, 1074);
    }
}

} // verus!

//! Addition of binary64 numbers, rounded to nearest with halves to even.

use crate::binary64::{Double, HIDDEN_BIT, INFINITY_BITS, NAN_BITS, SIGNIFICAND_LIMIT};
use crate::rounding::{
    distance, lemma_halvings_in_binade, lemma_nearest_even_unit, lemma_pow2_monotone,
    lemma_pow2_values, power_of_two,
};
use vstd::arithmetic::div_mod::lemma_fundamental_div_mod_converse;
use vstd::arithmetic::power2::{lemma_pow2_adds, lemma_pow2_unfold, pow2};
use vstd::prelude::*;

verus! {

/// The absolute value of an integer.
pub open spec fn distance_from_zero(x: int) -> nat {
    if x < 0 {
        (-x) as nat
    } else {
        x as nat
    }
}

impl Double {
    /// The sum of two numbers.
    ///
    /// A not-a-number operand, or infinities of opposite sign, give
    /// [`Double::nan`]. An infinity otherwise stays. Two finite numbers give
    /// the number nearest to their exact sum; an exact sum of zero is negative
    /// zero only if both operands are negative.
    pub open spec fn sum_of(a: Double, b: Double) -> Double {
        if a.is_nan() || b.is_nan() {
            Double::nan()
        } else if a.is_infinite() && b.is_infinite() {
            if a.negative() == b.negative() {
                a
            } else {
                Double::nan()
            }
        } else if a.is_infinite() {
            a
        } else if b.is_infinite() {
            b
        } else {
            let exact = a.value() + b.value();
            if exact == 0 {
                Double::assemble(a.negative() && b.negative(), 0)
            } else {
                Double::rounded(exact < 0, distance_from_zero(exact))
            }
        }
    }
}

impl Double {
    /// The sum of two finite numbers, the first with the larger scale.
    fn finite_sum(self, other: Double) -> (r: Double)
        requires
            self.is_finite(),
            other.is_finite(),
            self.scale() >= other.scale(),
        ensures
            r == Double::sum_of(self, other),
    {
        proof {
            self.lemma_fields();
            other.lemma_fields();
            lemma_pow2_values();
        }
        let (sig_a, scale_a) = self.parts();
        let (sig_b, scale_b) = other.parts();
        let gap: u32 = scale_a - scale_b;
        let ghost w = pow2(scale_b as nat) as int;
        proof {
            lemma_pow2_monotone(0, scale_b as nat);
        }
        if gap > 64 {
            proof {
                // The smaller operand is below a quarter of the larger one's spacing.
                let delta = other.magnitude();
                lemma_pow2_adds(55, scale_b as nat);
                lemma_pow2_monotone((55 + scale_b) as nat, scale_a as nat);
                lemma_pow2_adds(2, 53);
                lemma_pow2_unfold(2);
                assert(4 * (sig_b * w) < pow2(55) * w) by (nonlinear_arith)
                    requires
                        sig_b < pow2(53),
                        pow2(55) == 4 * pow2(53),
                        w > 0,
                ;
                self.lemma_small_change_rounds_back(delta);
                lemma_pow2_monotone(0, scale_a as nat);
                assert(self.magnitude() > 0) by (nonlinear_arith)
                    requires
                        self.magnitude() == sig_a * pow2(scale_a as nat),
                        sig_a > 0,
                        pow2(scale_a as nat) > 0,
                ;
                assert(delta < self.magnitude());
            }
            return self;
        }
        let lift: u128 = power_of_two(gap);
        assert(sig_a * lift <= SIGNIFICAND_LIMIT * 0x1_0000_0000_0000_0000) by (nonlinear_arith)
            requires
                sig_a < SIGNIFICAND_LIMIT,
                0 <= lift <= 0x1_0000_0000_0000_0000,
        ;
        let wide_a: u128 = sig_a as u128 * lift;
        let wide_b: u128 = sig_b as u128;
        proof {
            lemma_pow2_adds(gap as nat, scale_b as nat);
            assert(self.magnitude() == wide_a * w) by (nonlinear_arith)
                requires
                    self.magnitude() == sig_a * pow2(scale_a as nat),
                    pow2(scale_a as nat) == lift * w,
                    wide_a == sig_a * lift,
            ;
            assert(other.magnitude() == wide_b * w);
            assert((wide_a + wide_b) * w == wide_a * w + wide_b * w) by (nonlinear_arith);
            assert((wide_a - wide_b) * w == wide_a * w - wide_b * w) by (nonlinear_arith);
            assert((wide_b - wide_a) * w == wide_b * w - wide_a * w) by (nonlinear_arith);
            assert(wide_a > wide_b ==> (wide_a - wide_b) * w > 0) by (nonlinear_arith)
                requires
                    w > 0,
            ;
            assert(wide_b > wide_a ==> (wide_b - wide_a) * w > 0) by (nonlinear_arith)
                requires
                    w > 0,
            ;
            assert(wide_a + wide_b > 0 ==> (wide_a + wide_b) * w > 0) by (nonlinear_arith)
                requires
                    w > 0,
            ;
            assert(wide_a + wide_b == 0 ==> (wide_a + wide_b) * w == 0) by (nonlinear_arith);
            lemma_nearest_even_unit(0);
        }
        let negative_a: bool = self.sign();
        let negative_b: bool = other.sign();
        if negative_a == negative_b {
            Double::nearest(negative_a, wide_a + wide_b, scale_b)
        } else if wide_a > wide_b {
            Double::nearest(negative_a, wide_a - wide_b, scale_b)
        } else if wide_b > wide_a {
            Double::nearest(negative_b, wide_b - wide_a, scale_b)
        } else {
            Double::zero(false)
        }
    }

    /// The sum of two numbers.
    pub fn plus(self, other: Double) -> (r: Double)
        ensures
            r == Double::sum_of(self, other),
    {
        let body_a: u64 = self.unsigned_bits();
        let body_b: u64 = other.unsigned_bits();
        if body_a > INFINITY_BITS || body_b > INFINITY_BITS {
            return Double { bits: NAN_BITS };
        }
        if body_a == INFINITY_BITS {
            if body_b == INFINITY_BITS && self.sign() != other.sign() {
                return Double { bits: NAN_BITS };
            }
            return self;
        }
        if body_b == INFINITY_BITS {
            return other;
        }
        let (_, scale_a) = self.parts();
        let (_, scale_b) = other.parts();
        if scale_a >= scale_b {
            self.finite_sum(other)
        } else {
            other.finite_sum(self)
        }
    }
}

impl Double {
    /// The order of the operands does not matter.
    pub proof fn lemma_sum_commutes(a: Double, b: Double)
        ensures
            Double::sum_of(a, b) == Double::sum_of(b, a),
    {
    }

    /// The sum of two finite numbers that do not cancel has the sign of their
    /// exact sum, and where it is finite no finite number of the format is
    /// nearer to the exact sum.
    pub proof fn lemma_sum_is_nearest(a: Double, b: Double, other: Double)
        requires
            a.is_finite(),
            b.is_finite(),
            other.is_finite(),
            a.value() + b.value() != 0,
            Double::sum_of(a, b).is_finite(),
        ensures
            Double::sum_of(a, b).negative() == (a.value() + b.value() < 0),
            distance(Double::sum_of(a, b).magnitude(), distance_from_zero(a.value() + b.value()))
                <= distance(other.magnitude(), distance_from_zero(a.value() + b.value())),
    {
        let exact = a.value() + b.value();
        Double::lemma_rounded_value(exact < 0, distance_from_zero(exact));
        Double::lemma_rounded_is_nearest(exact < 0, distance_from_zero(exact), other);
    }

    /// A sum that the format can hold is exact: if some finite number has the
    /// value of the exact sum, the sum is that number.
    pub proof fn lemma_sum_exact(a: Double, b: Double, held: Double)
        requires
            a.is_finite(),
            b.is_finite(),
            held.is_finite(),
            held.value() == a.value() + b.value(),
            !held.is_zero(),
        ensures
            Double::sum_of(a, b) == held,
    {
        held.lemma_fields();
        held.lemma_rounded_exact();
    }

    /// Adding a zero of either sign to a number that is not a zero, nor a
    /// not-a-number, leaves the number as it is.
    pub proof fn lemma_sum_with_zero(a: Double, zero: Double)
        requires
            zero.is_zero(),
            !a.is_zero(),
            !a.is_nan(),
        ensures
            Double::sum_of(a, zero) == a,
    {
        zero.lemma_fields();
        a.lemma_fields();
        if a.is_finite() {
            a.lemma_rounded_exact();
        }
    }

    /// Moving a normal number by less than a quarter of its spacing, in either
    /// direction, leaves its rounding where it is.
    pub proof fn lemma_small_change_rounds_back(self, delta: nat)
        requires
            self.is_finite(),
            4 * delta < pow2(self.scale()),
        ensures
            Double::rounded(self.negative(), self.magnitude() + delta) == self,
            delta <= self.magnitude(),
            Double::rounded(self.negative(), (self.magnitude() - delta) as nat) == self,
    {
        self.lemma_fields();
        self.lemma_rounded_exact();
        lemma_pow2_values();
        if delta > 0 {
            let t = self.scale();
            let w = pow2(t) as int;
            let sig = self.significand() as int;
            let m = self.magnitude() as int;
            let d = delta as int;
            if t < 3 {
                lemma_pow2_monotone(t, 2);
                lemma_pow2_unfold(2);
            }
            assert(self.exponent() == t + 1);
            assert(self.body() == t * HIDDEN_BIT + sig) by (nonlinear_arith)
                requires
                    self.body() == self.exponent() * HIDDEN_BIT + self.fraction(),
                    self.exponent() == t + 1,
                    sig == HIDDEN_BIT + self.fraction(),
            ;
            lemma_pow2_adds(52, t);
            lemma_pow2_adds(53, t);
            assert(pow2(52) * w <= sig * w && (sig + 1) * w <= pow2(53) * w
                && sig * w + w == (sig + 1) * w && (sig - 1) * w + w == sig * w)
                by (nonlinear_arith)
                requires
                    pow2(52) <= sig < pow2(53),
                    w > 0,
            ;
            // Upwards: the quotient by the spacing is still the significand.
            assert(Double::rounded(self.negative(), (m + d) as nat) == self) by {
                lemma_halvings_in_binade((m + d) as nat, 53, t);
                lemma_fundamental_div_mod_converse(m + d, w, sig, d);
            }
            // Downwards.
            if sig > HIDDEN_BIT {
                assert(pow2(52) * w <= (sig - 1) * w) by (nonlinear_arith)
                    requires
                        pow2(52) <= sig - 1,
                        w > 0,
                ;
                lemma_halvings_in_binade((m - d) as nat, 53, t);
                lemma_fundamental_div_mod_converse(m - d, w, sig - 1, w - d);
            } else {
                // Just below a power of two the spacing is half as wide.
                let s = (t - 1) as nat;
                let h = pow2(s) as int;
                lemma_pow2_unfold(t);
                lemma_pow2_adds(52, s);
                lemma_pow2_adds(53, s);
                lemma_pow2_monotone(0, s);
                assert(m == pow2(53) * h && m - h == (pow2(53) - 1) * h
                    && pow2(52) * h + pow2(52) * h == m) by (nonlinear_arith)
                    requires
                        m == sig * w,
                        sig == pow2(52),
                        w == 2 * h,
                        pow2(53) == 2 * pow2(52),
                ;
                lemma_halvings_in_binade((m - d) as nat, 53, s);
                lemma_fundamental_div_mod_converse(m - d, h, pow2(53) - 1, h - d);
                assert(s * HIDDEN_BIT + pow2(53) == t * HIDDEN_BIT + sig) by (nonlinear_arith)
                    requires
                        s == t - 1,
                        sig == HIDDEN_BIT,
                        pow2(53) == 2 * HIDDEN_BIT,
                ;
            }
        }
    }
}

} // verus!

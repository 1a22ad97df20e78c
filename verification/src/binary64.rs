//! IEEE-754 binary64 numbers as bit patterns.
//!
//! A finite number is described by its magnitude in units of `2^-1074`, the
//! spacing of the smallest numbers of the format; in that unit every finite
//! number, and every sum of two of them, is an integer.

use crate::rounding::{
    distance, halvings_below, lemma_halvings_bounds, lemma_halvings_in_binade,
    lemma_nearest_even_is_nearest, lemma_nearest_even_scaled, lemma_nearest_even_unit,
    lemma_pow2_monotone, lemma_pow2_values, nearest_even,
};
use vstd::arithmetic::power2::{lemma_pow2_adds, lemma_pow2_unfold, pow2};
use vstd::prelude::*;

verus! {

/// The bit that holds the sign.
pub const SIGN_BIT: u64 = 0x8000_0000_0000_0000;

/// `2^52`: the weight of the exponent field, and the leading bit that a normal
/// number's significand has on top of its fraction.
pub const HIDDEN_BIT: u64 = 0x10_0000_0000_0000;

/// `2^53`: the bound of every significand.
pub const SIGNIFICAND_LIMIT: u64 = 0x20_0000_0000_0000;

/// The bits of positive infinity.
pub const INFINITY_BITS: u64 = 0x7ff0_0000_0000_0000;

/// The bits of the one not-a-number that the operations of this library produce.
pub const NAN_BITS: u64 = 0x7ff8_0000_0000_0000;

/// A binary64 number, held as its 64 bits.
#[derive(Clone, Copy, Debug, PartialEq, Eq, Structural)]
pub struct Double {
    pub bits: u64,
}

impl Double {
    /// Whether the sign bit is set.
    pub open spec fn negative(self) -> bool {
        self.bits >= SIGN_BIT
    }

    /// The bits without the sign bit.
    pub open spec fn body(self) -> nat {
        if self.bits >= SIGN_BIT {
            (self.bits - SIGN_BIT) as nat
        } else {
            self.bits as nat
        }
    }

    /// The biased exponent field, `0..=2047`.
    pub open spec fn exponent(self) -> nat {
        self.body() / (HIDDEN_BIT as nat)
    }

    /// The fraction field, below `2^52`.
    pub open spec fn fraction(self) -> nat {
        self.body() % (HIDDEN_BIT as nat)
    }

    /// Whether the bits are those of a not-a-number: the exponent field is
    /// all ones and the fraction is not zero.
    pub open spec fn is_nan(self) -> bool {
        self.body() > INFINITY_BITS
    }

    /// Whether the number is positive or negative infinity.
    pub open spec fn is_infinite(self) -> bool {
        self.body() == INFINITY_BITS
    }

    /// Whether the number is neither an infinity nor a not-a-number.
    pub open spec fn is_finite(self) -> bool {
        self.body() < INFINITY_BITS
    }

    /// Positive or negative zero.
    pub open spec fn is_zero(self) -> bool {
        self.body() == 0
    }

    /// The integer that the exponent scales: the fraction, with the hidden bit
    /// on top unless the number is subnormal.
    pub open spec fn significand(self) -> nat {
        if self.exponent() == 0 {
            self.fraction()
        } else {
            HIDDEN_BIT as nat + self.fraction()
        }
    }

    /// The power of two by which the significand is scaled, in units of `2^-1074`.
    pub open spec fn scale(self) -> nat {
        if self.exponent() == 0 {
            0
        } else {
            (self.exponent() - 1) as nat
        }
    }

    /// The absolute value of a finite number, in units of `2^-1074`.
    pub open spec fn magnitude(self) -> nat {
        self.significand() * pow2(self.scale())
    }

    /// The value of a finite number, in units of `2^-1074`.
    pub open spec fn value(self) -> int {
        if self.negative() {
            -(self.magnitude() as int)
        } else {
            self.magnitude() as int
        }
    }

    /// The not-a-number that the operations of this library produce.
    pub open spec fn nan() -> Double {
        Double { bits: NAN_BITS }
    }

    /// The number with the given sign and the given bits below the sign bit.
    pub open spec fn assemble(negative: bool, body: nat) -> Double {
        Double {
            bits: if negative {
                (SIGN_BIT + body) as u64
            } else {
                body as u64
            },
        }
    }

    /// The power of two, in units of `2^-1074`, that neighbouring numbers of
    /// the format are apart in the binade that holds `m`.
    pub open spec fn spacing(m: nat) -> nat {
        halvings_below(m, SIGNIFICAND_LIMIT as nat)
    }

    /// The number nearest to `m * 2^-1074`, with the given sign: halves go to
    /// the even significand, and what lies beyond the largest finite number by
    /// half a spacing or more goes to infinity.
    pub open spec fn rounded(negative: bool, m: nat) -> Double {
        let q = Double::spacing(m);
        let body = (q * HIDDEN_BIT + nearest_even(m, q)) as nat;
        Double::assemble(
            negative,
            if body < INFINITY_BITS {
                body
            } else {
                INFINITY_BITS as nat
            },
        )
    }
}

impl Double {
    /// The number with the given bits.
    pub fn from_bits(bits: u64) -> (d: Double)
        ensures
            d.bits == bits,
    {
        Double { bits }
    }

    /// The bits of the number.
    pub fn to_bits(self) -> (bits: u64)
        ensures
            bits == self.bits,
    {
        self.bits
    }

    /// Zero with the given sign.
    pub fn zero(negative: bool) -> (d: Double)
        ensures
            d == Double::assemble(negative, 0),
            d.is_zero(),
            d.negative() == negative,
    {
        if negative {
            Double { bits: SIGN_BIT }
        } else {
            Double { bits: 0 }
        }
    }

    /// Whether the sign bit is set.
    pub fn sign(self) -> (negative: bool)
        ensures
            negative == self.negative(),
    {
        self.bits >= SIGN_BIT
    }

    /// The bits below the sign bit.
    pub fn unsigned_bits(self) -> (body: u64)
        ensures
            body == self.body(),
            body < SIGN_BIT,
    {
        if self.bits >= SIGN_BIT {
            self.bits - SIGN_BIT
        } else {
            self.bits
        }
    }

    /// Significand and scale, as the exponent and fraction fields give them.
    pub fn parts(self) -> (p: (u64, u32))
        ensures
            p.0 == self.significand(),
            p.1 == self.scale(),
            p.0 < SIGNIFICAND_LIMIT,
            self.is_finite() ==> p.1 <= 2045,
    {
        proof {
            self.lemma_fields();
        }
        let body: u64 = self.unsigned_bits();
        let exponent: u64 = body / HIDDEN_BIT;
        let fraction: u64 = body % HIDDEN_BIT;
        if exponent == 0 {
            (fraction, 0)
        } else {
            (HIDDEN_BIT + fraction, (exponent - 1) as u32)
        }
    }

    /// Whether the number compares equal to zero.
    pub fn equals_zero(self) -> (zero: bool)
        ensures
            zero == self.is_zero(),
    {
        self.unsigned_bits() == 0
    }

    /// The number nearest to `significand * 2^(scale - 1074)`, with the given sign.
    pub fn nearest(negative: bool, significand: u128, scale: u32) -> (d: Double)
        ensures
            d == Double::rounded(negative, significand as nat * pow2(scale as nat)),
    {
        let ghost m: nat = significand as nat * pow2(scale as nat);
        proof {
            lemma_pow2_values();
            lemma_pow2_monotone(0, scale as nat);
        }
        if significand == 0 {
            proof {
                assert(m == 0) by (nonlinear_arith)
                    requires
                        m == significand as nat * pow2(scale as nat),
                        significand == 0,
                ;
                lemma_nearest_even_unit(0);
            }
            return Double::zero(negative);
        }
        // Drop low bits until the significand fits its 53 bits.
        let mut dropped: u32 = 0;
        let mut unit: u128 = 1;
        while significand / unit >= SIGNIFICAND_LIMIT as u128
            invariant
                unit == pow2(dropped as nat),
                unit > 0,
                dropped <= 75,
                dropped > 0 ==> significand >= pow2((52 + dropped) as nat),
            decreases significand / unit,
        {
            proof {
                lemma_pow2_values();
                lemma_pow2_adds(53, dropped as nat);
                lemma_pow2_unfold((dropped + 1) as nat);
                assert(significand >= SIGNIFICAND_LIMIT * unit) by (nonlinear_arith)
                    requires
                        significand / unit >= SIGNIFICAND_LIMIT,
                        unit > 0,
                ;
                if dropped >= 75 {
                    lemma_pow2_monotone(75, dropped as nat);
                }
                assert(significand as int / (unit * 2) < significand as int / (unit as int))
                    by (nonlinear_arith)
                    requires
                        significand as int / (unit as int) >= 1,
                        unit > 0,
                ;
            }
            unit = unit * 2;
            dropped = dropped + 1;
        }
        proof {
            lemma_pow2_monotone(dropped as nat, 75);
        }
        assert(unit <= 0x800_0000_0000_0000_0000);
        let body: u64;
        let exponent: u64;
        if dropped > 0 {
            let low: u64 = (significand / unit) as u64;
            let rest: u128 = significand % unit;
            let up: bool = 2 * rest > unit || (2 * rest == unit && low % 2 == 1);
            body = if up { low + 1 } else { low };
            exponent = dropped as u64 + scale as u64;
            proof {
                let k = dropped as nat;
                let t = scale as nat;
                assert(body == nearest_even(significand as nat, k));
                lemma_nearest_even_scaled(significand as nat, t, k);
                assert(significand < SIGNIFICAND_LIMIT * unit) by (nonlinear_arith)
                    requires
                        significand / unit < SIGNIFICAND_LIMIT,
                        unit > 0,
                ;
                lemma_pow2_adds(53, k);
                lemma_pow2_adds(52 + k, t);
                lemma_pow2_adds(53 + k, t);
                let w = pow2(t);
                assert(pow2(52 + k) * w <= significand * w < pow2(53 + k) * w) by (nonlinear_arith)
                    requires
                        pow2(52 + k) <= significand < pow2(53 + k),
                        w > 0,
                ;
                lemma_halvings_in_binade(m, 53, k + t);
            }
        } else {
            // Nothing to round: bring the leading bit up as far as the scale allows.
            assert(significand as int / 1 == significand);
            let mut sig: u64 = significand as u64;
            let mut left: u32 = scale;
            while left > 0 && sig < HIDDEN_BIT
                invariant
                    sig * pow2(left as nat) == m,
                    0 < sig < SIGNIFICAND_LIMIT,
                decreases left,
            {
                proof {
                    lemma_pow2_values();
                    lemma_pow2_unfold(left as nat);
                    let w = pow2((left - 1) as nat);
                    assert((sig * 2) * w == sig * (2 * w)) by (nonlinear_arith);
                }
                sig = sig * 2;
                left = left - 1;
            }
            body = sig;
            exponent = left as u64;
            proof {
                Double::lemma_rounding_of_normalized(sig as nat, left as nat);
            }
        }
        assert(exponent == halvings_below(m, SIGNIFICAND_LIMIT as nat));
        assert(body == nearest_even(m, exponent as nat));
        if exponent >= 2047 {
            assert(exponent * HIDDEN_BIT + body >= INFINITY_BITS) by (nonlinear_arith)
                requires
                    exponent >= 2047,
                    body >= 0,
                    HIDDEN_BIT == 0x10_0000_0000_0000,
                    INFINITY_BITS == 0x7ff0_0000_0000_0000,
            ;
            return Double::with_sign(negative, INFINITY_BITS);
        }
        assert(exponent * HIDDEN_BIT <= 2046 * HIDDEN_BIT) by (nonlinear_arith)
            requires
                exponent <= 2046,
        ;
        let packed: u64 = exponent * HIDDEN_BIT + body;
        if packed < INFINITY_BITS {
            Double::with_sign(negative, packed)
        } else {
            Double::with_sign(negative, INFINITY_BITS)
        }
    }

    /// The number with the given sign and the given bits below the sign bit.
    pub(crate) fn with_sign(negative: bool, body: u64) -> (d: Double)
        requires
            body < SIGN_BIT,
        ensures
            d == Double::assemble(negative, body as nat),
            d.negative() == negative,
            d.body() == body,
    {
        if negative {
            Double { bits: SIGN_BIT + body }
        } else {
            Double { bits: body }
        }
    }
}

impl Double {
    /// The bits below the sign are the exponent field on top of the fraction.
    pub proof fn lemma_fields(self)
        ensures
            self.body() == self.exponent() * HIDDEN_BIT + self.fraction(),
            self.fraction() < HIDDEN_BIT,
            self.exponent() <= 2047,
            self.is_finite() <==> self.exponent() < 2047,
            self.is_zero() <==> self.is_finite() && self.magnitude() == 0,
            self.is_finite() ==> self.significand() < SIGNIFICAND_LIMIT && self.scale() <= 2045,
            self.exponent() >= 1 ==> self.significand() >= HIDDEN_BIT,
    {
        lemma_pow2_values();
        lemma_pow2_monotone(0, self.scale());
        let w = pow2(self.scale());
        let sig = self.significand();
        assert(sig * w == 0 <==> sig == 0) by (nonlinear_arith)
            requires
                w > 0,
                sig >= 0,
        ;
    }

    /// A significand with its leading bit in place, or one at the smallest
    /// scale, is its own rounding.
    pub proof fn lemma_rounding_of_normalized(sig: nat, t: nat)
        requires
            sig < SIGNIFICAND_LIMIT,
            t == 0 || sig >= HIDDEN_BIT,
        ensures
            halvings_below(sig * pow2(t), SIGNIFICAND_LIMIT as nat) == t,
            nearest_even(sig * pow2(t), t) == sig,
    {
        lemma_pow2_values();
        lemma_nearest_even_scaled(sig, t, 0);
        lemma_nearest_even_unit(sig);
        if t == 0 {
            assert(sig * pow2(0) == sig);
        } else {
            lemma_pow2_adds(52, t);
            lemma_pow2_adds(53, t);
            lemma_pow2_monotone(0, t);
            let w = pow2(t);
            assert(pow2(52) * w <= sig * w < pow2(53) * w) by (nonlinear_arith)
                requires
                    pow2(52) <= sig < pow2(53),
                    w > 0,
            ;
            lemma_halvings_in_binade(sig * w, 53, t);
        }
    }

    /// A value that has a significand of 53 bits at a scale within the format
    /// is a number of the format, and its own rounding.
    pub proof fn lemma_rounded_representable(negative: bool, sig: nat, t: nat)
        requires
            sig < SIGNIFICAND_LIMIT,
            t <= 2045,
        ensures
            Double::rounded(negative, sig * pow2(t)).is_finite(),
            Double::rounded(negative, sig * pow2(t)).negative() == negative,
            Double::rounded(negative, sig * pow2(t)).magnitude() == sig * pow2(t),
        decreases t,
    {
        lemma_pow2_values();
        if t == 0 || sig >= HIDDEN_BIT {
            Double::lemma_rounding_of_normalized(sig, t);
            let body = (t * HIDDEN_BIT + sig) as nat;
            assert(body < INFINITY_BITS) by (nonlinear_arith)
                requires
                    body == t * HIDDEN_BIT + sig,
                    t <= 2045,
                    sig < 2 * HIDDEN_BIT,
                    HIDDEN_BIT == 0x10_0000_0000_0000,
                    INFINITY_BITS == 0x7ff0_0000_0000_0000,
            ;
            let d = Double::assemble(negative, body);
            assert(d.body() == body);
            if sig >= HIDDEN_BIT {
                vstd::arithmetic::div_mod::lemma_fundamental_div_mod_converse(
                    body as int,
                    HIDDEN_BIT as int,
                    t as int + 1,
                    sig - HIDDEN_BIT,
                );
            } else {
                vstd::arithmetic::div_mod::lemma_fundamental_div_mod_converse(
                    body as int,
                    HIDDEN_BIT as int,
                    0,
                    sig as int,
                );
            }
        } else {
            lemma_pow2_unfold(t);
            let w = pow2((t - 1) as nat);
            assert((2 * sig) * w == sig * (2 * w)) by (nonlinear_arith);
            Double::lemma_rounded_representable(negative, 2 * sig, (t - 1) as nat);
        }
    }

    /// A rounding that is finite has the given sign, and its magnitude is
    /// the rounded multiple of the spacing at `m`.
    pub proof fn lemma_rounded_value(negative: bool, m: nat)
        requires
            Double::rounded(negative, m).is_finite(),
        ensures
            Double::rounded(negative, m).negative() == negative,
            Double::rounded(negative, m).magnitude() == nearest_even(m, Double::spacing(m)) * pow2(
                Double::spacing(m),
            ),
            Double::spacing(m) >= 1 ==> pow2(52 + Double::spacing(m)) <= m,
    {
        let q = Double::spacing(m);
        let r = nearest_even(m, q);
        let d = Double::rounded(negative, m);
        let body = (q * HIDDEN_BIT + r) as nat;
        lemma_pow2_values();
        lemma_halvings_bounds(m, 53);
        assert(d.body() == body);
        if q == 0 {
            lemma_nearest_even_unit(m);
            if m >= HIDDEN_BIT {
                vstd::arithmetic::div_mod::lemma_fundamental_div_mod_converse(
                    body as int,
                    HIDDEN_BIT as int,
                    1,
                    m - HIDDEN_BIT,
                );
            }
            assert(d.magnitude() == m * pow2(0));
        } else {
            let u = pow2(q) as int;
            lemma_pow2_monotone(0, q);
            lemma_pow2_adds(52, q);
            lemma_pow2_adds(53, q);
            lemma_pow2_unfold(q + 1);
            vstd::arithmetic::div_mod::lemma_fundamental_div_mod(m as int, u);
            let low = m as int / u;
            assert(pow2(52) <= low < pow2(53)) by (nonlinear_arith)
                requires
                    pow2(52) * u <= m < pow2(53) * u,
                    m == u * low + m as int % u,
                    0 <= m as int % u < u,
            ;
            if r < SIGNIFICAND_LIMIT {
                vstd::arithmetic::div_mod::lemma_fundamental_div_mod_converse(
                    body as int,
                    HIDDEN_BIT as int,
                    q as int + 1,
                    r - HIDDEN_BIT,
                );
            } else {
                vstd::arithmetic::div_mod::lemma_fundamental_div_mod_converse(
                    body as int,
                    HIDDEN_BIT as int,
                    q as int + 2,
                    0,
                );
                assert(HIDDEN_BIT * (2 * u) == SIGNIFICAND_LIMIT * u) by (nonlinear_arith);
            }
        }
    }

    /// No finite number of the format is nearer to `m * 2^-1074` than the
    /// rounding of `m`; where another is as near, the rounding is the one
    /// whose last bit is clear.
    pub proof fn lemma_rounded_is_nearest(negative: bool, m: nat, other: Double)
        requires
            Double::rounded(negative, m).is_finite(),
            other.is_finite(),
        ensures
            distance(Double::rounded(negative, m).magnitude(), m) <= distance(other.magnitude(), m),
            distance(Double::rounded(negative, m).magnitude(), m) == distance(other.magnitude(), m)
                ==> other.magnitude() == Double::rounded(negative, m).magnitude() || Double::rounded(
                negative,
                m,
            ).bits % 2 == 0,
    {
        let q = Double::spacing(m);
        let r = nearest_even(m, q);
        let u = pow2(q) as int;
        let s = other.scale();
        let sig = other.significand() as int;
        Double::lemma_rounded_value(negative, m);
        other.lemma_fields();
        lemma_pow2_values();
        lemma_pow2_monotone(0, q);
        if s >= q {
            // A multiple of the spacing at `m`.
            let k = sig * pow2((s - q) as nat);
            lemma_pow2_adds((s - q) as nat, q);
            assert(k * u == sig * pow2(s)) by (nonlinear_arith)
                requires
                    k == sig * pow2((s - q) as nat),
                    pow2(s) == pow2((s - q) as nat) * u,
            ;
            lemma_nearest_even_is_nearest(m, q, k as nat);
            assert(r * u == k * u ==> r == k) by (nonlinear_arith)
                requires
                    u > 0,
            ;
        } else {
            // Below the binade of `m`, whose lower end is a nearer multiple.
            lemma_pow2_adds(52, q);
            lemma_pow2_adds(53, s);
            lemma_pow2_monotone(53 + s, 52 + q);
            lemma_pow2_monotone(0, s);
            assert(sig * pow2(s) < pow2(53) * pow2(s)) by (nonlinear_arith)
                requires
                    sig < pow2(53),
                    pow2(s) > 0,
            ;
            lemma_nearest_even_is_nearest(m, q, pow2(52));
        }
    }

    /// A rounding is never a not-a-number, and it is an infinity exactly when
    /// `m` lies half a spacing or more beyond the largest finite number.
    pub proof fn lemma_rounded_overflow(negative: bool, m: nat)
        ensures
            !Double::rounded(negative, m).is_nan(),
            Double::rounded(negative, m).is_infinite() <==> m >= (pow2(54) - 1) * pow2(2044),
    {
        let q = Double::spacing(m);
        let r = nearest_even(m, q) as int;
        let h = pow2(2044) as int;
        let limit = (pow2(54) - 1) * h;
        lemma_pow2_values();
        lemma_halvings_bounds(m, 53);
        lemma_pow2_monotone(0, 2044);
        lemma_pow2_unfold(54);
        lemma_pow2_unfold(2045);
        lemma_pow2_adds(53, 2044);
        lemma_pow2_adds(53, 2045);
        assert(pow2(53) * h < limit < pow2(54) * h && limit == (pow2(53) - 1) * (2 * h) + h
            && pow2(54) * h == pow2(53) * (2 * h)) by (nonlinear_arith)
            requires
                limit == (pow2(54) - 1) * h,
                pow2(54) == 2 * pow2(53),
                pow2(53) > 1,
                h > 0,
        ;
        if q == 0 {
            lemma_nearest_even_unit(m);
        } else {
            let u = pow2(q) as int;
            lemma_pow2_monotone(0, q);
            lemma_pow2_adds(52, q);
            lemma_pow2_adds(53, q);
            vstd::arithmetic::div_mod::lemma_fundamental_div_mod(m as int, u);
            let low = m as int / u;
            let rest = m as int % u;
            assert(pow2(52) <= low < pow2(53)) by (nonlinear_arith)
                requires
                    pow2(52) * u <= m < pow2(53) * u,
                    m == u * low + rest,
                    0 <= rest < u,
            ;
            assert(q <= 2044 ==> q * HIDDEN_BIT + r < INFINITY_BITS) by (nonlinear_arith)
                requires
                    r <= 2 * HIDDEN_BIT,
                    HIDDEN_BIT == 0x10_0000_0000_0000,
                    INFINITY_BITS == 0x7ff0_0000_0000_0000,
            ;
            assert(q >= 2046 ==> q * HIDDEN_BIT + r >= INFINITY_BITS) by (nonlinear_arith)
                requires
                    r >= HIDDEN_BIT,
                    HIDDEN_BIT == 0x10_0000_0000_0000,
                    INFINITY_BITS == 0x7ff0_0000_0000_0000,
            ;
            if q <= 2044 {
                lemma_pow2_monotone(53 + q, 53 + 2044);
            } else if q >= 2046 {
                lemma_pow2_adds(54, 2044);
                lemma_pow2_monotone(2098, 52 + q);
            } else {
                assert(low <= pow2(53) - 2 ==> u * low + rest < limit) by (nonlinear_arith)
                    requires
                        limit == (pow2(53) - 1) * u + h,
                        0 <= rest < u,
                        u == 2 * h,
                ;
                assert(low == pow2(53) - 1 ==> u * low == (pow2(53) - 1) * u) by (nonlinear_arith);
            }
        }
    }

    /// Every finite number is the rounding of its own value.
    pub proof fn lemma_rounded_exact(self)
        requires
            self.is_finite(),
        ensures
            Double::rounded(self.negative(), self.magnitude()) == self,
    {
        self.lemma_fields();
        Double::lemma_rounding_of_normalized(self.significand(), self.scale());
        let t = self.scale();
        assert(t * HIDDEN_BIT + self.significand() == self.body()) by (nonlinear_arith)
            requires
                self.body() == self.exponent() * HIDDEN_BIT + self.fraction(),
                t == (if self.exponent() == 0 {
                    0
                } else {
                    self.exponent() - 1
                }),
                self.significand() == (if self.exponent() == 0 {
                    self.fraction() as int
                } else {
                    HIDDEN_BIT + self.fraction()
                }),
        ;
    }
}

} // verus!

//! IEEE-754 binary32 numbers as bit patterns, and their conversion to and
//! from binary64.
//!
//! The magnitude of a finite binary32 number is counted in units of `2^-149`,
//! the spacing of the smallest numbers of the format; `2^925` of the units of
//! binary64 make one of them.

use crate::binary64::{Double, INFINITY_BITS, NAN_BITS};
use crate::rounding::{
    distance, halvings_below, lemma_halvings_bounds, lemma_halvings_in_binade,
    lemma_nearest_even_is_nearest, lemma_nearest_even_scaled, lemma_pow2_monotone,
    lemma_pow2_values, nearest_even, power_of_two,
};
use vstd::arithmetic::power2::{lemma_pow2_adds, lemma_pow2_unfold, pow2};
use vstd::prelude::*;

verus! {

/// The bit that holds the sign.
pub const SINGLE_SIGN_BIT: u32 = 0x8000_0000;

/// `2^23`: the weight of the exponent field, and the leading bit that a normal
/// number's significand has on top of its fraction.
pub const SINGLE_HIDDEN_BIT: u32 = 0x80_0000;

/// `2^24`: the bound of every significand.
pub const SINGLE_SIGNIFICAND_LIMIT: u32 = 0x100_0000;

/// The bits of positive infinity.
pub const SINGLE_INFINITY_BITS: u32 = 0x7f80_0000;

/// The bits of the one not-a-number that the conversion produces.
pub const SINGLE_NAN_BITS: u32 = 0x7fc0_0000;

/// A binary32 number, held as its 32 bits.
#[derive(Clone, Copy, Debug, PartialEq, Eq, Structural)]
pub struct Single {
    pub bits: u32,
}

/// The power of two by which the unit of binary32 exceeds that of binary64.
pub open spec fn unit_gap() -> nat {
    925
}

impl Single {
    /// Whether the sign bit is set.
    pub open spec fn negative(self) -> bool {
        self.bits >= SINGLE_SIGN_BIT
    }

    /// The bits without the sign bit.
    pub open spec fn body(self) -> nat {
        if self.bits >= SINGLE_SIGN_BIT {
            (self.bits - SINGLE_SIGN_BIT) as nat
        } else {
            self.bits as nat
        }
    }

    /// The biased exponent field, `0..=255`.
    pub open spec fn exponent(self) -> nat {
        self.body() / (SINGLE_HIDDEN_BIT as nat)
    }

    /// The fraction field, below `2^23`.
    pub open spec fn fraction(self) -> nat {
        self.body() % (SINGLE_HIDDEN_BIT as nat)
    }

    /// Whether the bits are those of a not-a-number: the exponent field is
    /// all ones and the fraction is not zero.
    pub open spec fn is_nan(self) -> bool {
        self.body() > SINGLE_INFINITY_BITS
    }

    /// Whether the number is positive or negative infinity.
    pub open spec fn is_infinite(self) -> bool {
        self.body() == SINGLE_INFINITY_BITS
    }

    /// Whether the number is neither an infinity nor a not-a-number.
    pub open spec fn is_finite(self) -> bool {
        self.body() < SINGLE_INFINITY_BITS
    }

    /// The integer that the exponent scales: the fraction, with the hidden bit
    /// on top unless the number is subnormal.
    pub open spec fn significand(self) -> nat {
        if self.exponent() == 0 {
            self.fraction()
        } else {
            SINGLE_HIDDEN_BIT as nat + self.fraction()
        }
    }

    /// The power of two by which the significand is scaled, in units of `2^-149`.
    pub open spec fn scale(self) -> nat {
        if self.exponent() == 0 {
            0
        } else {
            (self.exponent() - 1) as nat
        }
    }

    /// The absolute value of a finite number, in units of `2^-149`.
    pub open spec fn magnitude(self) -> nat {
        self.significand() * pow2(self.scale())
    }

    /// The number with the given sign and the given bits below the sign bit.
    pub open spec fn assemble(negative: bool, body: nat) -> Single {
        Single {
            bits: if negative {
                (SINGLE_SIGN_BIT + body) as u32
            } else {
                body as u32
            },
        }
    }

    /// The power of two, in units of `2^-1074`, that neighbouring numbers of
    /// the format are apart in the binade that holds `m`: `2^925` up to the
    /// first normal binade, one more for each binade above.
    pub open spec fn spacing(m: nat) -> nat {
        unit_gap() + halvings_below(m, pow2(949))
    }

    /// The number nearest to `m * 2^-1074`, with the given sign: halves go to
    /// the even significand, and what lies beyond the largest finite number by
    /// half a spacing or more goes to infinity.
    pub open spec fn rounded(negative: bool, m: nat) -> Single {
        let above = halvings_below(m, pow2(949));
        let body = (above * SINGLE_HIDDEN_BIT + nearest_even(m, Single::spacing(m))) as nat;
        Single::assemble(
            negative,
            if body < SINGLE_INFINITY_BITS {
                body
            } else {
                SINGLE_INFINITY_BITS as nat
            },
        )
    }

    /// The binary32 number that a binary64 number is narrowed to: the nearest
    /// one, an infinity for an infinity, and the one not-a-number of
    /// [`SINGLE_NAN_BITS`] for any not-a-number.
    pub open spec fn narrowed(d: Double) -> Single {
        if d.is_nan() {
            Single { bits: SINGLE_NAN_BITS }
        } else if d.is_infinite() {
            Single::assemble(d.negative(), SINGLE_INFINITY_BITS as nat)
        } else {
            Single::rounded(d.negative(), d.magnitude())
        }
    }

    /// The binary64 number with the same value: every finite binary32 number
    /// has one.
    pub open spec fn widened(self) -> Double {
        if self.is_nan() {
            Double::nan()
        } else if self.is_infinite() {
            Double::assemble(self.negative(), INFINITY_BITS as nat)
        } else {
            Double::rounded(self.negative(), self.magnitude() * pow2(unit_gap()))
        }
    }
}

impl Single {
    /// The number with the given bits.
    pub fn from_bits(bits: u32) -> (s: Single)
        ensures
            s.bits == bits,
    {
        Single { bits }
    }

    /// The bits of the number.
    pub fn to_bits(self) -> (bits: u32)
        ensures
            bits == self.bits,
    {
        self.bits
    }

    /// Whether the sign bit is set.
    pub fn sign(self) -> (negative: bool)
        ensures
            negative == self.negative(),
    {
        self.bits >= SINGLE_SIGN_BIT
    }

    /// The bits below the sign bit.
    pub fn unsigned_bits(self) -> (body: u32)
        ensures
            body == self.body(),
            body < SINGLE_SIGN_BIT,
    {
        if self.bits >= SINGLE_SIGN_BIT {
            self.bits - SINGLE_SIGN_BIT
        } else {
            self.bits
        }
    }

    /// The number with the given sign and the given bits below the sign bit.
    pub(crate) fn with_sign(negative: bool, body: u32) -> (s: Single)
        requires
            body < SINGLE_SIGN_BIT,
        ensures
            s == Single::assemble(negative, body as nat),
            s.negative() == negative,
            s.body() == body,
    {
        if negative {
            Single { bits: SINGLE_SIGN_BIT + body }
        } else {
            Single { bits: body }
        }
    }

    /// Significand and scale, as the exponent and fraction fields give them.
    pub fn parts(self) -> (p: (u32, u32))
        ensures
            p.0 == self.significand(),
            p.1 == self.scale(),
            p.0 < SINGLE_SIGNIFICAND_LIMIT,
            self.is_finite() ==> p.1 <= 253,
    {
        proof {
            self.lemma_fields();
        }
        let body: u32 = self.unsigned_bits();
        let exponent: u32 = body / SINGLE_HIDDEN_BIT;
        let fraction: u32 = body % SINGLE_HIDDEN_BIT;
        if exponent == 0 {
            (fraction, 0)
        } else {
            (SINGLE_HIDDEN_BIT + fraction, exponent - 1)
        }
    }

    /// The binary64 number with the same value.
    pub fn to_double(self) -> (d: Double)
        ensures
            d == self.widened(),
            self.is_finite() ==> d.is_finite() && d.negative() == self.negative() && d.magnitude()
                == self.magnitude() * pow2(unit_gap()),
    {
        let body: u32 = self.unsigned_bits();
        if body > SINGLE_INFINITY_BITS {
            return Double { bits: NAN_BITS };
        }
        if body == SINGLE_INFINITY_BITS {
            return Double::with_sign(self.sign(), INFINITY_BITS);
        }
        let (sig, scale) = self.parts();
        proof {
            self.lemma_widened_exact();
            lemma_pow2_adds(scale as nat, unit_gap());
            assert(sig * pow2((scale + 925) as nat) == (sig * pow2(scale as nat)) * pow2(
                unit_gap(),
            )) by (nonlinear_arith)
                requires
                    pow2((scale + 925) as nat) == pow2(scale as nat) * pow2(unit_gap()),
            ;
        }
        Double::nearest(self.sign(), sig as u128, scale + 925)
    }

    /// The binary32 number nearest to a binary64 number.
    pub fn from_double(d: Double) -> (s: Single)
        ensures
            s == Single::narrowed(d),
    {
        let body: u64 = d.unsigned_bits();
        let negative: bool = d.sign();
        if body > INFINITY_BITS {
            return Single { bits: SINGLE_NAN_BITS };
        }
        if body == INFINITY_BITS {
            return Single::with_sign(negative, SINGLE_INFINITY_BITS);
        }
        let (sig, scale) = d.parts();
        let ghost m = d.magnitude();
        let ghost w = pow2(scale as nat);
        proof {
            d.lemma_fields();
            lemma_pow2_values();
            lemma_pow2_monotone(0, scale as nat);
            lemma_pow2_adds(53, scale as nat);
            assert(sig * w < pow2(53) * w) by (nonlinear_arith)
                requires
                    sig < pow2(53),
                    w > 0,
            ;
        }
        // What lies above the smallest binade raises the exponent field; the
        // rest says how many low bits of the significand are rounded away.
        let above: u32 = if scale <= 896 {
            0
        } else {
            scale - 896
        };
        let drop: u32 = 925 + above - scale;
        proof {
            if scale <= 896 {
                lemma_pow2_monotone((53 + scale) as nat, 949);
            } else {
                lemma_pow2_adds(52, scale as nat);
                assert(pow2(52) * w <= sig * w) by (nonlinear_arith)
                    requires
                        pow2(52) <= sig,
                        w > 0,
                ;
                lemma_halvings_in_binade(m, 949, above as nat);
            }
            assert(above == halvings_below(m, pow2(949)));
            lemma_nearest_even_scaled(sig as nat, scale as nat, drop as nat);
        }
        let kept: u64;
        if drop >= 54 {
            proof {
                // Less than half of the smallest spacing.
                lemma_pow2_monotone(54, drop as nat);
                lemma_pow2_adds(53, 1);
                vstd::arithmetic::div_mod::lemma_basic_div(sig as int, pow2(drop as nat) as int);
                vstd::arithmetic::div_mod::lemma_small_mod(sig as nat, pow2(drop as nat));
            }
            kept = 0;
        } else {
            proof {
                lemma_pow2_monotone(drop as nat, 53);
                lemma_pow2_monotone(29, drop as nat);
            }
            let unit: u64 = power_of_two(drop) as u64;
            let low: u64 = sig / unit;
            let rest: u64 = sig % unit;
            proof {
                lemma_pow2_adds(29, 24);
                vstd::arithmetic::div_mod::lemma_div_is_ordered_by_denominator(
                    sig as int,
                    pow2(29) as int,
                    unit as int,
                );
                assert(sig / 0x2000_0000 < 0x100_0000);
            }
            let up: bool = 2 * rest > unit || (2 * rest == unit && low % 2 == 1);
            kept = if up {
                low + 1
            } else {
                low
            };
        }
        assert(kept == nearest_even(m, unit_gap() + above as nat));
        assert(above * SINGLE_HIDDEN_BIT <= 1149 * SINGLE_HIDDEN_BIT) by (nonlinear_arith)
            requires
                above <= 1149,
        ;
        let packed: u64 = above as u64 * (SINGLE_HIDDEN_BIT as u64) + kept;
        if packed < SINGLE_INFINITY_BITS as u64 {
            Single::with_sign(negative, packed as u32)
        } else {
            Single::with_sign(negative, SINGLE_INFINITY_BITS)
        }
    }
}

impl Single {
    /// The bits below the sign are the exponent field on top of the fraction.
    pub proof fn lemma_fields(self)
        ensures
            self.body() == self.exponent() * SINGLE_HIDDEN_BIT + self.fraction(),
            self.fraction() < SINGLE_HIDDEN_BIT,
            self.is_finite() <==> self.exponent() < 255,
            self.is_finite() ==> self.significand() < SINGLE_SIGNIFICAND_LIMIT && self.scale()
                <= 253,
    {
    }

    /// A rounding that is finite has the given sign, and its magnitude is
    /// the rounded multiple of the spacing at `m`.
    pub proof fn lemma_rounded_value(negative: bool, m: nat)
        requires
            Single::rounded(negative, m).is_finite(),
        ensures
            Single::rounded(negative, m).negative() == negative,
            Single::rounded(negative, m).magnitude() * pow2(unit_gap()) == nearest_even(
                m,
                Single::spacing(m),
            ) * pow2(Single::spacing(m)),
            Single::spacing(m) > unit_gap() ==> pow2(23 + Single::spacing(m)) <= m,
    {
        let above = halvings_below(m, pow2(949));
        let q = Single::spacing(m);
        let r = nearest_even(m, q);
        let d = Single::rounded(negative, m);
        let body = (above * SINGLE_HIDDEN_BIT + r) as nat;
        let u = pow2(q) as int;
        let g = pow2(unit_gap()) as int;
        lemma_pow2_values();
        lemma_halvings_bounds(m, 949);
        lemma_pow2_monotone(0, q);
        lemma_pow2_monotone(0, above);
        lemma_pow2_adds(23, q);
        lemma_pow2_adds(24, q);
        lemma_pow2_adds(24, 925);
        lemma_pow2_adds(above, 925);
        lemma_pow2_unfold(above + 1);
        vstd::arithmetic::div_mod::lemma_fundamental_div_mod(m as int, u);
        let low = m as int / u;
        assert(low < pow2(24) && (above >= 1 ==> pow2(23) <= low)) by (nonlinear_arith)
            requires
                m < pow2(24) * u,
                above >= 1 ==> pow2(23) * u <= m,
                m == u * low + m as int % u,
                0 <= m as int % u < u,
        ;
        assert(d.body() == body);
        let e: int = if r < SINGLE_HIDDEN_BIT {
            0
        } else if r < SINGLE_SIGNIFICAND_LIMIT {
            above as int + 1
        } else {
            above as int + 2
        };
        let f: int = if r < SINGLE_HIDDEN_BIT {
            r as int
        } else if r < SINGLE_SIGNIFICAND_LIMIT {
            r - SINGLE_HIDDEN_BIT
        } else {
            0
        };
        assert(body == e * SINGLE_HIDDEN_BIT + f) by (nonlinear_arith)
            requires
                body == above * SINGLE_HIDDEN_BIT + r,
                r < SINGLE_HIDDEN_BIT ==> above == 0 && e == 0 && f == r,
                SINGLE_HIDDEN_BIT <= r < SINGLE_SIGNIFICAND_LIMIT ==> e == above + 1 && f == r
                    - SINGLE_HIDDEN_BIT,
                r >= SINGLE_SIGNIFICAND_LIMIT ==> e == above + 2 && f == 0 && r == 2
                    * SINGLE_HIDDEN_BIT,
        ;
        vstd::arithmetic::div_mod::lemma_fundamental_div_mod_converse(
            body as int,
            SINGLE_HIDDEN_BIT as int,
            e,
            f,
        );
        assert(d.magnitude() * g == r * u) by (nonlinear_arith)
            requires
                d.magnitude() == d.significand() * pow2(d.scale()),
                u == pow2(above) * g,
                r < SINGLE_SIGNIFICAND_LIMIT ==> d.significand() == r && pow2(d.scale()) == pow2(
                    above,
                ),
                r >= SINGLE_SIGNIFICAND_LIMIT ==> 2 * d.significand() == r && pow2(d.scale()) == 2
                    * pow2(above),
        ;
    }

    /// No finite number of the format is nearer to `m * 2^-1074` than the
    /// rounding of `m`; where another is as near, the rounding is the one
    /// whose last bit is clear.
    pub proof fn lemma_rounded_is_nearest(negative: bool, m: nat, other: Single)
        requires
            Single::rounded(negative, m).is_finite(),
            other.is_finite(),
        ensures
            distance(Single::rounded(negative, m).magnitude() * pow2(unit_gap()), m) <= distance(
                other.magnitude() * pow2(unit_gap()),
                m,
            ),
            distance(Single::rounded(negative, m).magnitude() * pow2(unit_gap()), m) == distance(
                other.magnitude() * pow2(unit_gap()),
                m,
            ) ==> other.magnitude() == Single::rounded(negative, m).magnitude() || Single::rounded(
                negative,
                m,
            ).bits % 2 == 0,
    {
        let q = Single::spacing(m);
        let r = nearest_even(m, q);
        let u = pow2(q) as int;
        let g = pow2(unit_gap()) as int;
        let s = other.scale() + unit_gap();
        let sig = other.significand() as int;
        let mine = Single::rounded(negative, m).magnitude() as int;
        Single::lemma_rounded_value(negative, m);
        other.lemma_fields();
        lemma_pow2_values();
        lemma_pow2_monotone(0, q);
        lemma_pow2_monotone(0, unit_gap());
        lemma_pow2_adds(other.scale(), unit_gap());
        assert(other.magnitude() * g == sig * pow2(s)) by (nonlinear_arith)
            requires
                other.magnitude() == sig * pow2(other.scale()),
                pow2(s) == pow2(other.scale()) * g,
        ;
        assert(mine * g == other.magnitude() * g ==> mine == other.magnitude())
            by (nonlinear_arith)
            requires
                g > 0,
        ;
        if s >= q {
            let k = sig * pow2((s - q) as nat);
            lemma_pow2_adds((s - q) as nat, q);
            assert(k * u == sig * pow2(s)) by (nonlinear_arith)
                requires
                    k == sig * pow2((s - q) as nat),
                    pow2(s) == pow2((s - q) as nat) * u,
            ;
            lemma_nearest_even_is_nearest(m, q, k as nat);
            assert(r * u == k * u ==> r == k) by (nonlinear_arith)
                requires
                    u > 0,
            ;
        } else {
            lemma_pow2_adds(23, q);
            lemma_pow2_adds(24, s);
            lemma_pow2_monotone(24 + s, 23 + q);
            lemma_pow2_monotone(0, s);
            assert(sig * pow2(s) < pow2(24) * pow2(s)) by (nonlinear_arith)
                requires
                    sig < pow2(24),
                    pow2(s) > 0,
            ;
            lemma_nearest_even_is_nearest(m, q, pow2(23));
        }
    }

    /// A rounding is never a not-a-number, and it is an infinity exactly when
    /// `m` lies half a spacing or more beyond the largest finite number.
    pub proof fn lemma_rounded_overflow(negative: bool, m: nat)
        ensures
            !Single::rounded(negative, m).is_nan(),
            Single::rounded(negative, m).is_infinite() <==> m >= (pow2(25) - 1) * pow2(1177),
    {
        let above = halvings_below(m, pow2(949));
        let q = Single::spacing(m);
        let r = nearest_even(m, q) as int;
        let h = pow2(1177) as int;
        let limit = (pow2(25) - 1) * h;
        let u = pow2(q) as int;
        lemma_pow2_values();
        lemma_halvings_bounds(m, 949);
        lemma_pow2_monotone(0, 1177);
        lemma_pow2_monotone(0, q);
        lemma_pow2_unfold(25);
        lemma_pow2_unfold(1178);
        lemma_pow2_adds(24, 1177);
        lemma_pow2_adds(24, 1178);
        lemma_pow2_adds(23, q);
        lemma_pow2_adds(24, q);
        lemma_pow2_adds(24, 925);
        assert(pow2(24) * h < limit < pow2(25) * h && limit == (pow2(24) - 1) * (2 * h) + h
            && pow2(25) * h == pow2(24) * (2 * h)) by (nonlinear_arith)
            requires
                limit == (pow2(25) - 1) * h,
                pow2(25) == 2 * pow2(24),
                pow2(24) > 1,
                h > 0,
        ;
        vstd::arithmetic::div_mod::lemma_fundamental_div_mod(m as int, u);
        let low = m as int / u;
        let rest = m as int % u;
        assert(low < pow2(24) && (above >= 1 ==> pow2(23) <= low)) by (nonlinear_arith)
            requires
                m < pow2(24) * u,
                above >= 1 ==> pow2(23) * u <= m,
                m == u * low + rest,
                0 <= rest < u,
        ;
        assert(above <= 252 ==> above * SINGLE_HIDDEN_BIT + r < SINGLE_INFINITY_BITS)
            by (nonlinear_arith)
            requires
                r <= 2 * SINGLE_HIDDEN_BIT,
                SINGLE_HIDDEN_BIT == 0x80_0000,
                SINGLE_INFINITY_BITS == 0x7f80_0000,
        ;
        assert(above >= 254 ==> above * SINGLE_HIDDEN_BIT + r >= SINGLE_INFINITY_BITS)
            by (nonlinear_arith)
            requires
                above >= 1 ==> r >= SINGLE_HIDDEN_BIT,
                SINGLE_HIDDEN_BIT == 0x80_0000,
                SINGLE_INFINITY_BITS == 0x7f80_0000,
        ;
        if above <= 252 {
            lemma_pow2_monotone(24 + q, 24 + 1177);
        } else if above >= 254 {
            lemma_pow2_adds(25, 1177);
            lemma_pow2_monotone(1202, 23 + q);
        } else {
            assert(low <= pow2(24) - 2 ==> u * low + rest < limit) by (nonlinear_arith)
                requires
                    limit == (pow2(24) - 1) * u + h,
                    0 <= rest < u,
                    u == 2 * h,
            ;
            assert(low == pow2(24) - 1 ==> u * low == (pow2(24) - 1) * u) by (nonlinear_arith);
        }
    }

    /// A finite binary32 number comes back unchanged from binary64.
    pub proof fn lemma_narrowed_widened(self)
        requires
            self.is_finite(),
        ensures
            Single::narrowed(self.widened()) == self,
    {
        self.lemma_fields();
        self.lemma_widened_exact();
        lemma_pow2_values();
        let sig = self.significand();
        let t = self.scale();
        let g = pow2(unit_gap());
        let m = self.magnitude() * g;
        lemma_pow2_adds(t, unit_gap());
        lemma_pow2_adds(23, 925);
        lemma_pow2_adds(24, 925);
        lemma_pow2_monotone(948, 949);
        lemma_pow2_monotone(0, unit_gap());
        assert(m == sig * pow2(unit_gap() + t)) by (nonlinear_arith)
            requires
                m == (sig * pow2(t)) * g,
                pow2(unit_gap() + t) == pow2(t) * g,
        ;
        lemma_nearest_even_scaled(sig, unit_gap() + t, 0);
        crate::rounding::lemma_nearest_even_unit(sig);
        if t == 0 {
            assert(sig * g < pow2(24) * g) by (nonlinear_arith)
                requires
                    sig < pow2(24),
                    g > 0,
            ;
        } else {
            let w = pow2(unit_gap() + t);
            lemma_pow2_adds(23, unit_gap() + t);
            lemma_pow2_adds(24, unit_gap() + t);
            lemma_pow2_monotone(0, unit_gap() + t);
            assert(pow2(23) * w <= sig * w < pow2(24) * w) by (nonlinear_arith)
                requires
                    pow2(23) <= sig < pow2(24),
                    w > 0,
            ;
            lemma_halvings_in_binade(m, 949, t);
        }
        assert(t * SINGLE_HIDDEN_BIT + sig == self.body()) by (nonlinear_arith)
            requires
                self.body() == self.exponent() * SINGLE_HIDDEN_BIT + self.fraction(),
                t == (if self.exponent() == 0 {
                    0
                } else {
                    self.exponent() - 1
                }),
                sig == (if self.exponent() == 0 {
                    self.fraction() as int
                } else {
                    SINGLE_HIDDEN_BIT + self.fraction()
                }),
        ;
    }

    /// Widening keeps the sign and the value of a finite number.
    pub proof fn lemma_widened_exact(self)
        requires
            self.is_finite(),
        ensures
            self.widened().is_finite(),
            self.widened().negative() == self.negative(),
            self.widened().magnitude() == self.magnitude() * pow2(unit_gap()),
    {
        self.lemma_fields();
        let sig = self.significand();
        let t = self.scale();
        lemma_pow2_adds(t, unit_gap());
        assert(sig * pow2(t + unit_gap()) == (sig * pow2(t)) * pow2(unit_gap()))
            by (nonlinear_arith)
            requires
                pow2(t + unit_gap()) == pow2(t) * pow2(unit_gap()),
        ;
        Double::lemma_rounded_representable(self.negative(), sig, t + unit_gap());
    }
}

} // verus!

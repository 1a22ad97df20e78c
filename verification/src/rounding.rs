//! Rounding of natural numbers to a multiple of a power of two, the common
//! ground of both binary formats.

use vstd::arithmetic::div_mod::lemma_fundamental_div_mod_converse;
use vstd::arithmetic::power2::{lemma_pow2_adds, lemma_pow2_pos, lemma_pow2_unfold, pow2};
use vstd::prelude::*;

verus! {

/// How often `m` has to be halved, rounding down, until it is below `limit`.
pub open spec fn halvings_below(m: nat, limit: nat) -> nat
    decreases m,
{
    if m < limit || m == 0 {
        0
    } else {
        1 + halvings_below(m / 2, limit)
    }
}

/// How far apart two natural numbers are.
pub open spec fn distance(a: nat, b: nat) -> nat {
    if a >= b {
        (a - b) as nat
    } else {
        (b - a) as nat
    }
}

/// `m / 2^q` rounded to the nearest integer; a value exactly half way between
/// two integers goes to the even one.
pub open spec fn nearest_even(m: nat, q: nat) -> nat {
    let unit = pow2(q);
    let low = m / unit;
    let rest = m % unit;
    if 2 * rest > unit || (2 * rest == unit && low % 2 == 1) {
        low + 1
    } else {
        low
    }
}

/// A number in the binade `[2^(p+q-1), 2^(p+q))` takes exactly `q` halvings to
/// fall below `2^p`.
pub proof fn lemma_halvings_in_binade(m: nat, p: nat, q: nat)
    requires
        p >= 1,
        q >= 1,
        pow2((p + q - 1) as nat) <= m < pow2(p + q),
    ensures
        halvings_below(m, pow2(p)) == q,
    decreases q,
{
    lemma_pow2_unfold(p + q);
    lemma_pow2_unfold((p + q - 1) as nat);
    lemma_pow2_pos(p);
    if q == 1 {
        assert(m / 2 < pow2(p));
        assert(halvings_below(m / 2, pow2(p)) == 0);
    } else {
        lemma_pow2_monotone(p, (p + q - 1) as nat);
        lemma_halvings_in_binade(m / 2, p, (q - 1) as nat);
    }
}

/// The binade that a number lies in, read off the number of halvings.
pub proof fn lemma_halvings_bounds(m: nat, p: nat)
    requires
        p >= 1,
    ensures
        halvings_below(m, pow2(p)) == 0 ==> m < pow2(p),
        halvings_below(m, pow2(p)) >= 1 ==> pow2((p + halvings_below(m, pow2(p)) - 1) as nat) <= m
            < pow2(p + halvings_below(m, pow2(p))),
    decreases m,
{
    lemma_pow2_pos(p);
    if m >= pow2(p) {
        let rest = halvings_below(m / 2, pow2(p));
        lemma_halvings_bounds(m / 2, p);
        lemma_pow2_unfold(p + rest + 1);
        if rest >= 1 {
            lemma_pow2_unfold(p + rest);
        }
    }
}

/// Powers of two grow with the exponent.
pub proof fn lemma_pow2_monotone(a: nat, b: nat)
    requires
        a <= b,
    ensures
        pow2(a) <= pow2(b),
        pow2(a) > 0,
    decreases b - a,
{
    lemma_pow2_pos(a);
    if a < b {
        lemma_pow2_monotone(a, (b - 1) as nat);
        lemma_pow2_unfold(b);
    }
}

/// Quotient and remainder of `x * 2^t` by `2^(t+k)` are those of `x` by `2^k`,
/// the remainder scaled by `2^t`.
pub proof fn lemma_scaled_division(x: nat, t: nat, k: nat)
    ensures
        (x * pow2(t)) / pow2(t + k) == x / pow2(k),
        (x * pow2(t)) % pow2(t + k) == (x % pow2(k)) * pow2(t),
{
    let u = pow2(t) as int;
    let w = pow2(k) as int;
    let low = (x / pow2(k)) as int;
    let rest = (x % pow2(k)) as int;
    lemma_pow2_pos(t);
    lemma_pow2_pos(k);
    lemma_pow2_adds(t, k);
    assert(x == low * w + rest && 0 <= rest < w) by {
        vstd::arithmetic::div_mod::lemma_fundamental_div_mod(x as int, w);
    }
    assert(x * u == low * (u * w) + rest * u) by (nonlinear_arith)
        requires
            x == low * w + rest,
    ;
    assert(0 <= rest * u < u * w) by (nonlinear_arith)
        requires
            0 <= rest < w,
            u > 0,
    ;
    lemma_fundamental_div_mod_converse(x * u, u * w, low, rest * u);
}

/// Scaling a number by `2^t` and the rounding unit with it leaves the rounded
/// quotient unchanged.
pub proof fn lemma_nearest_even_scaled(x: nat, t: nat, k: nat)
    ensures
        nearest_even(x * pow2(t), t + k) == nearest_even(x, k),
{
    let u = pow2(t) as int;
    let w = pow2(k) as int;
    let rest = (x % pow2(k)) as int;
    lemma_pow2_pos(t);
    lemma_pow2_pos(k);
    lemma_pow2_adds(t, k);
    lemma_scaled_division(x, t, k);
    assert(2 * (rest * u) > u * w <==> 2 * rest > w) by (nonlinear_arith)
        requires
            u > 0,
    ;
    assert(2 * (rest * u) == u * w <==> 2 * rest == w) by (nonlinear_arith)
        requires
            u > 0,
    ;
}

/// The powers of two that the two formats are built from.
pub proof fn lemma_pow2_values()
    ensures
        pow2(0) == 1,
        pow2(1) == 2,
        pow2(23) == 0x80_0000,
        pow2(24) == 0x100_0000,
        pow2(32) == 0x1_0000_0000,
        pow2(52) == 0x10_0000_0000_0000,
        pow2(53) == 0x20_0000_0000_0000,
        pow2(64) == 0x1_0000_0000_0000_0000,
        pow2(75) == 0x800_0000_0000_0000_0000,
{
    vstd::arithmetic::power2::lemma2_to64();
    vstd::arithmetic::power2::lemma2_to64_rest();
    lemma_pow2_adds(64, 11);
}

/// With the unit `2^0` nothing is rounded.
pub proof fn lemma_nearest_even_unit(x: nat)
    ensures
        nearest_even(x, 0) == x,
{
    assert(pow2(0) == 1) by {
        vstd::arithmetic::power2::lemma2_to64();
    }
}

/// No multiple of `2^q` is nearer to `m` than the rounded one, and of two
/// nearest multiples the rounded one is the even one.
pub proof fn lemma_nearest_even_is_nearest(m: nat, q: nat, k: nat)
    ensures
        distance(nearest_even(m, q) * pow2(q), m) <= distance(k * pow2(q), m),
        distance(nearest_even(m, q) * pow2(q), m) == distance(k * pow2(q), m) ==> k
            == nearest_even(m, q) || nearest_even(m, q) % 2 == 0,
{
    let u = pow2(q) as int;
    let low = (m / pow2(q)) as int;
    let rest = (m % pow2(q)) as int;
    let r = nearest_even(m, q) as int;
    lemma_pow2_pos(q);
    assert(m == low * u + rest && 0 <= rest < u) by {
        vstd::arithmetic::div_mod::lemma_fundamental_div_mod(m as int, u);
    }
    assert((low + 1) * u == low * u + u) by (nonlinear_arith);
    if k <= low {
        assert(k * u <= low * u && (k < low ==> k * u + u <= low * u)) by (nonlinear_arith)
            requires
                0 <= k <= low,
                u > 0,
        ;
    } else {
        assert(k * u >= (low + 1) * u && (k > low + 1 ==> k * u >= (low + 1) * u + u))
            by (nonlinear_arith)
            requires
                k >= low + 1,
                u > 0,
        ;
    }
}

/// `2^k` for `k` up to 64.
pub(crate) fn power_of_two(k: u32) -> (p: u128)
    requires
        k <= 64,
    ensures
        p == pow2(k as nat),
        p <= 0x1_0000_0000_0000_0000,
{
    let mut p: u128 = 1;
    let mut i: u32 = 0;
    proof {
        lemma_pow2_values();
    }
    while i < k
        invariant
            i <= k <= 64,
            p == pow2(i as nat),
            p <= pow2(64),
            pow2(64) == 0x1_0000_0000_0000_0000,
        decreases k - i,
    {
        proof {
            lemma_pow2_unfold((i + 1) as nat);
            lemma_pow2_monotone((i + 1) as nat, 64);
        }
        p = p * 2;
        i = i + 1;
    }
    p
}

} // verus!

use item_collection::{Double, Single};

/// A small generator of bit patterns, the same on every run.
struct Patterns(u64);

impl Patterns {
    fn next(&mut self) -> u64 {
        self.0 ^= self.0 << 13;
        self.0 ^= self.0 >> 7;
        self.0 ^= self.0 << 17;
        self.0.wrapping_mul(0x2545_f491_4f6c_dd1d)
    }

    /// A pattern whose exponent field lies within `spread` of that of `near`.
    fn neighbour(&mut self, near: u64, spread: i64) -> u64 {
        let exponent = ((near >> 52) & 0x7ff) as i64;
        let shift = (self.next() % (2 * spread as u64 + 1)) as i64 - spread;
        let moved = (exponent + shift).clamp(0, 2047) as u64;
        let random = self.next();
        (random & 0x800f_ffff_ffff_ffff) | (moved << 52)
    }
}

const EDGES: [u64; 24] = [
    0x0000_0000_0000_0000,
    0x8000_0000_0000_0000,
    0x0000_0000_0000_0001,
    0x8000_0000_0000_0001,
    0x000f_ffff_ffff_ffff,
    0x0010_0000_0000_0000,
    0x0010_0000_0000_0001,
    0x001f_ffff_ffff_ffff,
    0x3ff0_0000_0000_0000,
    0xbff0_0000_0000_0000,
    0x3fef_ffff_ffff_ffff,
    0x3ff0_0000_0000_0001,
    0x4330_0000_0000_0000,
    0x4340_0000_0000_0000,
    0x433f_ffff_ffff_ffff,
    0x7fef_ffff_ffff_ffff,
    0xffef_ffff_ffff_ffff,
    0x7fe0_0000_0000_0000,
    0x7ca0_0000_0000_0000,
    0x7ff0_0000_0000_0000,
    0xfff0_0000_0000_0000,
    0x7ff8_0000_0000_0000,
    0x7ff0_0000_0000_0001,
    0xfff8_0000_0000_0001,
];

fn check_sum(a: u64, b: u64) {
    let expected = f64::from_bits(a) + f64::from_bits(b);
    let got = Double::from_bits(a).plus(Double::from_bits(b)).to_bits();
    if expected.is_nan() {
        assert_eq!(got, 0x7ff8_0000_0000_0000, "{a:#x} + {b:#x}");
    } else {
        assert_eq!(got, expected.to_bits(), "{a:#x} + {b:#x}");
    }
}

fn check_narrowing(a: u64) {
    let expected = f64::from_bits(a) as f32;
    let got = Single::from_double(Double::from_bits(a)).to_bits();
    if expected.is_nan() {
        assert_eq!(got, 0x7fc0_0000, "{a:#x}");
    } else {
        assert_eq!(got, expected.to_bits(), "{a:#x}");
    }
}

fn check_widening(a: u32) {
    let expected = f32::from_bits(a) as f64;
    let got = Single::from_bits(a).to_double().to_bits();
    if expected.is_nan() {
        assert_eq!(got, 0x7ff8_0000_0000_0000, "{a:#x}");
    } else {
        assert_eq!(got, expected.to_bits(), "{a:#x}");
    }
}

fn check_truncation(a: u64) {
    let expected = f64::from_bits(a) as u32;
    assert_eq!(Double::from_bits(a).to_u32(), expected, "{a:#x}");
}

#[test]
fn sum_matches_the_machine_on_edge_values() {
    for a in EDGES {
        for b in EDGES {
            check_sum(a, b);
        }
    }
}

#[test]
fn sum_matches_the_machine_on_unrelated_operands() {
    let mut patterns = Patterns(0x9e37_79b9_7f4a_7c15);
    for _ in 0..50_000 {
        let a = patterns.next();
        let b = patterns.next();
        check_sum(a, b);
    }
}

#[test]
fn sum_matches_the_machine_on_operands_of_similar_size() {
    let mut patterns = Patterns(0x0123_4567_89ab_cdef);
    for round in 0..60_000 {
        let a = patterns.next();
        let spread = [0, 1, 2, 3, 30, 53, 54, 55, 64, 65, 66, 70][round % 12];
        let b = patterns.neighbour(a, spread);
        check_sum(a, b);
        check_sum(b, a);
    }
}

#[test]
fn sum_matches_the_machine_near_the_ends_of_the_range() {
    let mut patterns = Patterns(0xfeed_face_cafe_beef);
    for _ in 0..20_000 {
        // Subnormal and barely normal operands.
        let a = patterns.next() & 0x803f_ffff_ffff_ffff;
        let b = patterns.next() & 0x803f_ffff_ffff_ffff;
        check_sum(a, b);
        // Operands whose sum may overflow.
        let c = (patterns.next() & 0x800f_ffff_ffff_ffff) | 0x7fe0_0000_0000_0000;
        let d = (patterns.next() & 0x801f_ffff_ffff_ffff) | 0x7fc0_0000_0000_0000;
        check_sum(c, d);
    }
}

#[test]
fn sum_of_halfway_cases_goes_to_the_even_neighbour() {
    // 2^53 + 1 lies half way between 2^53 and 2^53 + 2.
    let big = Double::from_bits(9007199254740992.0f64.to_bits());
    let one = Double::from_bits(1.0f64.to_bits());
    assert_eq!(big.plus(one).to_bits(), 9007199254740992.0f64.to_bits());
    // 2^53 + 2 + 1 lies half way between 2^53 + 2 and 2^53 + 4.
    let next = Double::from_bits(9007199254740994.0f64.to_bits());
    assert_eq!(next.plus(one).to_bits(), 9007199254740996.0f64.to_bits());
}

#[test]
fn sum_of_zeros_is_negative_only_for_two_negative_zeros() {
    let plus = Double::zero(false);
    let minus = Double::zero(true);
    assert_eq!(plus.plus(plus).to_bits(), 0);
    assert_eq!(plus.plus(minus).to_bits(), 0);
    assert_eq!(minus.plus(plus).to_bits(), 0);
    assert_eq!(minus.plus(minus).to_bits(), 0x8000_0000_0000_0000);
    let x = Double::from_bits(1.5f64.to_bits());
    let y = Double::from_bits((-1.5f64).to_bits());
    assert_eq!(x.plus(y).to_bits(), 0);
    assert_eq!(y.plus(x).to_bits(), 0);
}

#[test]
fn sum_with_infinities_and_not_a_number() {
    let inf = Double::from_bits(f64::INFINITY.to_bits());
    let neg_inf = Double::from_bits(f64::NEG_INFINITY.to_bits());
    let one = Double::from_bits(1.0f64.to_bits());
    let nan = Double::from_bits(0xfff0_0000_0000_0123);
    assert_eq!(inf.plus(one).to_bits(), f64::INFINITY.to_bits());
    assert_eq!(one.plus(neg_inf).to_bits(), f64::NEG_INFINITY.to_bits());
    assert_eq!(inf.plus(inf).to_bits(), f64::INFINITY.to_bits());
    assert_eq!(inf.plus(neg_inf).to_bits(), 0x7ff8_0000_0000_0000);
    assert_eq!(nan.plus(one).to_bits(), 0x7ff8_0000_0000_0000);
    assert_eq!(one.plus(nan).to_bits(), 0x7ff8_0000_0000_0000);
    let max = Double::from_bits(f64::MAX.to_bits());
    assert_eq!(max.plus(max).to_bits(), f64::INFINITY.to_bits());
}

#[test]
fn nearest_rounds_a_scaled_integer() {
    // 3 * 2^1073 units of 2^-1074 are one and a half.
    assert_eq!(Double::nearest(false, 3, 1073).to_bits(), 1.5f64.to_bits());
    assert_eq!(Double::nearest(true, 1, 1074).to_bits(), (-1.0f64).to_bits());
    assert_eq!(Double::nearest(false, 1, 0).to_bits(), 1);
    assert_eq!(Double::nearest(true, 0, 77).to_bits(), 0x8000_0000_0000_0000);
    // 2^53 + 1 and 2^53 + 3: half way, to the even significand.
    assert_eq!(
        Double::nearest(false, (1 << 53) + 1, 1074).to_bits(),
        9007199254740992.0f64.to_bits()
    );
    assert_eq!(
        Double::nearest(false, (1 << 53) + 3, 1074).to_bits(),
        9007199254740996.0f64.to_bits()
    );
    // Beyond the largest finite number.
    assert_eq!(Double::nearest(false, 1, 2098).to_bits(), f64::INFINITY.to_bits());
    assert_eq!(Double::nearest(false, u128::MAX, 4000).to_bits(), f64::INFINITY.to_bits());
    assert_eq!(Double::nearest(false, (1 << 53) - 1, 2045).to_bits(), f64::MAX.to_bits());
    assert_eq!(Double::nearest(false, (1 << 54) - 1, 2044).to_bits(), f64::INFINITY.to_bits());
    assert_eq!(Double::nearest(false, u128::MAX, 1074).to_bits(), (u128::MAX as f64).to_bits());
    // Just below 2^128 at 2^-74: rounds up to 2^54.
    assert_eq!(
        Double::nearest(false, u128::MAX - 1, 1000).to_bits(),
        18014398509481984.0f64.to_bits()
    );
}

#[test]
fn truncation_matches_the_machine() {
    for a in EDGES {
        check_truncation(a);
    }
    let mut patterns = Patterns(0x1357_9bdf_0246_8ace);
    for _ in 0..50_000 {
        check_truncation(patterns.next());
        // Exponents around the range of the integer.
        let near = patterns.neighbour(0x41e0_0000_0000_0000, 40);
        check_truncation(near);
    }
    for value in [0.0, 0.5, 1.0, 1.999, 4294967295.0, 4294967295.999, 4294967296.0, -1.0] {
        check_truncation(f64::to_bits(value));
    }
}

#[test]
fn integers_convert_exactly() {
    let mut patterns = Patterns(0x0f0f_0f0f_1234_5678);
    for n in [0u32, 1, 2, 3, 10, 255, 65536, 0x7fff_ffff, 0x8000_0000, u32::MAX] {
        assert_eq!(Double::from_u32(n).to_bits(), (n as f64).to_bits());
        assert_eq!(Double::from_u32(n).to_u32(), n);
    }
    for _ in 0..50_000 {
        let n = (patterns.next() >> 32) as u32;
        assert_eq!(Double::from_u32(n).to_bits(), (n as f64).to_bits());
        assert_eq!(Double::from_u32(n).to_u32(), n);
    }
}

#[test]
fn narrowing_matches_the_machine() {
    for a in EDGES {
        check_narrowing(a);
    }
    let mut patterns = Patterns(0xdead_beef_0bad_f00d);
    for _ in 0..50_000 {
        check_narrowing(patterns.next());
        // Around the smallest, the subnormal and the largest singles.
        check_narrowing(patterns.neighbour(0x3800_0000_0000_0000, 60));
        check_narrowing(patterns.neighbour(0x47e0_0000_0000_0000, 4));
        // Halfway cases: only the top bits of the fraction set.
        check_narrowing(patterns.neighbour(0x3ff0_0000_0000_0000, 200) & 0xffff_ffff_f000_0000);
    }
    for value in [0.1, 16777217.0, 16777219.0, 3.4028235677973366e38, 3.4028235e38, 1.0e-45] {
        check_narrowing(f64::to_bits(value));
        check_narrowing(f64::to_bits(-value));
    }
}

#[test]
fn widening_matches_the_machine() {
    for a in [
        0u32,
        0x8000_0000,
        1,
        0x8000_0001,
        0x007f_ffff,
        0x0080_0000,
        0x3f80_0000,
        0x7f7f_ffff,
        0x7f80_0000,
        0xff80_0000,
        0x7fc0_0000,
        0x7f80_0001,
    ] {
        check_widening(a);
    }
    let mut patterns = Patterns(0x2468_ace0_1357_9bdf);
    for _ in 0..100_000 {
        check_widening((patterns.next() >> 32) as u32);
        check_widening((patterns.next() >> 32) as u32 & 0x807f_ffff);
    }
}

#[test]
fn narrowing_then_widening_changes_a_number_only_if_it_needs_more_than_a_single() {
    let mut patterns = Patterns(0x1111_2222_3333_4444);
    for _ in 0..50_000 {
        let single = (patterns.next() >> 32) as u32;
        if f32::from_bits(single).is_nan() {
            continue;
        }
        let wide = Single::from_bits(single).to_double();
        assert_eq!(Single::from_double(wide).to_bits(), single);
    }
}

#[test]
fn zero_test_ignores_the_sign() {
    assert!(Double::from_bits(0).equals_zero());
    assert!(Double::from_bits(0x8000_0000_0000_0000).equals_zero());
    assert!(!Double::from_bits(1).equals_zero());
    assert!(!Double::from_bits(0x8000_0000_0000_0001).equals_zero());
    assert!(!Double::from_bits(0x7ff8_0000_0000_0000).equals_zero());
    assert!(Double::zero(true).sign());
    assert!(!Double::zero(false).sign());
}

#[test]
fn parts_give_significand_and_scale() {
    assert_eq!(Double::from_bits(1.0f64.to_bits()).parts(), (1 << 52, 1022));
    assert_eq!(Double::from_bits(1).parts(), (1, 0));
    assert_eq!(Double::from_bits(0x0010_0000_0000_0000).parts(), (1 << 52, 0));
    assert_eq!(Double::from_bits(f64::MAX.to_bits()).parts(), ((1 << 53) - 1, 2045));
    assert_eq!(Single::from_bits(1.0f32.to_bits()).parts(), (1 << 23, 126));
    assert_eq!(Single::from_bits(1).parts(), (1, 0));
    assert_eq!(Double::from_bits(f64::INFINITY.to_bits()).parts(), (1 << 52, 2046));
    assert_eq!(Single::from_bits(f32::NAN.to_bits()).parts(), (3 << 22, 254));
    assert_eq!(Double::from_bits(0xc000_0000_0000_0000).unsigned_bits(), 0x4000_0000_0000_0000);
    assert_eq!(Single::from_bits(0xc000_0000).unsigned_bits(), 0x4000_0000);
    assert!(Single::from_bits(0xc000_0000).sign());
}

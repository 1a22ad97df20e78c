//! What holds of every record, and of each of the two layouts.

use crate::array::Array;
use crate::binary32::{unit_gap, Single};
use crate::binary64::Double;
use crate::collection::{all_zero, is_fresh, positive_zero, same_slots, total, ItemCollection};
use crate::integer::one;
use crate::item::Item;
use crate::rounding::{lemma_nearest_even_unit, lemma_pow2_monotone, lemma_pow2_values};
use crate::tuple::Tuple;
use vstd::arithmetic::power2::pow2;
use vstd::prelude::*;

verus! {

/// The three positions are 0, 1 and 2, and no two keys share one.
pub proof fn lemma_positions_are_distinct(a: Item, b: Item)
    ensures
        0 <= a.position() < 3,
        Item::First.position() == 0,
        Item::Second.position() == 1,
        Item::Third.position() == 2,
        a.position() == b.position() <==> a == b,
{
}

/// A record whose slots all read as positive zero is in the default state,
/// and its sum is positive zero.
pub proof fn lemma_fresh_record_is_default<C: ItemCollection>(record: &C)
    requires
        is_fresh(record),
    ensures
        all_zero(record.slot(Item::First), record.slot(Item::Second), record.slot(Item::Third)),
        total(record.slot(Item::First), record.slot(Item::Second), record.slot(Item::Third))
            == positive_zero(),
{
    let zero = positive_zero();
    assert(zero.body() == 0);
    assert(zero.exponent() == 0 && zero.fraction() == 0);
    assert(zero.magnitude() == 0) by {
        assert(0 * pow2(0) == 0);
    }
    assert(Double::sum_of(zero, zero) == zero);
}

/// The sum and the default test depend on what the slots read as, and on
/// nothing else of the layout: two records that read the same in every slot
/// have the same sum and are default together.
pub proof fn lemma_layouts_agree<A: ItemCollection, B: ItemCollection>(a: &A, b: &B)
    requires
        same_slots(a, b),
    ensures
        total(a.slot(Item::First), a.slot(Item::Second), a.slot(Item::Third)) == total(
            b.slot(Item::First),
            b.slot(Item::Second),
            b.slot(Item::Third),
        ),
        all_zero(a.slot(Item::First), a.slot(Item::Second), a.slot(Item::Third)) == all_zero(
            b.slot(Item::First),
            b.slot(Item::Second),
            b.slot(Item::Third),
        ),
{
}

/// Whatever is written to a slot of the array record is what the slot reads
/// as afterwards, bit for bit.
pub proof fn lemma_array_keeps_every_value(item: Item, value: Double)
    ensures
        Array::stored(item, value) == value,
{
}

/// An unsigned 32-bit integer comes back unchanged from binary64.
pub proof fn lemma_truncated_of_u32(n: u32)
    ensures
        Double::of_u32(n).truncated() == n,
{
    Double::lemma_of_u32_exact(n);
    lemma_pow2_monotone(0, 1074);
    vstd::arithmetic::div_mod::lemma_div_by_multiple(n as int, one() as int);
}

/// The first slot of the tuple record keeps the integer part of a number
/// that is not negative and below `2^32`.
pub proof fn lemma_tuple_first_keeps_integer_part(value: Double)
    requires
        value.is_finite(),
        !value.negative(),
        value.magnitude() < pow2(32) * one(),
    ensures
        Tuple::stored(Item::First, value).is_finite(),
        !Tuple::stored(Item::First, value).negative(),
        Tuple::stored(Item::First, value).magnitude() == (value.magnitude() / one()) * one(),
{
    lemma_pow2_values();
    lemma_pow2_monotone(0, 1074);
    let whole = value.magnitude() / one();
    assert(whole < pow2(32)) by {
        vstd::arithmetic::div_mod::lemma_div_by_multiple_is_strongly_ordered(
            value.magnitude() as int,
            (pow2(32) * one()) as int,
            pow2(32) as int,
            one() as int,
        );
        vstd::arithmetic::div_mod::lemma_div_by_multiple(pow2(32) as int, one() as int);
    }
    Double::lemma_of_u32_exact(whole as u32);
}

/// What the first slot of the tuple record cannot hold: a negative number or
/// a not-a-number is stored as zero, and a number of `2^32` or more, or
/// positive infinity, as the largest integer.
pub proof fn lemma_tuple_first_stays_in_range(value: Double)
    ensures
        value.is_nan() || value.negative() ==> Tuple::stored(Item::First, value) == positive_zero(),
        !value.is_nan() && !value.negative() && (value.is_infinite() || value.magnitude() >= pow2(32)
            * one()) ==> Tuple::stored(Item::First, value) == Double::of_u32(u32::MAX),
{
    lemma_pow2_values();
    lemma_pow2_monotone(0, 1074);
    lemma_nearest_even_unit(0);
    assert(0 * one() == 0);
    if !value.is_nan() && !value.negative() && !value.is_infinite() && value.magnitude() >= pow2(32)
        * one() {
        vstd::arithmetic::div_mod::lemma_div_is_ordered(
            (pow2(32) * one()) as int,
            value.magnitude() as int,
            one() as int,
        );
        vstd::arithmetic::div_mod::lemma_div_by_multiple(pow2(32) as int, one() as int);
    }
}

/// The second slot of the tuple record reads as the binary32 number nearest
/// to what was written, with that number's sign and value.
pub proof fn lemma_tuple_second_keeps_nearest_single(value: Double)
    requires
        Single::narrowed(value).is_finite(),
    ensures
        Tuple::stored(Item::Second, value).is_finite(),
        Tuple::stored(Item::Second, value).negative() == Single::narrowed(value).negative(),
        Tuple::stored(Item::Second, value).magnitude() == Single::narrowed(value).magnitude()
            * pow2(unit_gap()),
{
    Single::narrowed(value).lemma_widened_exact();
}

/// Whatever is written to the third slot of the tuple record is what the
/// slot reads as afterwards, bit for bit.
pub proof fn lemma_tuple_third_keeps_every_value(value: Double)
    ensures
        Tuple::stored(Item::Third, value) == value,
{
}

/// A number that the tuple record has stored in a slot is stored again
/// without change.
pub proof fn lemma_tuple_stores_its_own_values(item: Item, value: Double)
    ensures
        Tuple::stored(item, Tuple::stored(item, value)) == Tuple::stored(item, value),
{
    match item {
        Item::First => {
            lemma_truncated_of_u32(value.truncated());
        },
        Item::Second => {
            let single = Single::narrowed(value);
            if single.is_finite() {
                single.lemma_narrowed_widened();
            } else if single.is_infinite() {
                assert(single.widened().is_infinite());
                assert(single.widened().negative() == single.negative());
                assert(Single::narrowed(single.widened()) == single);
            } else {
                assert(single.widened() == Double::nan());
                assert(Double::nan().is_nan());
                if value.is_nan() {
                } else if value.is_infinite() {
                } else {
                    assert(!Single::rounded(value.negative(), value.magnitude()).is_nan());
                }
            }
        },
        Item::Third => {},
    }
}

} // verus!

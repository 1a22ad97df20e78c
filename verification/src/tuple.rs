//! The record that keeps each slot in a field of its own type.

use crate::binary32::Single;
use crate::binary64::Double;
use crate::collection::{is_fresh, ItemCollection};
use crate::item::Item;
use crate::rounding::lemma_nearest_even_unit;
use vstd::arithmetic::power2::pow2;
use vstd::prelude::*;

verus! {

/// An unsigned 32-bit integer, a binary32 number and a binary64 number, one
/// for each [`Item`] in turn.
///
/// A write narrows the value to the field's type and a read widens it again,
/// so the first slot keeps the integer part, within the range of the integer,
/// and the second keeps the nearest binary32 number.
pub struct Tuple(u32, Single, Double);

impl ItemCollection for Tuple {
    /// The field of the key, widened to binary64.
    closed spec fn slot(&self, item: Item) -> Double {
        match item {
            Item::First => Double::of_u32(self.0),
            Item::Second => self.1.widened(),
            Item::Third => self.2,
        }
    }

    /// What is left of a value once it has been narrowed to the field of the
    /// key and widened again: for the first slot its integer part, zero if the
    /// value is negative or not a number and `u32::MAX` if it is larger than
    /// that; for the second the nearest binary32 number; for the third the
    /// value itself.
    open spec fn stored(item: Item, value: Double) -> Double {
        match item {
            Item::First => Double::of_u32(value.truncated()),
            Item::Second => Single::narrowed(value).widened(),
            Item::Third => value,
        }
    }

    /// Reads the field of the key and widens it to binary64.
    fn get_item(&self, item: Item) -> (value: Double) {
        match item {
            Item::First => Double::from_u32(self.0),
            Item::Second => self.1.to_double(),
            Item::Third => self.2,
        }
    }

    /// Narrows the value to the type of the key's field and writes the field.
    fn set_item(&mut self, item: Item, value: Double) {
        match item {
            Item::First => self.0 = value.to_u32(),
            Item::Second => self.1 = Single::from_double(value),
            Item::Third => self.2 = value,
        }
    }
}

impl Default for Tuple {
    /// The record whose slots all read as positive zero.
    fn default() -> (record: Self)
        ensures
            is_fresh(&record),
    {
        let record = Tuple(0, Single { bits: 0 }, Double { bits: 0 });
        proof {
            lemma_nearest_even_unit(0);
            record.1.lemma_fields();
            assert(0 * pow2(1074) == 0);
            assert(record.1.significand() == 0);
            assert(0 * pow2(record.1.scale()) == 0);
            assert(0 * pow2(925) == 0);
            assert(Double::rounded(false, 0) == (Double { bits: 0 }));
        }
        record
    }
}

} // verus!

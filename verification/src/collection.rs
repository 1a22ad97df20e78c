//! The access interface that every record layout implements.

use crate::binary64::Double;
use crate::item::Item;
use vstd::prelude::*;

verus! {

/// The sum of three numbers, taken from left to right.
pub open spec fn total(first: Double, second: Double, third: Double) -> Double {
    Double::sum_of(Double::sum_of(first, second), third)
}

/// Whether three numbers all compare equal to zero.
pub open spec fn all_zero(first: Double, second: Double, third: Double) -> bool {
    first.is_zero() && second.is_zero() && third.is_zero()
}

/// A record of three numeric slots, one for each [`Item`].
///
/// An implementation provides `get_item` and `set_item` and says, by `slot`
/// and `stored`, what they read and write; `sum` and `is_default` come with
/// the interface and depend on the slots alone.
pub trait ItemCollection {
    /// The number that the slot reads as.
    spec fn slot(&self, item: Item) -> Double;

    /// The number that a slot reads as once `value` has been written to it:
    /// `value` itself, unless the slot's storage is narrower.
    spec fn stored(item: Item, value: Double) -> Double;

    /// Reads a slot.
    fn get_item(&self, item: Item) -> (value: Double)
        ensures
            value == self.slot(item),
    ;

    /// Writes a slot and leaves the other two as they are.
    fn set_item(&mut self, item: Item, value: Double)
        ensures
            final(self).slot(item) == Self::stored(item, value),
            forall|other: Item| other != item ==> final(self).slot(other) == old(self).slot(other),
    ;

    /// The sum of the three slots: first plus second, plus third.
    fn sum(&self) -> (sum: Double)
        ensures
            sum == total(self.slot(Item::First), self.slot(Item::Second), self.slot(Item::Third)),
    {
        let first = self.get_item(Item::First);
        let second = self.get_item(Item::Second);
        let third = self.get_item(Item::Third);
        first.plus(second).plus(third)
    }

    /// Whether every slot compares equal to zero, as in a fresh record.
    fn is_default(&self) -> (default: bool)
        ensures
            default == all_zero(
                self.slot(Item::First),
                self.slot(Item::Second),
                self.slot(Item::Third),
            ),
    {
        self.get_item(Item::First).equals_zero() && self.get_item(Item::Second).equals_zero()
            && self.get_item(Item::Third).equals_zero()
    }
}

/// Positive zero, the number that every slot of a fresh record reads as.
pub open spec fn positive_zero() -> Double {
    Double { bits: 0 }
}

/// Whether every slot of the record reads as positive zero.
pub open spec fn is_fresh<C: ItemCollection>(record: &C) -> bool {
    forall|item: Item| record.slot(item) == positive_zero()
}

/// Whether two records, of whatever layout, read the same in every slot.
pub open spec fn same_slots<A: ItemCollection, B: ItemCollection>(a: &A, b: &B) -> bool {
    forall|item: Item| a.slot(item) == b.slot(item)
}

} // verus!

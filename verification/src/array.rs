//! The record that keeps its three slots in an array of binary64 numbers.

use crate::binary64::Double;
use crate::collection::{is_fresh, ItemCollection};
use crate::item::Item;
use vstd::prelude::*;

verus! {

/// Three binary64 numbers, indexed by [`Item::index`]. Nothing is lost
/// between a write and the next read.
pub struct Array([Double; 3]);

impl ItemCollection for Array {
    /// The element at the key's position.
    closed spec fn slot(&self, item: Item) -> Double {
        self.0[item.position()]
    }

    /// Every value is stored as it is.
    open spec fn stored(item: Item, value: Double) -> Double {
        value
    }

    /// Reads the element at the key's position.
    fn get_item(&self, item: Item) -> (value: Double) {
        self.0[item.index()]
    }

    /// Writes the element at the key's position.
    fn set_item(&mut self, item: Item, value: Double) {
        self.0[item.index()] = value;
    }
}

impl Default for Array {
    /// The record whose slots all hold positive zero.
    fn default() -> (record: Self)
        ensures
            is_fresh(&record),
    {
        let zero = Double { bits: 0 };
        Array([zero, zero, zero])
    }
}

} // verus!

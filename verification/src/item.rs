//! The keys by which the slots of a record are named.

use vstd::prelude::*;

verus! {

/// One of the three named slots that every record exposes.
#[derive(Clone, Copy, Debug, PartialEq, Eq, Structural)]
pub enum Item {
    First,
    Second,
    Third,
}

impl Item {
    /// The position of the slot in declaration order, counted from zero.
    pub open spec fn position(self) -> int {
        match self {
            Item::First => 0,
            Item::Second => 1,
            Item::Third => 2,
        }
    }

    /// The position of the slot as an array index.
    pub fn index(&self) -> (i: usize)
        ensures
            i == self.position(),
            i < 3,
    {
        match self {
            Item::First => 0,
            Item::Second => 1,
            Item::Third => 2,
        }
    }
}

} // verus!

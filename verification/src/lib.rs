//! Fixed-arity numeric records: three named slots behind one access interface,
//! over a positional layout with narrower fields and over a plain array.
//!
//! Values cross the interface as IEEE-754 binary64 numbers, carried as their
//! bit patterns so that every operation is an integer computation with a
//! stated result.

pub mod addition;
pub mod array;
pub mod binary32;
pub mod binary64;
pub mod collection;
pub mod integer;
pub mod item;
pub mod laws;
pub mod rounding;
pub mod tuple;

pub use array::Array;
pub use binary32::Single;
pub use binary64::Double;
pub use collection::ItemCollection;
pub use item::Item;
pub use tuple::Tuple;

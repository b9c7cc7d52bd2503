//! A named value kept in a database.

use vstd::prelude::*;

verus! {

/// A database variable holding one value of type `T`.
pub trait Variant<T> {
    /// The variable's name.
    fn name(&self) -> String;

    /// Whether the variable holds a value.
    fn exist(&self) -> bool;

    /// The value, if there is one.
    fn get(&self) -> Option<T>;

    /// The value, or `v` when there is none.
    fn get_or(&self, v: &T) -> T;

    /// Stores `data` as the value.
    fn set(&self, data: &T);
}

} // verus!

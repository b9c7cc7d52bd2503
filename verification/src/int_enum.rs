//! An enumeration held as an integer.

use vstd::prelude::*;

verus! {

/// Integer-valued enumeration.
#[derive(PartialEq, Eq, PartialOrd, Ord, Copy, Clone, Default)]
pub struct IntEnum(i32);

} // verus!

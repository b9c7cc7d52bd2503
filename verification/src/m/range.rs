//! A closed range of values.

use crate::algo::order::{partial_ge, partial_le, partial_order_obeyed};
use core::ops::Sub;
use vstd::prelude::*;
use vstd::std_specs::ops::SubSpec;

verus! {

/// The values from `min` to `max`, both included.
#[derive(Default, Debug, PartialEq, PartialOrd)]
pub struct Range<T> {
    pub min: T,
    pub max: T,
}

/// Range of `i32` values.
pub type RangeI = Range<i32>;

/// Range of `i64` values.
pub type RangeI64 = Range<i64>;

impl<T: PartialOrd> Range<T> {
    /// The range from `min` to `max`; `min` must not be greater than `max`.
    pub fn new(min: T, max: T) -> (r: Self)
        requires
            partial_order_obeyed::<T>(),
            partial_le(min, max),
        ensures
            r.min == min,
            r.max == max,
    {
        Range { min, max }
    }

    /// The range from `min` to `max`, or `None` where `min <= max` does
    /// not hold.
    pub fn try_new(min: T, max: T) -> (r: Option<Self>)
        ensures
            partial_order_obeyed::<T>() ==> (r is Some <==> partial_le(min, max)),
            r matches Some(x) ==> x.min == min && x.max == max,
    {
        if min <= max {
            Some(Range { min, max })
        } else {
            None
        }
    }

    /// Whether `value` lies between `min` and `max`.
    pub fn contains(&self, value: &T) -> (r: bool)
        ensures
            partial_order_obeyed::<T>() ==> r == (partial_ge(*value, self.min) && partial_le(
                *value,
                self.max,
            )),
    {
        *value >= self.min && *value <= self.max
    }

    /// `max - min`.
    pub fn len(&self) -> (r: T) where T: Sub<Output = T> + Copy
        requires
            self.max.sub_req(self.min),
        ensures
            T::obeys_sub_spec() ==> r == self.max.sub_spec(self.min),
    {
        self.max - self.min
    }
}

} // verus!

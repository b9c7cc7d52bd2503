//! Filling in what a value lacks from another value of the same type.

use vstd::pervasive::cloned;
use vstd::prelude::*;

verus! {

/// Completes a value from another: where `self` holds nothing (the
/// default), it takes what `other` holds.
pub trait CompleteBy {
    fn complete_by(&mut self, other: &Self);
}

impl CompleteBy for i8 {
    fn complete_by(&mut self, other: &Self)
        ensures
            *final(self) == if *old(self) == 0 { *other } else { *old(self) },
    {
        if *self == 0 {
            *self = *other;
        }
    }
}

impl CompleteBy for i16 {
    fn complete_by(&mut self, other: &Self)
        ensures
            *final(self) == if *old(self) == 0 { *other } else { *old(self) },
    {
        if *self == 0 {
            *self = *other;
        }
    }
}

impl CompleteBy for i32 {
    fn complete_by(&mut self, other: &Self)
        ensures
            *final(self) == if *old(self) == 0 { *other } else { *old(self) },
    {
        if *self == 0 {
            *self = *other;
        }
    }
}

impl CompleteBy for i64 {
    fn complete_by(&mut self, other: &Self)
        ensures
            *final(self) == if *old(self) == 0 { *other } else { *old(self) },
    {
        if *self == 0 {
            *self = *other;
        }
    }
}

impl CompleteBy for u8 {
    fn complete_by(&mut self, other: &Self)
        ensures
            *final(self) == if *old(self) == 0 { *other } else { *old(self) },
    {
        if *self == 0 {
            *self = *other;
        }
    }
}

impl CompleteBy for u16 {
    fn complete_by(&mut self, other: &Self)
        ensures
            *final(self) == if *old(self) == 0 { *other } else { *old(self) },
    {
        if *self == 0 {
            *self = *other;
        }
    }
}

impl CompleteBy for u32 {
    fn complete_by(&mut self, other: &Self)
        ensures
            *final(self) == if *old(self) == 0 { *other } else { *old(self) },
    {
        if *self == 0 {
            *self = *other;
        }
    }
}

impl CompleteBy for u64 {
    fn complete_by(&mut self, other: &Self)
        ensures
            *final(self) == if *old(self) == 0 { *other } else { *old(self) },
    {
        if *self == 0 {
            *self = *other;
        }
    }
}

impl<T: Clone> CompleteBy for Option<T> {
    fn complete_by(&mut self, other: &Self)
        ensures
            *old(self) is Some ==> *final(self) == *old(self),
            *old(self) is None ==> (*other is None ==> *final(self) is None),
            *old(self) is None ==> (*other matches Some(v) ==> (*final(self) matches Some(w) && cloned(
                v,
                w,
            ))),
    {
        if self.is_none() {
            *self = other.clone();
        }
    }
}

} // verus!

//! Minimum and maximum under a partial order.

use crate::algo::order::{partial_ge, partial_le, partial_order_obeyed};
use vstd::prelude::*;

verus! {

/// The smaller of `a` and `b`; `a` when `a <= b` holds, `b` otherwise.
pub fn partial_min<T: PartialOrd>(a: T, b: T) -> (r: T)
    ensures
        r == a || r == b,
        partial_order_obeyed::<T>() ==> r == if partial_le(a, b) {
            a
        } else {
            b
        },
{
    if a <= b {
        a
    } else {
        b
    }
}

/// The larger of `a` and `b`; `b` when `b >= a` holds, `a` otherwise.
pub fn partial_max<T: PartialOrd>(a: T, b: T) -> (r: T)
    ensures
        r == a || r == b,
        partial_order_obeyed::<T>() ==> r == if partial_ge(b, a) {
            b
        } else {
            a
        },
{
    if b >= a {
        b
    } else {
        a
    }
}

} // verus!

//! Element-wise conversion of vectors.

use vstd::prelude::*;
use vstd::std_specs::convert::IntoSpec;

verus! {

/// Converts every element with `Into`, keeping the order.
pub fn vec_into<T1: Into<T2>, T2>(v: Vec<T1>) -> (r: Vec<T2>)
    ensures
        r@.len() == v@.len(),
        T1::obeys_into_spec() ==> forall|i: int|
            0 <= i < v@.len() ==> #[trigger] r@[i] == v@[i].into_spec(),
{
    let mut rest = v;
    let mut rev: Vec<T1> = Vec::new();
    while rest.len() > 0
        invariant
            rev@.len() + rest@.len() == v@.len(),
            rest@ == v@.take(rest@.len() as int),
            forall|i: int| 0 <= i < rev@.len() ==> #[trigger] rev@[i] == v@[v@.len() - 1 - i],
        decreases rest@.len(),
    {
        let x = rest.pop().unwrap();
        rev.push(x);
        proof {
            assert(rest@ =~= v@.take(rest@.len() as int));
        }
    }
    let mut r: Vec<T2> = Vec::new();
    while rev.len() > 0
        invariant
            r@.len() + rev@.len() == v@.len(),
            forall|i: int| 0 <= i < rev@.len() ==> #[trigger] rev@[i] == v@[v@.len() - 1 - i],
            T1::obeys_into_spec() ==> forall|i: int|
                0 <= i < r@.len() ==> #[trigger] r@[i] == v@[i].into_spec(),
        decreases rev@.len(),
    {
        let x = rev.pop().unwrap();
        r.push(x.into());
    }
    r
}

} // verus!

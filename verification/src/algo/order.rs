//! The total order that `Ord` gives a type, as spec functions, with the
//! facts about it that the searches and the queues rely on.

use core::cmp::Ordering;
use vstd::laws_cmp::{obeys_cmp, obeys_cmp_ord, obeys_cmp_partial_ord, obeys_partial_cmp_spec_properties};
use vstd::laws_eq::obeys_eq_spec_properties;
use vstd::std_specs::cmp::{OrdSpec, PartialEqSpec, PartialOrdSpec};
use vstd::prelude::*;

verus! {

/// `T`'s `Ord` is a lawful total order that agrees with its
/// `PartialOrd` and `PartialEq` (true of the integer types).
pub open spec fn lawful_order<T: Ord>() -> bool {
    obeys_cmp::<T>()
}

/// `T`'s `PartialOrd` computes what its spec says (true of the integer
/// types).
pub open spec fn partial_order_obeyed<T: PartialOrd>() -> bool {
    T::obeys_partial_cmp_spec()
}

/// `a > b` as `PartialOrd` specifies it.
pub open spec fn partial_gt<T: PartialOrd>(a: T, b: T) -> bool {
    a.partial_cmp_spec(&b) == Some(Ordering::Greater)
}

/// `a <= b` as `PartialOrd` specifies it.
pub open spec fn partial_le<T: PartialOrd>(a: T, b: T) -> bool {
    a.partial_cmp_spec(&b) == Some(Ordering::Less) || a.partial_cmp_spec(&b) == Some(
        Ordering::Equal,
    )
}

/// `a >= b` as `PartialOrd` specifies it.
pub open spec fn partial_ge<T: PartialOrd>(a: T, b: T) -> bool {
    a.partial_cmp_spec(&b) == Some(Ordering::Greater) || a.partial_cmp_spec(&b) == Some(
        Ordering::Equal,
    )
}

/// `a` comes no later than `b`.
pub open spec fn ord_le<T: Ord>(a: T, b: T) -> bool {
    a.cmp_spec(&b) != Ordering::Greater
}

/// `a` comes strictly before `b`.
pub open spec fn ord_lt<T: Ord>(a: T, b: T) -> bool {
    a.cmp_spec(&b) == Ordering::Less
}

/// `a` and `b` are equal in the order.
pub open spec fn ord_eq<T: Ord>(a: T, b: T) -> bool {
    a.cmp_spec(&b) == Ordering::Equal
}

/// Every element is no greater than the ones after it.
pub open spec fn sorted<T: Ord>(s: Seq<T>) -> bool {
    forall|i: int, j: int| 0 <= i <= j < s.len() ==> ord_le(#[trigger] s[i], #[trigger] s[j])
}

/// The order of a lawful `Ord`: `Less`, `Equal` and `Greater` mirror each
/// other, `<=` is total and transitive, `==`-in-the-order is an equivalence.
pub proof fn lemma_ord_laws<T: Ord>()
    requires
        lawful_order::<T>(),
    ensures
        forall|a: T| #[trigger] ord_le(a, a),
        forall|a: T, b: T| #[trigger] ord_lt(a, b) <==> !ord_le(b, a),
        forall|a: T, b: T| #[trigger] ord_eq(a, b) <==> (ord_le(a, b) && ord_le(b, a)),
        forall|a: T, b: T, c: T|
            #[trigger] ord_le(a, b) && #[trigger] ord_le(b, c) ==> ord_le(a, c),
        forall|a: T, b: T| #[trigger] a.partial_cmp_spec(&b) == Some(a.cmp_spec(&b)),
        T::obeys_partial_cmp_spec(),
{
    reveal(obeys_cmp_ord);
    reveal(obeys_cmp_partial_ord);
    reveal(obeys_partial_cmp_spec_properties);
    reveal(obeys_eq_spec_properties);
    assert forall|a: T, b: T| #[trigger] ord_lt(a, b) <==> !ord_le(b, a) by {
        assert(a.partial_cmp_spec(&b) == Some(a.cmp_spec(&b)));
        assert(b.partial_cmp_spec(&a) == Some(b.cmp_spec(&a)));
    }
    assert forall|a: T| #[trigger] ord_le(a, a) by {
        assert(a.partial_cmp_spec(&a) == Some(a.cmp_spec(&a)));
    }
    assert forall|a: T, b: T| #[trigger] ord_eq(a, b) <==> (ord_le(a, b) && ord_le(b, a)) by {
        assert(a.partial_cmp_spec(&b) == Some(a.cmp_spec(&b)));
        assert(b.partial_cmp_spec(&a) == Some(b.cmp_spec(&a)));
        if ord_eq(a, b) {
            assert(a.eq_spec(&b));
            assert(b.eq_spec(&a));
        }
    }
    assert forall|a: T, b: T, c: T|
        #[trigger] ord_le(a, b) && #[trigger] ord_le(b, c) implies ord_le(a, c) by {
        assert(a.partial_cmp_spec(&b) == Some(a.cmp_spec(&b)));
        assert(b.partial_cmp_spec(&c) == Some(b.cmp_spec(&c)));
        assert(a.partial_cmp_spec(&c) == Some(a.cmp_spec(&c)));
        assert(c.partial_cmp_spec(&a) == Some(c.cmp_spec(&a)));
        assert(b.partial_cmp_spec(&a) == Some(b.cmp_spec(&a)));
        assert(c.partial_cmp_spec(&b) == Some(c.cmp_spec(&b)));
        if ord_eq(a, b) && ord_eq(b, c) {
            assert(a.eq_spec(&b) && b.eq_spec(&c));
        } else if ord_eq(a, b) && ord_lt(b, c) {
            if !ord_le(a, c) {
                assert(ord_lt(c, a));
                assert(ord_lt(c, b));
            }
        } else if ord_lt(a, b) && ord_eq(b, c) {
            if !ord_le(a, c) {
                assert(ord_lt(c, a));
                assert(ord_lt(b, a));
            }
        }
    }
}

/// `a <= b` as `Ord` computes it.
pub fn le<T: Ord>(a: &T, b: &T) -> (r: bool)
    requires
        lawful_order::<T>(),
    ensures
        r == ord_le(*a, *b),
{
    proof {
        lemma_ord_laws::<T>();
    }
    *a <= *b
}

/// `a < b` as `Ord` computes it.
pub fn lt<T: Ord>(a: &T, b: &T) -> (r: bool)
    requires
        lawful_order::<T>(),
    ensures
        r == ord_lt(*a, *b),
{
    proof {
        lemma_ord_laws::<T>();
    }
    *a < *b
}

} // verus!

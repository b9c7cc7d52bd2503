//! The largest element of a sequence and where it is.

use super::order::{lawful_order, lemma_ord_laws, ord_le, ord_lt, partial_gt, partial_order_obeyed};
use vstd::prelude::*;
use vstd::std_specs::cmp::{OrdSpec, PartialOrdSpec};

verus! {

/// Index of the running maximum of a non-empty sequence: an element
/// replaces the maximum so far only when it is greater.
pub open spec fn max_index_spec<T: PartialOrd>(s: Seq<T>) -> int
    decreases s.len(),
{
    if s.len() <= 1 {
        0
    } else {
        let m = max_index_spec(s.drop_last());
        if partial_gt(s.last(), s[m]) {
            s.len() - 1
        } else {
            m
        }
    }
}

/// The running maximum index lies in the sequence.
pub proof fn lemma_max_index_in_range<T: PartialOrd>(s: Seq<T>)
    requires
        s.len() > 0,
    ensures
        0 <= max_index_spec(s) < s.len(),
    decreases s.len(),
{
    if s.len() > 1 {
        lemma_max_index_in_range(s.drop_last());
    }
}

/// Under a lawful total order the running maximum is the first of the
/// greatest elements.
pub proof fn law_max_index_is_first_greatest<T: Ord>(s: Seq<T>)
    requires
        lawful_order::<T>(),
        s.len() > 0,
    ensures
        0 <= max_index_spec(s) < s.len(),
        forall|j: int| 0 <= j < s.len() ==> ord_le(#[trigger] s[j], s[max_index_spec(s)]),
        forall|j: int| 0 <= j < max_index_spec(s) ==> ord_lt(#[trigger] s[j], s[max_index_spec(s)]),
    decreases s.len(),
{
    lemma_ord_laws::<T>();
    lemma_max_index_in_range(s);
    if s.len() > 1 {
        let t = s.drop_last();
        law_max_index_is_first_greatest(t);
        let m = max_index_spec(t);
        let last = s.last();
        assert(last.partial_cmp_spec(&s[m]) == Some(last.cmp_spec(&s[m])));
        assert(s[m] == t[m]);
        if partial_gt(last, s[m]) {
            assert(max_index_spec(s) == s.len() - 1);
            assert(!ord_le(last, s[m]));
            assert(ord_lt(s[m], last));
            assert(ord_le(s[m], last));
            assert forall|j: int| 0 <= j < s.len() implies ord_le(#[trigger] s[j], last) by {
                if j < t.len() {
                    assert(s[j] == t[j]);
                    assert(ord_le(t[j], t[m]));
                }
            }
            assert forall|j: int| 0 <= j < s.len() - 1 implies ord_lt(#[trigger] s[j], last) by {
                assert(s[j] == t[j]);
                assert(ord_le(t[j], t[m]));
                if !ord_lt(s[j], last) {
                    assert(ord_le(last, s[j]));
                }
            }
        } else {
            assert(max_index_spec(s) == m);
            assert(ord_le(last, s[m]));
            assert forall|j: int| 0 <= j < s.len() implies ord_le(#[trigger] s[j], s[m]) by {
                if j < t.len() {
                    assert(s[j] == t[j]);
                    assert(ord_le(t[j], t[m]));
                }
            }
            assert forall|j: int| 0 <= j < m implies ord_lt(#[trigger] s[j], s[m]) by {
                assert(s[j] == t[j]);
                assert(ord_lt(t[j], t[m]));
            }
        }
    }
}

/// The largest element and its index: the first of the largest ones, or
/// `None` for an empty slice.
pub fn max_index<T: PartialOrd>(items: &[T]) -> (r: Option<(usize, &T)>)
    ensures
        r is None <==> items@.len() == 0,
        r matches Some((i, x)) ==> i < items@.len() && *x == items@[i as int],
        r matches Some((i, x)) ==> partial_order_obeyed::<T>() ==> i == max_index_spec(items@),
{
    let n = items.len();
    if n == 0 {
        return None;
    }
    let mut m: usize = 0;
    let mut i: usize = 1;
    while i < n
        invariant
            n == items@.len(),
            1 <= i <= n,
            m < i,
            partial_order_obeyed::<T>() ==> m == max_index_spec(items@.take(i as int)),
        decreases n - i,
    {
        proof {
            assert(items@.take(i + 1).drop_last() =~= items@.take(i as int));
        }
        if items[i] > items[m] {
            m = i;
        }
        i = i + 1;
    }
    proof {
        assert(items@.take(n as int) =~= items@);
    }
    Some((m, &items[m]))
}

} // verus!

//! Searches on sorted slices and small deque helpers.

use super::order::{lawful_order, le, lemma_ord_laws, lt, ord_eq, ord_le, ord_lt, sorted};
use core::ops::Range;
use std::collections::VecDeque;
use vstd::prelude::*;

verus! {

/// Number of leading elements of `s` that come strictly before `x`
/// (for a sorted `s`: the index of the first element not before `x`).
pub open spec fn lower_pos<T: Ord>(s: Seq<T>, x: T) -> nat
    decreases s.len(),
{
    if s.len() == 0 {
        0
    } else if ord_lt(s.last(), x) {
        s.len()
    } else {
        lower_pos(s.drop_last(), x)
    }
}

/// Number of leading elements of `s` that come no later than `x`
/// (for a sorted `s`: the index of the first element after `x`).
pub open spec fn upper_pos<T: Ord>(s: Seq<T>, x: T) -> nat
    decreases s.len(),
{
    if s.len() == 0 {
        0
    } else if ord_le(s.last(), x) {
        s.len()
    } else {
        upper_pos(s.drop_last(), x)
    }
}

/// What `search_first` gives: the first index of an element equal to
/// `x`, or where `x` would be inserted.
pub open spec fn search_first_spec<T: Ord>(s: Seq<T>, x: T) -> Result<usize, usize> {
    let p = lower_pos(s, x);
    if p < s.len() && ord_eq(s[p as int], x) {
        Ok(p as usize)
    } else {
        Err(p as usize)
    }
}

/// What `search_last` gives: the last index of an element equal to
/// `x`, or where `x` would be inserted.
pub open spec fn search_last_spec<T: Ord>(s: Seq<T>, x: T) -> Result<usize, usize> {
    let p = upper_pos(s, x);
    if p > 0 && ord_eq(s[p - 1], x) {
        Ok((p - 1) as usize)
    } else {
        Err(p as usize)
    }
}

/// The index carried by either side of a search result.
pub open spec fn result_index(r: Result<usize, usize>) -> usize {
    match r {
        Ok(i) => i,
        Err(i) => i,
    }
}

/// `p` splits `s` into the elements before `x` and the rest.
pub proof fn lemma_lower_pos_unique<T: Ord>(s: Seq<T>, x: T, p: int)
    requires
        0 <= p <= s.len(),
        forall|i: int| 0 <= i < p ==> ord_lt(#[trigger] s[i], x),
        forall|i: int| p <= i < s.len() ==> !ord_lt(#[trigger] s[i], x),
    ensures
        lower_pos(s, x) == p,
    decreases s.len(),
{
    if s.len() > 0 && p < s.len() {
        assert(!ord_lt(s[s.len() - 1], x));
        lemma_lower_pos_unique(s.drop_last(), x, p);
    }
}

/// `p` splits `s` into the elements no later than `x` and the rest.
pub proof fn lemma_upper_pos_unique<T: Ord>(s: Seq<T>, x: T, p: int)
    requires
        0 <= p <= s.len(),
        forall|i: int| 0 <= i < p ==> ord_le(#[trigger] s[i], x),
        forall|i: int| p <= i < s.len() ==> !ord_le(#[trigger] s[i], x),
    ensures
        upper_pos(s, x) == p,
    decreases s.len(),
{
    if s.len() > 0 && p < s.len() {
        assert(!ord_le(s[s.len() - 1], x));
        lemma_upper_pos_unique(s.drop_last(), x, p);
    }
}

/// In a sorted sequence the elements before `x` come first, then the
/// ones equal to `x`, then the ones after it.
pub proof fn lemma_positions<T: Ord>(s: Seq<T>, x: T)
    requires
        lawful_order::<T>(),
        sorted(s),
    ensures
        lower_pos(s, x) <= upper_pos(s, x) <= s.len(),
        forall|i: int| 0 <= i < lower_pos(s, x) ==> ord_lt(#[trigger] s[i], x),
        forall|i: int|
            lower_pos(s, x) <= i < upper_pos(s, x) ==> ord_eq(#[trigger] s[i], x),
        forall|i: int| upper_pos(s, x) <= i < s.len() ==> ord_lt(x, #[trigger] s[i]),
    decreases s.len(),
{
    lemma_ord_laws::<T>();
    if s.len() > 0 {
        let t = s.drop_last();
        assert(sorted(t)) by {
            assert forall|i: int, j: int| 0 <= i <= j < t.len() implies ord_le(
                #[trigger] t[i],
                #[trigger] t[j],
            ) by {
                assert(s[i] == t[i] && s[j] == t[j]);
            }
        }
        lemma_positions(t, x);
        let last = s.last();
        if ord_lt(last, x) {
            assert forall|i: int| 0 <= i < s.len() implies ord_lt(#[trigger] s[i], x) by {
                assert(ord_le(s[i], last));
            }
        } else if ord_le(last, x) {
            assert forall|i: int|
                lower_pos(s, x) <= i < upper_pos(s, x) implies ord_eq(#[trigger] s[i], x) by {
                if i < t.len() {
                    assert(s[i] == t[i]);
                }
            }
            assert forall|i: int| 0 <= i < lower_pos(s, x) implies ord_lt(#[trigger] s[i], x) by {
                assert(s[i] == t[i]);
            }
        } else {
            assert forall|i: int| upper_pos(s, x) <= i < s.len() implies ord_lt(
                x,
                #[trigger] s[i],
            ) by {
                if i < t.len() {
                    assert(s[i] == t[i]);
                }
            }
            assert forall|i: int| 0 <= i < lower_pos(s, x) implies ord_lt(#[trigger] s[i], x) by {
                assert(s[i] == t[i]);
            }
            assert forall|i: int|
                lower_pos(s, x) <= i < upper_pos(s, x) implies ord_eq(#[trigger] s[i], x) by {
                assert(s[i] == t[i]);
            }
        }
    }
}

/// The range that `locate_range` gives holds exactly the elements of the
/// sorted sequence whose values lie in `[start, end)`.
pub proof fn law_locate_range_holds_values<T: Ord>(s: Seq<T>, start: T, end: T)
    requires
        lawful_order::<T>(),
        sorted(s),
        ord_le(start, end),
    ensures
        lower_pos(s, start) <= lower_pos(s, end),
        forall|i: int|
            0 <= i < s.len() ==> ((lower_pos(s, start) <= i < lower_pos(s, end)) <==> (ord_le(
                start,
                #[trigger] s[i],
            ) && ord_lt(s[i], end))),
{
    lemma_ord_laws::<T>();
    lemma_positions(s, start);
    lemma_positions(s, end);
    if lower_pos(s, end) < lower_pos(s, start) {
        let k = lower_pos(s, end) as int;
        assert(ord_lt(s[k], start));
        assert(!ord_lt(s[k], end));
    }
    assert forall|i: int| 0 <= i < s.len() implies ((lower_pos(s, start) <= i < lower_pos(s, end))
        <==> (ord_le(start, #[trigger] s[i]) && ord_lt(s[i], end))) by {
        if i < lower_pos(s, start) {
            assert(ord_lt(s[i], start));
        } else if i >= lower_pos(s, end) {
            if i >= upper_pos(s, end) {
                assert(ord_lt(end, s[i]));
            } else {
                assert(ord_eq(s[i], end));
            }
        } else {
            if i >= upper_pos(s, start) {
                assert(ord_lt(start, s[i]));
            } else {
                assert(ord_eq(s[i], start));
            }
        }
    }
}

/// `search_first` and `search_last` find `x` together, and the first
/// occurrence never comes after the last one.
pub proof fn law_first_last_agree<T: Ord>(s: Seq<T>, x: T)
    requires
        lawful_order::<T>(),
        sorted(s),
        s.len() <= usize::MAX,
    ensures
        search_first_spec(s, x) is Ok <==> search_last_spec(s, x) is Ok,
        search_first_spec(s, x) is Ok ==> result_index(search_first_spec(s, x)) <= result_index(
            search_last_spec(s, x),
        ),
        search_first_spec(s, x) is Err ==> search_first_spec(s, x) == search_last_spec(s, x),
{
    lemma_ord_laws::<T>();
    lemma_positions(s, x);
    let lo = lower_pos(s, x);
    let up = upper_pos(s, x);
    if lo < up {
        assert(ord_eq(s[lo as int], x));
        assert(ord_eq(s[up - 1], x));
    } else {
        if lo < s.len() {
            assert(ord_lt(x, s[lo as int]));
        }
        if up > 0 {
            assert(ord_lt(s[up - 1], x));
        }
    }
}

/// Index of the first element of a sorted slice that is not before `elem`.
fn lower_index<T: Ord>(array: &[T], elem: &T) -> (p: usize)
    requires
        lawful_order::<T>(),
        sorted(array@),
    ensures
        p == lower_pos(array@, *elem),
{
    let mut lo: usize = 0;
    let mut hi: usize = array.len();
    while lo < hi
        invariant
            0 <= lo <= hi <= array@.len(),
            lawful_order::<T>(),
            sorted(array@),
            forall|i: int| 0 <= i < lo ==> ord_lt(#[trigger] array@[i], *elem),
            forall|i: int| hi <= i < array@.len() ==> !ord_lt(#[trigger] array@[i], *elem),
        decreases hi - lo,
    {
        let mid = lo + (hi - lo) / 2;
        proof {
            lemma_ord_laws::<T>();
        }
        if lt(&array[mid], elem) {
            assert forall|i: int| 0 <= i < mid + 1 implies ord_lt(#[trigger] array@[i], *elem) by {
                assert(ord_le(array@[i], array@[mid as int]));
            }
            lo = mid + 1;
        } else {
            assert forall|i: int| mid <= i < array@.len() implies !ord_lt(
                #[trigger] array@[i],
                *elem,
            ) by {
                assert(ord_le(array@[mid as int], array@[i]));
            }
            hi = mid;
        }
    }
    proof {
        lemma_lower_pos_unique(array@, *elem, lo as int);
    }
    lo
}

/// Index of the first element of a sorted slice that comes after `elem`.
fn upper_index<T: Ord>(array: &[T], elem: &T) -> (p: usize)
    requires
        lawful_order::<T>(),
        sorted(array@),
    ensures
        p == upper_pos(array@, *elem),
{
    let mut lo: usize = 0;
    let mut hi: usize = array.len();
    while lo < hi
        invariant
            0 <= lo <= hi <= array@.len(),
            lawful_order::<T>(),
            sorted(array@),
            forall|i: int| 0 <= i < lo ==> ord_le(#[trigger] array@[i], *elem),
            forall|i: int| hi <= i < array@.len() ==> !ord_le(#[trigger] array@[i], *elem),
        decreases hi - lo,
    {
        let mid = lo + (hi - lo) / 2;
        proof {
            lemma_ord_laws::<T>();
        }
        if le(&array[mid], elem) {
            assert forall|i: int| 0 <= i < mid + 1 implies ord_le(#[trigger] array@[i], *elem) by {
                assert(ord_le(array@[i], array@[mid as int]));
            }
            lo = mid + 1;
        } else {
            assert forall|i: int| mid <= i < array@.len() implies !ord_le(
                #[trigger] array@[i],
                *elem,
            ) by {
                assert(ord_le(array@[mid as int], array@[i]));
            }
            hi = mid;
        }
    }
    proof {
        lemma_upper_pos_unique(array@, *elem, lo as int);
    }
    lo
}

/// Finds the first occurrence of `elem` in a sorted slice: `Ok` with its
/// index, or `Err` with the index where it would be inserted.
pub fn search_first<T: Ord>(array: &[T], elem: &T) -> (r: Result<usize, usize>)
    requires
        lawful_order::<T>(),
        sorted(array@),
    ensures
        r == search_first_spec(array@, *elem),
{
    let p = lower_index(array, elem);
    proof {
        lemma_positions(array@, *elem);
        lemma_ord_laws::<T>();
    }
    if p < array.len() && le(&array[p], elem) {
        Ok(p)
    } else {
        Err(p)
    }
}

/// Finds the last occurrence of `elem` in a sorted slice: `Ok` with its
/// index, or `Err` with the index where it would be inserted.
pub fn search_last<T: Ord>(array: &[T], elem: &T) -> (r: Result<usize, usize>)
    requires
        lawful_order::<T>(),
        sorted(array@),
    ensures
        r == search_last_spec(array@, *elem),
{
    let p = upper_index(array, elem);
    proof {
        lemma_positions(array@, *elem);
        lemma_ord_laws::<T>();
    }
    if p > 0 && le(elem, &array[p - 1]) {
        Ok(p - 1)
    } else {
        Err(p)
    }
}

/// Lower bound of `elem` in a sorted slice: the index of the first
/// element that is not before it.
pub fn low_bound<T: Ord>(array: &[T], elem: &T) -> (r: usize)
    requires
        lawful_order::<T>(),
        sorted(array@),
    ensures
        r == lower_pos(array@, *elem),
{
    proof {
        lemma_positions(array@, *elem);
    }
    let found = search_first(array, elem);
    assert(array@.len() == array.len());
    assert(result_index(found) == lower_pos(array@, *elem)) by {
        let p = lower_pos(array@, *elem);
        if p < array@.len() && ord_eq(array@[p as int], *elem) {
            assert(found == Ok::<usize, usize>(p as usize));
        } else {
            assert(found == Err::<usize, usize>(p as usize));
        }
    }
    *unwrap(&found)
}

/// Upper bound of `elem` in a sorted slice: the index of the first
/// element that comes after it.
pub fn upper_bound<T: Ord>(array: &[T], elem: &T) -> (r: usize)
    requires
        lawful_order::<T>(),
        sorted(array@),
    ensures
        r == upper_pos(array@, *elem),
{
    proof {
        lemma_positions(array@, *elem);
    }
    assert(array@.len() == array.len());
    match search_last(array, elem) {
        Ok(i) => {
            assert(i + 1 == upper_pos(array@, *elem)) by {
                let p = upper_pos(array@, *elem);
                assert(p > 0 && ord_eq(array@[p - 1], *elem));
            }
            i + 1
        },
        Err(i) => i,
    }
}

/// The index carried by a search result, whichever side it is on.
pub fn unwrap(r: &Result<usize, usize>) -> (s: &usize)
    ensures
        *s == result_index(*r),
{
    match r {
        Ok(s) => s,
        Err(s) => s,
    }
}

/// The index range of a sorted slice that holds the values of
/// `value_range`: from the lower bound of its start to the lower bound of
/// its end.
pub fn locate_range<T: Ord>(array: &[T], value_range: &Range<T>) -> (r: Range<usize>)
    requires
        lawful_order::<T>(),
        sorted(array@),
    ensures
        r.start == lower_pos(array@, value_range.start),
        r.end == lower_pos(array@, value_range.end),
{
    let start = low_bound(array, &value_range.start);
    let end = low_bound(array, &value_range.end);
    Range { start, end }
}

/// Removes the first element for which `predicate` holds; tells whether
/// one was found.
pub fn deque_remove_first<T, P: Fn(&T) -> bool>(que: &mut VecDeque<T>, predicate: P) -> (found:
    bool)
    requires
        forall|i: int| 0 <= i < old(que)@.len() ==> call_requires(predicate, (&old(que)@[i],)),
    ensures
        found ==> exists|k: int|
            0 <= k < old(que)@.len() && call_ensures(predicate, (&old(que)@[k],), true) && (
            forall|j: int|
                0 <= j < k ==> call_ensures(predicate, (#[trigger] &old(que)@[j],), false))
                && final(que)@ == old(que)@.remove(k),
        !found ==> final(que)@ == old(que)@ && forall|j: int|
            0 <= j < old(que)@.len() ==> call_ensures(predicate, (#[trigger] &old(que)@[j],), false),
{
    let n = que.len();
    let mut i: usize = 0;
    while i < n
        invariant
            n == que@.len(),
            que@ == old(que)@,
            0 <= i <= n,
            forall|k: int| 0 <= k < n ==> call_requires(predicate, (&que@[k],)),
            forall|j: int| 0 <= j < i ==> call_ensures(predicate, (#[trigger] &que@[j],), false),
        decreases n - i,
    {
        if predicate(&que[i]) {
            let ghost k = i as int;
            que.remove(i);
            return true;
        }
        i = i + 1;
    }
    false
}

/// Drops the first `n` elements (all of them when there are fewer).
pub fn deque_pop_front_n<T>(que: &mut VecDeque<T>, n: usize)
    ensures
        final(que)@ == if n <= old(que)@.len() {
            old(que)@.skip(n as int)
        } else {
            Seq::<T>::empty()
        },
{
    let mut k: usize = 0;
    while k < n
        invariant
            0 <= k <= n,
            que@ == if k <= old(que)@.len() {
                old(que)@.skip(k as int)
            } else {
                Seq::<T>::empty()
            },
        decreases n - k,
    {
        que.pop_front();
        k = k + 1;
    }
}

/// Widens `range` so that it holds `value`.
pub fn update_range(range: &mut Range<i64>, value: i64)
    requires
        value < i64::MAX,
    ensures
        final(range).start == if value < old(range).start {
            value
        } else {
            old(range).start
        },
        final(range).end == if value + 1 > old(range).end {
            value + 1
        } else {
            old(range).end as int
        },
{
    if value < range.start {
        range.start = value;
    }
    if value + 1 > range.end {
        range.end = value + 1;
    }
}

} // verus!

//! Index-level helpers on slices.

use vstd::prelude::*;
use vstd::std_specs::cmp::PartialEqSpec;

verus! {

/// Indices below `k` at which `new` differs from `old` or has no
/// counterpart in `old`, in increasing order.
pub open spec fn diff_upto<T: PartialEq>(new: Seq<T>, old: Seq<T>, k: int) -> Seq<usize>
    decreases k,
{
    if k <= 0 {
        Seq::empty()
    } else {
        let d = diff_upto(new, old, k - 1);
        if k - 1 >= old.len() || !new[k - 1].eq_spec(&old[k - 1]) {
            d.push((k - 1) as usize)
        } else {
            d
        }
    }
}

/// Every index below `k` that `diff_upto` gives is below `k`, they come in
/// increasing order, and an index is among them exactly when `old` has
/// no element there or the elements there differ.
proof fn lemma_diff_upto<T: PartialEq>(new: Seq<T>, old: Seq<T>, k: int)
    requires
        0 <= k <= new.len(),
        new.len() <= usize::MAX,
    ensures
        forall|a: int| 0 <= a < diff_upto(new, old, k).len() ==> #[trigger] diff_upto(new, old, k)[a] < k,
        forall|a: int, b: int|
            0 <= a < b < diff_upto(new, old, k).len() ==> #[trigger] diff_upto(new, old, k)[a]
                < #[trigger] diff_upto(new, old, k)[b],
        forall|i: int|
            0 <= i < k ==> (#[trigger] diff_upto(new, old, k).contains(i as usize) <==> (i >= old.len()
                || !new[i].eq_spec(&old[i]))),
    decreases k,
{
    if k > 0 {
        lemma_diff_upto(new, old, k - 1);
        let d = diff_upto(new, old, k - 1);
        let e = diff_upto(new, old, k);
        assert forall|i: int| 0 <= i < k implies (#[trigger] e.contains(i as usize) <==> (i >= old.len()
            || !new[i].eq_spec(&old[i]))) by {
            if e.contains(i as usize) {
                let a = choose|a: int| 0 <= a < e.len() && e[a] == i as usize;
                if a < d.len() {
                    assert(e[a] == d[a]);
                    assert(d.contains(i as usize));
                }
            }
            if i < k - 1 {
                if d.contains(i as usize) {
                    let a = choose|a: int| 0 <= a < d.len() && d[a] == i as usize;
                    assert(e[a] == d[a]);
                }
            } else if k - 1 >= old.len() || !new[k - 1].eq_spec(&old[k - 1]) {
                assert(e[d.len() as int] == (k - 1) as usize);
            } else if e.contains(i as usize) {
                let a = choose|a: int| 0 <= a < e.len() && e[a] == i as usize;
                assert(e[a] == d[a]);
            }
        }
    }
}

/// `diff` reports the indices of `new`, in increasing order, at which
/// `old` has no element or a different one, and no others: a change at
/// any index, the first included, is reported.
pub proof fn law_diff_reports_every_difference<T: PartialEq>(new: Seq<T>, old: Seq<T>)
    requires
        new.len() <= usize::MAX,
    ensures
        forall|a: int|
            0 <= a < diff_upto(new, old, new.len() as int).len() ==> #[trigger] diff_upto(
                new,
                old,
                new.len() as int,
            )[a] < new.len(),
        forall|a: int, b: int|
            0 <= a < b < diff_upto(new, old, new.len() as int).len() ==> #[trigger] diff_upto(
                new,
                old,
                new.len() as int,
            )[a] < #[trigger] diff_upto(new, old, new.len() as int)[b],
        forall|i: int|
            0 <= i < new.len() ==> (#[trigger] diff_upto(new, old, new.len() as int).contains(i as usize)
                <==> (i >= old.len() || !new[i].eq_spec(&old[i]))),
{
    lemma_diff_upto(new, old, new.len() as int);
}

/// Indices below `k` at which `s` holds `value`, in increasing order.
pub open spec fn positions_upto(s: Seq<u8>, value: u8, k: int) -> Seq<usize>
    decreases k,
{
    if k <= 0 {
        Seq::empty()
    } else {
        let d = positions_upto(s, value, k - 1);
        if s[k - 1] == value {
            d.push((k - 1) as usize)
        } else {
            d
        }
    }
}

/// Indices of the elements of `new` that differ from the element at the
/// same index of `old`, followed by those that `old` has no counterpart for.
pub fn diff<T: Eq>(new: &[T], old: &[T]) -> (r: Vec<usize>)
    ensures
        T::obeys_eq_spec() ==> r@ == diff_upto(new@, old@, new@.len() as int),
{
    let mut vec: Vec<usize> = Vec::new();
    let len = if new.len() < old.len() {
        new.len()
    } else {
        old.len()
    };
    let mut i: usize = 0;
    while i < len
        invariant
            len <= new@.len(),
            len <= old@.len(),
            0 <= i <= len,
            T::obeys_eq_spec() ==> vec@ == diff_upto(new@, old@, i as int),
        decreases len - i,
    {
        let a = &new[i];
        let b = &old[i];
        if a != b {
            vec.push(i);
        }
        i = i + 1;
    }
    let mut j: usize = len;
    while j < new.len()
        invariant
            len <= j <= new@.len(),
            len == new@.len() || len == old@.len(),
            len <= old@.len(),
            T::obeys_eq_spec() ==> vec@ == diff_upto(new@, old@, j as int),
        decreases new@.len() - j,
    {
        vec.push(j);
        j = j + 1;
    }
    vec
}

/// The index at which the window of `radius` around `center` starts.
pub open spec fn radius_start(center: int, radius: int) -> int {
    if center < radius {
        0
    } else {
        center - radius
    }
}

/// The index just after the window of `radius` around `center`, cut to a
/// slice of `len` elements.
pub open spec fn radius_end(center: int, radius: int, len: int) -> int {
    if center + radius + 1 < len {
        center + radius + 1
    } else {
        len
    }
}

/// The part of `slice` within `radius` of `center`, cut to the slice so
/// that no index goes out of bounds, with the index it starts at. A window
/// that starts past the end of the slice is empty.
pub fn slice_by_radius<T: Eq>(slice: &[T], center: usize, radius: usize) -> (r: (usize, &[T]))
    ensures
        r.0 == radius_start(center as int, radius as int),
        r.1@ == if r.0 <= radius_end(center as int, radius as int, slice@.len() as int) {
            slice@.subrange(r.0 as int, radius_end(center as int, radius as int, slice@.len() as int))
        } else {
            Seq::empty()
        },
{
    let start = if center < radius {
        0
    } else {
        center - radius
    };
    let len = slice.len();
    let b = if center < len && radius < len - center - 1 {
        center + radius + 1
    } else {
        len
    };
    if start <= b {
        (start, &slice[start..b])
    } else {
        let w = &slice[b..b];
        proof {
            assert(w@ =~= Seq::<T>::empty());
        }
        (start, w)
    }
}

/// Indices at which `slice` holds `value`, in increasing order.
pub fn search_slice(slice: &[u8], value: u8) -> (r: Vec<usize>)
    ensures
        r@ == positions_upto(slice@, value, slice@.len() as int),
{
    let mut a: Vec<usize> = Vec::new();
    let n = slice.len();
    let mut i: usize = 0;
    while i < n
        invariant
            n == slice@.len(),
            0 <= i <= n,
            a@ == positions_upto(slice@, value, i as int),
        decreases n - i,
    {
        if slice[i] == value {
            a.push(i);
        }
        i = i + 1;
    }
    a
}

} // verus!

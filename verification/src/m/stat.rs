//! Histograms of values and their most frequent entries.

use crate::algo::order::{lawful_order, ord_lt};
use vstd::std_specs::btree::increasing_seq;
use vstd::std_specs::iter::IteratorSpec;
use itertools::Itertools;
use std::collections::BTreeMap;
use vstd::prelude::*;

verus! {

/// The histogram of `values`: each value that occurs, with the number of
/// times it occurs.
pub open spec fn histogram<T>(values: Seq<T>) -> Map<T, usize> {
    Map::new(|k: T| values.contains(k), |k: T| values.to_multiset().count(k) as usize)
}

/// A value occurs no more often than the sequence is long.
pub proof fn lemma_count_le_len<T>(s: Seq<T>, v: T)
    ensures
        s.to_multiset().count(v) <= s.len(),
    decreases s.len(),
{
    s.to_multiset_ensures();
    if s.len() > 0 {
        lemma_count_le_len(s.drop_last(), v);
        assert(s =~= s.drop_last().push(s.last()));
        s.drop_last().to_multiset_ensures();
    }
}

/// Counts how often each value occurs.
pub fn calc_hist<T: Ord + Copy>(values: &[T]) -> (hist: BTreeMap<T, usize>)
    requires
        lawful_order::<T>(),
    ensures
        hist@ == histogram(values@),
{
    let mut hist: BTreeMap<T, usize> = BTreeMap::new();
    let n = values.len();
    let mut i: usize = 0;
    while i < n
        invariant
            lawful_order::<T>(),
            n == values@.len(),
            0 <= i <= n,
            hist@ == histogram(values@.take(i as int)),
        decreases n - i,
    {
        let v = values[i];
        let c = match hist.get(&v) {
            Some(c) => *c,
            None => 0,
        };
        proof {
            let s = values@.take(i as int);
            s.to_multiset_ensures();
            assert(c == s.to_multiset().count(v)) by {
                if !s.contains(v) {
                    assert(s.to_multiset().count(v) == 0);
                }
            }
            lemma_count_le_len(s, v);
        }
        hist.insert(v, c + 1);
        proof {
            let s = values@.take(i as int);
            let t = values@.take(i + 1);
            assert(t =~= s.push(v));
            s.to_multiset_ensures();
            assert(hist@ =~= histogram(t)) by {
                assert forall|k: T| #[trigger] t.contains(k) <==> (s.contains(k) || k == v) by {
                    if t.contains(k) {
                        let j = choose|j: int| 0 <= j < t.len() && t[j] == k;
                        if j < s.len() {
                            assert(s[j] == k);
                        }
                    }
                    if s.contains(k) {
                        let j = choose|j: int| 0 <= j < s.len() && s[j] == k;
                        assert(t[j] == k);
                    }
                    if k == v {
                        assert(t[i as int] == v);
                    }
                }
            }
        }
        i = i + 1;
    }
    proof {
        assert(values@.take(n as int) =~= values@);
    }
    hist
}

/// The entries of `m`, in increasing key order.
fn entries_of<T: Ord + Copy>(m: &BTreeMap<T, usize>) -> (v: Vec<(T, usize)>)
    requires
        lawful_order::<T>(),
    ensures
        v@.len() == m@.len(),
        forall|i: int| 0 <= i < v@.len() ==> #[trigger] m@.contains_key(v@[i].0) && m@[v@[i].0] == v@[i].1,
        forall|k: T| #[trigger] m@.contains_key(k) ==> exists|i: int| 0 <= i < v@.len() && v@[i].0 == k,
        forall|i: int, j: int| 0 <= i < j < v@.len() ==> ord_lt(#[trigger] v@[i].0, #[trigger] v@[j].0),
{
    let mut v: Vec<(T, usize)> = Vec::new();
    let it = m.iter();
    let ghost all = it.remaining();
    for kv in iter: it
        invariant
            v@.len() == iter.index(),
            iter.seq() == all,
            forall|i: int| 0 <= i < iter.index() ==> v@[i] == (*all[i].0, *all[i].1),
    {
        v.push((*kv.0, *kv.1));
    }
    proof {
        assert(v@.len() == all.len());
        let ks = all.map_values(|kv: (&T, &usize)| *kv.0);
        assert(increasing_seq(ks));
        assert forall|k: T| #[trigger] m@.contains_key(k) implies exists|i: int|
            0 <= i < v@.len() && v@[i].0 == k by {
            assert(all.contains((&k, &m@[k])));
            let i = choose|i: int| 0 <= i < all.len() && all[i] == (&k, &m@[k]);
            assert(v@[i].0 == k);
        }
        assert forall|i: int, j: int| 0 <= i < j < v@.len() implies ord_lt(
            #[trigger] v@[i].0,
            #[trigger] v@[j].0,
        ) by {
            assert(ks[i] == v@[i].0);
            assert(ks[j] == v@[j].0);
        }
    }
    v
}

/// Entry `a` is listed before entry `b` among the most frequent: it
/// occurs more often, or as often with a smaller value.
pub open spec fn entry_before<T: Ord>(a: (T, usize), b: (T, usize)) -> bool {
    a.1 > b.1 || (a.1 == b.1 && ord_lt(a.0, b.0))
}

/// `out` is `input` sorted by count, highest first, with entries of equal
/// count kept in the order of `input`; `perm[i]` is where `out[i]` was.
pub open spec fn stably_sorted_by_count<K>(
    input: Seq<(K, usize)>,
    out: Seq<(K, usize)>,
    perm: Seq<int>,
) -> bool {
    &&& out.len() == input.len()
    &&& perm.len() == out.len()
    &&& forall|i: int|
        0 <= i < out.len() ==> 0 <= #[trigger] perm[i] < input.len() && out[i] == input[perm[i]]
    &&& forall|i: int, j: int| 0 <= i < j < out.len() ==> #[trigger] perm[i] != #[trigger] perm[j]
    &&& forall|i: int, j: int| 0 <= i < j < out.len() ==> #[trigger] out[i].1 >= #[trigger] out[j].1
    &&& forall|i: int, j: int|
        0 <= i < j < out.len() && out[i].1 == out[j].1 ==> #[trigger] perm[i] < #[trigger] perm[j]
}

/// `r` lists the `n` most frequent entries of the histogram `h` (all of
/// them when there are fewer), most frequent first, ties by value.
pub open spec fn top_entries<T: Ord>(h: Map<T, usize>, n: nat, r: Seq<(T, usize)>) -> bool {
    &&& r.len() == if n < h.len() {
        n
    } else {
        h.len()
    }
    &&& forall|i: int| 0 <= i < r.len() ==> #[trigger] h.contains_key(r[i].0) && h[r[i].0] == r[i].1
    &&& forall|i: int, j: int| 0 <= i < j < r.len() ==> entry_before(#[trigger] r[i], #[trigger] r[j])
    &&& forall|k: T, i: int|
        #![trigger h[k], r[i]]
        h.contains_key(k) && 0 <= i < r.len() && (forall|j: int|
            0 <= j < r.len() ==> #[trigger] r[j].0 != k) ==> entry_before(r[i], (k, h[k]))
}

/// Sort key that puts higher counts first.
fn count_sort_key<K>(e: &(K, usize)) -> (key: usize)
    ensures
        key == usize::MAX - e.1,
{
    usize::MAX - e.1
}

/// Itertools' `sorted_by_key` with the key `count_sort_key`: a stable
/// sort by that key in increasing order, that is by count in decreasing
/// order, equal counts keeping their order.
#[verifier::external_body]
fn sort_by_count_desc<K>(entries: Vec<(K, usize)>) -> (out: Vec<(K, usize)>)
    ensures
        exists|perm: Seq<int>| stably_sorted_by_count(entries@, out@, perm),
{
    entries.into_iter().sorted_by_key(|e| count_sort_key(e)).collect()
}

/// A one-to-one map of `0..n` into `0..n` reaches every index.
proof fn lemma_injective_onto(perm: Seq<int>, n: int)
    requires
        perm.len() == n,
        forall|i: int| 0 <= i < n ==> 0 <= #[trigger] perm[i] < n,
        forall|i: int, j: int| 0 <= i < j < n ==> #[trigger] perm[i] != #[trigger] perm[j],
    ensures
        forall|a: int| 0 <= a < n ==> #[trigger] perm.contains(a),
{
    assert(perm.no_duplicates()) by {
        assert forall|i: int, j: int|
            0 <= i < perm.len() && 0 <= j < perm.len() && i != j implies perm[i] != perm[j] by {
            if i < j {
            } else {
            }
        }
    }
    perm.unique_seq_to_set();
    vstd::set_lib::lemma_int_range(0, n);
    let range = vstd::set_lib::set_int_range(0, n);
    assert(perm.to_set().subset_of(range)) by {
        assert forall|a: int| perm.to_set().contains(a) implies range.contains(a) by {
            let i = choose|i: int| 0 <= i < perm.len() && perm[i] == a;
        }
    }
    vstd::set_lib::lemma_subset_equality(perm.to_set(), range);
    assert forall|a: int| 0 <= a < n implies #[trigger] perm.contains(a) by {
        assert(range.contains(a));
        assert(perm.to_set().contains(a));
    }
}

/// The `n` most frequent entries of a histogram, most frequent first;
/// entries that occur equally often come in increasing order of value.
pub fn top_n<T: Ord + Copy>(hist: &BTreeMap<T, usize>, n: usize) -> (r: Vec<(T, usize)>)
    requires
        lawful_order::<T>(),
    ensures
        top_entries(hist@, n as nat, r@),
{
    let entries = entries_of(hist);
    let ghost input = entries@;
    let sorted = sort_by_count_desc(entries);
    let ghost perm = choose|perm: Seq<int>| stably_sorted_by_count(input, sorted@, perm);
    let m = if n < sorted.len() {
        n
    } else {
        sorted.len()
    };
    let mut r: Vec<(T, usize)> = Vec::new();
    let mut i: usize = 0;
    while i < m
        invariant
            0 <= i <= m <= sorted@.len(),
            r@ == sorted@.take(i as int),
        decreases m - i,
    {
        r.push(sorted[i]);
        proof {
            assert(r@ =~= sorted@.take(i + 1));
        }
        i = i + 1;
    }
    proof {
        let out = sorted@;
        let len = out.len() as int;
        assert forall|i: int, j: int| 0 <= i < j < len implies entry_before(
            #[trigger] out[i],
            #[trigger] out[j],
        ) by {
            assert(out[i].1 >= out[j].1);
            if out[i].1 == out[j].1 {
                assert(perm[i] < perm[j]);
                assert(ord_lt(input[perm[i]].0, input[perm[j]].0));
            }
        }
        lemma_injective_onto(perm, len);
        assert forall|k: T, i: int|
            #![trigger hist@[k], r@[i]]
            hist@.contains_key(k) && 0 <= i < r@.len() && (forall|j: int|
                0 <= j < r@.len() ==> #[trigger] r@[j].0 != k) implies entry_before(
            r@[i],
            (k, hist@[k]),
        ) by {
            let a = choose|a: int| 0 <= a < input.len() && input[a].0 == k;
            assert(perm.contains(a));
            let b = choose|b: int| 0 <= b < len && perm[b] == a;
            assert(out[b] == input[a]);
            if b < m {
                assert(r@[b].0 == k);
            }
            assert(r@[i] == out[i]);
            assert(entry_before(out[i], out[b]));
        }
        assert forall|i: int| 0 <= i < r@.len() implies #[trigger] hist@.contains_key(r@[i].0)
            && hist@[r@[i].0] == r@[i].1 by {
            assert(r@[i] == out[i]);
            assert(out[i] == input[perm[i]]);
            assert(0 <= perm[i] < input.len());
            assert(hist@.contains_key(input[perm[i]].0));
        }
        assert forall|i: int, j: int| 0 <= i < j < r@.len() implies entry_before(
            #[trigger] r@[i],
            #[trigger] r@[j],
        ) by {
            assert(r@[i] == out[i] && r@[j] == out[j]);
        }
    }
    r
}

/// The `n` most frequent values of `values` with their counts.
pub fn hist_top_n<T: Ord + Copy>(values: &[T], n: usize) -> (r: Vec<(T, usize)>)
    requires
        lawful_order::<T>(),
    ensures
        top_entries(histogram(values@), n as nat, r@),
{
    let hist = calc_hist(values);
    top_n(&hist, n)
}

} // verus!

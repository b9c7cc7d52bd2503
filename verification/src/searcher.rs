//! Narrowing down where a value sits in a binary file: the first value
//! gives every address that holds it, each further value keeps the
//! addresses that have it nearby.

use crate::algo::slice::{positions_upto, search_slice, slice_by_radius};
use vstd::prelude::*;

verus! {

/// The first index of the window of `radius` around `addr`.
pub open spec fn window_start(addr: int, radius: int) -> int {
    if addr < radius {
        0
    } else {
        addr - radius
    }
}

/// The index just after the window of `radius` around `addr` in a file of
/// `len` bytes.
pub open spec fn window_end(addr: int, radius: int, len: int) -> int {
    if addr + radius + 1 < len {
        addr + radius + 1
    } else {
        len
    }
}

/// The window of `radius` around `addr` holds `value`.
pub open spec fn holds_near(contents: Seq<u8>, addr: int, radius: int, value: u8) -> bool {
    exists|p: int|
        window_start(addr, radius) <= p < window_end(addr, radius, contents.len() as int)
            && #[trigger] contents[p] == value
}

/// The addresses, in order, whose window holds `value`.
pub open spec fn addrs_near(contents: Seq<u8>, addrs: Seq<usize>, radius: int, value: u8) -> Seq<usize>
    decreases addrs.len(),
{
    if addrs.len() == 0 {
        Seq::empty()
    } else {
        let rest = addrs_near(contents, addrs.drop_last(), radius, value);
        if holds_near(contents, addrs.last() as int, radius, value) {
            rest.push(addrs.last())
        } else {
            rest
        }
    }
}

/// The addresses that the next value keeps: all that hold it at first,
/// later those of the candidates that have it nearby.
pub open spec fn next_addrs(contents: Seq<u8>, addrs: Seq<usize>, radius: int, value: u8) -> Seq<usize> {
    if addrs.len() == 0 {
        positions_upto(contents, value, contents.len() as int)
    } else {
        addrs_near(contents, addrs, radius, value)
    }
}

/// The offsets from `addr` of the bytes near it that hold `value`, in
/// increasing order.
pub open spec fn offsets_near(contents: Seq<u8>, addr: int, radius: int, value: u8) -> Seq<int> {
    let s = window_start(addr, radius);
    let w = contents.subrange(s, window_end(addr, radius, contents.len() as int));
    positions_upto(w, value, w.len() as int).map_values(|p: usize| s + p - addr)
}

/// No offset is farther from zero than the one after it.
pub open spec fn by_distance(s: Seq<i64>) -> bool {
    forall|i: int, j: int| 0 <= i < j < s.len() ==> abs(#[trigger] s[i]) <= abs(#[trigger] s[j])
}

/// Distance from zero.
pub open spec fn abs(x: i64) -> int {
    if x < 0 {
        -x
    } else {
        x as int
    }
}

/// The indices listed are those of `s` that hold `value`, in increasing
/// order.
pub proof fn lemma_positions(s: Seq<u8>, value: u8, k: int)
    requires
        0 <= k <= s.len(),
        s.len() <= usize::MAX,
    ensures
        forall|i: int|
            0 <= i < positions_upto(s, value, k).len() ==> #[trigger] positions_upto(s, value, k)[i]
                < k && s[positions_upto(s, value, k)[i] as int] == value,
        forall|p: int| 0 <= p < k && s[p] == value ==> positions_upto(s, value, k).contains(p as usize),
    decreases k,
{
    if k > 0 {
        lemma_positions(s, value, k - 1);
        let d = positions_upto(s, value, k - 1);
        assert forall|i: int| 0 <= i < positions_upto(s, value, k).len() implies #[trigger] positions_upto(
            s,
            value,
            k,
        )[i] < k && s[positions_upto(s, value, k)[i] as int] == value by {
            if i < d.len() {
                assert(positions_upto(s, value, k)[i] == d[i]);
                assert(d[i] < k - 1);
            } else {
                assert(s[k - 1] == value);
                assert(positions_upto(s, value, k)[i] == (k - 1) as usize);
            }
        }
        assert forall|p: int| 0 <= p < k && s[p] == value implies positions_upto(s, value, k).contains(
            p as usize,
        ) by {
            if p < k - 1 {
                let i = choose|i: int| 0 <= i < d.len() && d[i] == p as usize;
                assert(positions_upto(s, value, k)[i] == p as usize);
            } else {
                assert(positions_upto(s, value, k)[d.len() as int] == p as usize);
            }
        }
    }
}

/// A later value only narrows the candidates: those it keeps are among
/// the earlier ones, in the same order.
pub proof fn law_candidates_narrow(contents: Seq<u8>, addrs: Seq<usize>, radius: int, value: u8)
    ensures
        addrs_near(contents, addrs, radius, value).len() <= addrs.len(),
        forall|i: int|
            0 <= i < addrs_near(contents, addrs, radius, value).len() ==> addrs.contains(
                #[trigger] addrs_near(contents, addrs, radius, value)[i],
            ),
    decreases addrs.len(),
{
    if addrs.len() > 0 {
        let t = addrs.drop_last();
        law_candidates_narrow(contents, t, radius, value);
        let rest = addrs_near(contents, t, radius, value);
        let r = addrs_near(contents, addrs, radius, value);
        assert forall|i: int| 0 <= i < r.len() implies addrs.contains(#[trigger] r[i]) by {
            if i < rest.len() {
                assert(r[i] == rest[i]);
                assert(t.contains(rest[i]));
                let j = choose|j: int| 0 <= j < t.len() && t[j] == rest[i];
                assert(addrs[j] == t[j]);
            } else {
                assert(r[i] == addrs.last());
                assert(addrs[addrs.len() - 1] == r[i]);
            }
        }
    }
}

/// Distance of an offset from zero.
fn distance(x: i64) -> (r: u64)
    requires
        x > i64::MIN,
    ensures
        r == abs(x),
{
    if x < 0 {
        (-x) as u64
    } else {
        x as u64
    }
}

/// Searches a file's bytes for addresses that a sequence of values picks.
pub struct Searcher {
    contents: Vec<u8>,
    radius: usize,
    values: Vec<u8>,
    addrs: Vec<usize>,
}

impl Searcher {
    /// The file's bytes.
    pub closed spec fn bytes(&self) -> Seq<u8> {
        self.contents@
    }

    /// How far around an address a later value may be.
    pub closed spec fn reach(&self) -> usize {
        self.radius
    }

    /// The values searched for so far that narrowed the addresses.
    pub closed spec fn picked(&self) -> Seq<u8> {
        self.values@
    }

    /// The candidate addresses.
    pub closed spec fn candidates(&self) -> Seq<usize> {
        self.addrs@
    }

    /// The candidates lie in the file, and offsets within it fit in an
    /// `i64`.
    #[verifier::type_invariant]
    spec fn wf(&self) -> bool {
        &&& self.contents@.len() <= i64::MAX
        &&& forall|i: int| 0 <= i < self.addrs@.len() ==> #[trigger] self.addrs@[i] < self.contents@.len()
    }

    /// A searcher over the bytes of a file, with no candidates yet.
    pub fn new(contents: Vec<u8>, radius: usize) -> (s: Searcher)
        requires
            contents@.len() <= i64::MAX,
        ensures
            s.bytes() == contents@,
            s.reach() == radius,
            s.picked() == Seq::<u8>::empty(),
            s.candidates() == Seq::<usize>::empty(),
    {
        Searcher { contents, radius, values: Vec::new(), addrs: Vec::new() }
    }

    /// The candidate addresses.
    pub fn addrs(&self) -> (r: &Vec<usize>)
        ensures
            r@ == self.candidates(),
    {
        &self.addrs
    }

    /// The values that narrowed the candidates.
    pub fn values(&self) -> (r: &Vec<u8>)
        ensures
            r@ == self.picked(),
    {
        &self.values
    }

    /// Whether the window around `addr` holds `value`.
    fn near(&self, addr: usize, value: u8) -> (r: bool)
        requires
            addr < self.contents@.len(),
        ensures
            r == holds_near(self.contents@, addr as int, self.radius as int, value),
    {
        proof {
            use_type_invariant(self);
        }
        let (start, window) = slice_by_radius(self.contents.as_slice(), addr, self.radius);
        let found = search_slice(window, value);
        proof {
            let w = window@;
            assert(w.len() == window.len());
            lemma_positions(w, value, w.len() as int);
            if found@.len() > 0 {
                let p = found@[0];
                assert(w[p as int] == value);
                assert(self.contents@[start + p] == value);
            }
            if holds_near(self.contents@, addr as int, self.radius as int, value) {
                let p = choose|p: int|
                    window_start(addr as int, self.radius as int) <= p < window_end(
                        addr as int,
                        self.radius as int,
                        self.contents@.len() as int,
                    ) && #[trigger] self.contents@[p] == value;
                assert(w[p - start] == value);
                assert(found@.contains((p - start) as usize));
            }
        }
        found.len() > 0
    }

    /// Searches for a value: the first one picks every address that holds
    /// it, each later one keeps the candidates that have it within the
    /// radius. When no address is left the candidates stay as they were
    /// and `false` comes back; otherwise they are replaced, the value is
    /// recorded and `true` comes back.
    pub fn search(&mut self, value: u8) -> (r: bool)
        ensures
            final(self).bytes() == old(self).bytes(),
            final(self).reach() == old(self).reach(),
            r == (next_addrs(old(self).bytes(), old(self).candidates(), old(self).reach() as int, value).len() > 0),
            r ==> final(self).candidates() == next_addrs(
                old(self).bytes(),
                old(self).candidates(),
                old(self).reach() as int,
                value,
            ),
            r ==> final(self).picked() == old(self).picked().push(value),
            !r ==> final(self).candidates() == old(self).candidates() && final(self).picked() == old(self).picked(),
    {
        proof {
            use_type_invariant(&*self);
        }
        let addrs = if self.addrs.len() == 0 {
            let a = search_slice(self.contents.as_slice(), value);
            proof {
                assert(self.contents@.len() == self.contents.len());
                lemma_positions(self.contents@, value, self.contents@.len() as int);
            }
            a
        } else {
            let mut kept: Vec<usize> = Vec::new();
            let n = self.addrs.len();
            let mut i: usize = 0;
            proof {
                assert(self.addrs@.subrange(0, 0) =~= Seq::<usize>::empty());
            }
            while i < n
                invariant
                    forall|j: int| 0 <= j < self.addrs@.len() ==> #[trigger] self.addrs@[j] < self.contents@.len(),
                    n == self.addrs@.len(),
                    i <= n,
                    kept@ == addrs_near(
                        self.contents@,
                        self.addrs@.subrange(0, i as int),
                        self.radius as int,
                        value,
                    ),
                    forall|j: int| 0 <= j < kept@.len() ==> #[trigger] kept@[j] < self.contents@.len(),
                decreases n - i,
            {
                let addr = self.addrs[i];
                proof {
                    let t = self.addrs@.subrange(0, i + 1);
                    assert(t.drop_last() =~= self.addrs@.subrange(0, i as int));
                }
                if self.near(addr, value) {
                    kept.push(addr);
                }
                i = i + 1;
            }
            proof {
                assert(self.addrs@.subrange(0, n as int) =~= self.addrs@);
            }
            kept
        };
        if addrs.len() == 0 {
            false
        } else {
            self.addrs = addrs;
            let mut values: Vec<u8> = Vec::new();
            std::mem::swap(&mut values, &mut self.values);
            values.push(value);
            self.values = values;
            true
        }
    }

    /// The offsets from `addr` of the bytes within the radius that hold
    /// `value`, nearest first (of two at the same distance either may
    /// come first).
    pub fn offsets(&self, addr: usize, value: u8) -> (r: Vec<i64>)
        requires
            addr < self.bytes().len(),
        ensures
            r@.map_values(|x: i64| x as int).to_multiset() == offsets_near(
                self.bytes(),
                addr as int,
                self.reach() as int,
                value,
            ).to_multiset(),
            by_distance(r@),
    {
        proof {
            use_type_invariant(self);
        }
        let (begin, window) = slice_by_radius(self.contents.as_slice(), addr, self.radius);
        let found = search_slice(window, value);
        let ghost target = offsets_near(self.contents@, addr as int, self.radius as int, value);
        proof {
            assert(window@.len() == window.len());
            assert(self.contents@.len() == self.contents.len());
            lemma_positions(window@, value, window@.len() as int);
        }
        let mut out: Vec<i64> = Vec::new();
        let n = found.len();
        let mut i: usize = 0;
        proof {
            assert(out@.map_values(|x: i64| x as int) =~= Seq::<int>::empty());
            assert(target.subrange(0, 0) =~= Seq::<int>::empty());
        }
        while i < n
            invariant
                n == found@.len(),
                i <= n,
                begin + window@.len() <= self.contents@.len(),
                self.contents@.len() <= i64::MAX,
                self.contents@.len() <= usize::MAX,
                addr < self.contents@.len(),
                forall|j: int| 0 <= j < n ==> #[trigger] found@[j] < window@.len(),
                target == found@.map_values(|p: usize| begin + p - addr),
                forall|k: int| 0 <= k < out@.len() ==> #[trigger] out@[k] > i64::MIN,
                out@.map_values(|x: i64| x as int).to_multiset() == target.subrange(
                    0,
                    i as int,
                ).to_multiset(),
                by_distance(out@),
            decreases n - i,
        {
            let p = begin + found[i];
            let x: i64 = p as i64 - addr as i64;
            let m = out.len();
            let dx = distance(x);
            let mut j: usize = 0;
            let mut searching = true;
            while searching && j < m
                invariant
                    m == out@.len(),
                    j <= m,
                    forall|k: int| 0 <= k < j ==> abs(#[trigger] out@[k]) <= abs(x),
                    !searching ==> j < m && abs(x) < abs(out@[j as int]),
                    forall|k: int| 0 <= k < m ==> #[trigger] out@[k] > i64::MIN,
                    dx == abs(x),
                decreases m - j, if searching { 1int } else { 0int },
            {
                if distance(out[j]) <= dx {
                    j = j + 1;
                } else {
                    searching = false;
                }
            }
            let ghost before = out@;
            out.insert(j, x);
            proof {
                assert(out@.map_values(|y: i64| y as int) =~= before.map_values(|y: i64| y as int).insert(
                    j as int,
                    x as int,
                ));
                vstd::seq_lib::to_multiset_insert(before.map_values(|y: i64| y as int), j as int, x as int);
                assert(target.subrange(0, i + 1) =~= target.subrange(0, i as int).push(x as int));
                vstd::seq_lib::to_multiset_build(target.subrange(0, i as int), x as int);
                assert forall|a: int, b: int| 0 <= a < b < out@.len() implies abs(#[trigger] out@[a]) <= abs(
                    #[trigger] out@[b],
                ) by {
                    if b < j {
                        assert(out@[a] == before[a] && out@[b] == before[b]);
                    } else if b == j {
                        assert(out@[a] == before[a]);
                    } else if a < j {
                        assert(out@[a] == before[a] && out@[b] == before[b - 1]);
                    } else if a == j {
                        assert(out@[b] == before[b - 1]);
                        assert(abs(x) < abs(before[j as int]));
                        if b - 1 > j {
                            assert(abs(before[j as int]) <= abs(before[b - 1]));
                        }
                    } else {
                        assert(out@[a] == before[a - 1] && out@[b] == before[b - 1]);
                    }
                }
            }
            i = i + 1;
        }
        proof {
            assert(target.subrange(0, n as int) =~= target);
        }
        out
    }
}

} // verus!

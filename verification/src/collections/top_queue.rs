//! A bounded queue that keeps, in order, the first `capacity` elements of
//! everything inserted into it.

use crate::algo::a::{lemma_positions, lemma_upper_pos_unique, upper_pos};
use crate::algo::order::{lawful_order, lemma_ord_laws, ord_le, ord_lt, sorted};
use vstd::multiset::Multiset;
use vstd::prelude::*;
use vstd::std_specs::iter::IteratorSpec;

verus! {

/// `s` with `x` inserted after every element that is no later than it.
pub open spec fn insert_sorted<T: Ord>(s: Seq<T>, x: T) -> Seq<T> {
    s.insert(upper_pos(s, x) as int, x)
}

/// The first `n` elements of `s` (all of them when there are fewer).
pub open spec fn first_n<T>(s: Seq<T>, n: nat) -> Seq<T> {
    if n < s.len() {
        s.take(n as int)
    } else {
        s
    }
}

/// What inserting `x` does to a queue holding `s` with room for `cap`.
pub open spec fn queue_insert<T: Ord>(s: Seq<T>, x: T, cap: nat) -> Seq<T> {
    first_n(insert_sorted(s, x), cap)
}

/// What inserting the elements of `items`, in order, does to a queue
/// holding `s` with room for `cap`.
pub open spec fn queue_insert_all<T: Ord>(s: Seq<T>, items: Seq<T>, cap: nat) -> Seq<T>
    decreases items.len(),
{
    if items.len() == 0 {
        s
    } else {
        queue_insert(queue_insert_all(s, items.drop_last(), cap), items.last(), cap)
    }
}

/// The stable sort of `s`: sorted, with equal elements in the order in
/// which they occur in `s`.
pub open spec fn stable_sort<T: Ord>(s: Seq<T>) -> Seq<T>
    decreases s.len(),
{
    if s.len() == 0 {
        s
    } else {
        insert_sorted(stable_sort(s.drop_last()), s.last())
    }
}

/// `c` holds a clone of each element of `a`, in the same order.
pub open spec fn clones_of<T: Clone>(a: Seq<T>, c: Seq<T>) -> bool {
    &&& c.len() == a.len()
    &&& forall|i: int| 0 <= i < a.len() ==> cloned(a[i], #[trigger] c[i])
}

/// Queue of the first `capacity` elements, in order, of what was inserted.
pub struct TopQueue<T: Ord> {
    capacity: usize,
    elems: Vec<T>,
}

impl<T: Ord> View for TopQueue<T> {
    type V = Seq<T>;

    /// The elements kept, first to last.
    closed spec fn view(&self) -> Seq<T> {
        self.elems@
    }
}

impl<T: Ord> TopQueue<T> {
    /// Room in the queue.
    pub closed spec fn cap(&self) -> nat {
        self.capacity as nat
    }

    /// There are no more than `capacity` elements, and they are in order
    /// wherever the order of `T` is lawful.
    #[verifier::type_invariant]
    spec fn wf(self) -> bool {
        &&& lawful_order::<T>() ==> sorted(self.elems@)
        &&& self.elems@.len() <= self.capacity
    }
}

/// Where `elem` goes among `elems`: after every element that is no later
/// than it, when the order is lawful and `elems` is in order.
fn insert_pos<T: Ord>(elems: &[T], elem: &T) -> (r: usize)
    ensures
        r <= elems@.len(),
        lawful_order::<T>() && sorted(elems@) ==> r == upper_pos(elems@, *elem),
{
    let mut lo: usize = 0;
    let mut hi: usize = elems.len();
    while lo < hi
        invariant
            lo <= hi <= elems@.len(),
            lawful_order::<T>() && sorted(elems@) ==> forall|i: int|
                0 <= i < lo ==> ord_le(#[trigger] elems@[i], *elem),
            lawful_order::<T>() && sorted(elems@) ==> forall|i: int|
                hi <= i < elems@.len() ==> !ord_le(#[trigger] elems@[i], *elem),
        decreases hi - lo,
    {
        let mid = lo + (hi - lo) / 2;
        let before = elems[mid] <= *elem;
        proof {
            if lawful_order::<T>() && sorted(elems@) {
                lemma_ord_laws::<T>();
                assert(before == ord_le(elems@[mid as int], *elem));
                assert forall|i: int| 0 <= i <= mid implies ord_le(#[trigger] elems@[i], elems@[mid as int]) by {}
                assert forall|i: int| mid <= i < elems@.len() implies ord_le(elems@[mid as int], #[trigger] elems@[i]) by {}
            }
        }
        if before {
            lo = mid + 1;
        } else {
            hi = mid;
        }
    }
    proof {
        if lawful_order::<T>() && sorted(elems@) {
            lemma_upper_pos_unique(elems@, *elem, lo as int);
        }
    }
    lo
}

/// Inserting into a sorted sequence keeps it sorted.
pub proof fn lemma_insert_sorted<T: Ord>(s: Seq<T>, x: T)
    requires
        lawful_order::<T>(),
        sorted(s),
    ensures
        sorted(insert_sorted(s, x)),
        insert_sorted(s, x).len() == s.len() + 1,
        insert_sorted(s, x).to_multiset() == s.to_multiset().insert(x),
{
    lemma_ord_laws::<T>();
    lemma_positions(s, x);
    let p = upper_pos(s, x) as int;
    let r = insert_sorted(s, x);
    assert forall|i: int, j: int| 0 <= i <= j < r.len() implies ord_le(
        #[trigger] r[i],
        #[trigger] r[j],
    ) by {
        if i < p && j < p {
            assert(r[i] == s[i] && r[j] == s[j]);
        } else if i < p && j == p {
            assert(r[i] == s[i]);
        } else if i < p {
            assert(r[i] == s[i] && r[j] == s[j - 1]);
        } else if i == p && j == p {
        } else if i == p {
            assert(r[j] == s[j - 1]);
            assert(ord_lt(x, s[j - 1]));
        } else {
            assert(r[i] == s[i - 1] && r[j] == s[j - 1]);
        }
    }
    s.to_multiset_ensures();
    vstd::seq_lib::lemma_seq_union_to_multiset_commutative(s.take(p), s.skip(p));
    assert(r =~= s.take(p) + seq![x] + s.skip(p));
    assert(s =~= s.take(p) + s.skip(p));
    vstd::seq_lib::lemma_multiset_commutative(s.take(p), s.skip(p));
    vstd::seq_lib::lemma_multiset_commutative(s.take(p) + seq![x], s.skip(p));
    vstd::seq_lib::lemma_multiset_commutative(s.take(p), seq![x]);
    assert(seq![x].to_multiset() =~= Multiset::empty().insert(x)) by {
        assert(seq![x] =~= Seq::<T>::empty().push(x));
        Seq::<T>::empty().to_multiset_ensures();
    }
}

/// Cutting a sorted sequence short before inserting changes nothing in
/// the part that is kept.
pub proof fn lemma_insert_take<T: Ord>(s: Seq<T>, x: T, k: nat)
    requires
        lawful_order::<T>(),
        sorted(s),
        k <= s.len(),
    ensures
        queue_insert(first_n(s, k), x, k) == queue_insert(s, x, k),
{
    lemma_ord_laws::<T>();
    lemma_positions(s, x);
    let t = first_n(s, k);
    let p = upper_pos(s, x) as int;
    let q = if p < k { p } else { k as int };
    assert(upper_pos(t, x) == q) by {
        assert forall|i: int| 0 <= i < q implies ord_le(#[trigger] t[i], x) by {
            assert(t[i] == s[i]);
        }
        assert forall|i: int| q <= i < t.len() implies !ord_le(#[trigger] t[i], x) by {
            assert(t[i] == s[i]);
            assert(ord_lt(x, s[i]));
        }
        crate::algo::a::lemma_upper_pos_unique(t, x, q);
    }
    assert(queue_insert(t, x, k) =~= queue_insert(s, x, k));
}

/// The stable sort is sorted and holds the same elements.
pub proof fn law_stable_sort_sorted_permutation<T: Ord>(s: Seq<T>)
    requires
        lawful_order::<T>(),
    ensures
        sorted(stable_sort(s)),
        stable_sort(s).to_multiset() == s.to_multiset(),
        stable_sort(s).len() == s.len(),
    decreases s.len(),
{
    if s.len() == 0 {
        assert(sorted(s));
    } else {
        law_stable_sort_sorted_permutation(s.drop_last());
        lemma_insert_sorted(stable_sort(s.drop_last()), s.last());
        assert(s =~= s.drop_last().push(s.last()));
        s.drop_last().to_multiset_ensures();
    }
}

/// Inserting elements one by one into a queue that holds the first
/// `cap` elements of `a`, in order, leaves it holding the first `cap`
/// elements of `a` followed by them: a queue always holds the smallest
/// `cap` elements of everything inserted into it, in order, equal ones
/// in the order in which they came.
pub proof fn law_queue_holds_first<T: Ord>(a: Seq<T>, items: Seq<T>, cap: nat)
    requires
        lawful_order::<T>(),
    ensures
        queue_insert_all(first_n(stable_sort(a), cap), items, cap) == first_n(
            stable_sort(a + items),
            cap,
        ),
    decreases items.len(),
{
    if items.len() == 0 {
        assert(a + items =~= a);
    } else {
        law_queue_holds_first(a, items.drop_last(), cap);
        let b = a + items.drop_last();
        assert(a + items =~= b.push(items.last()));
        assert((a + items).drop_last() =~= b);
        law_stable_sort_sorted_permutation(b);
        let sb = stable_sort(b);
        if cap <= sb.len() {
            lemma_insert_take(sb, items.last(), cap);
        }
    }
}

/// A queue built by inserting `items` one by one into an empty queue
/// holds the first `cap` of them in sorted order.
pub proof fn law_queue_from_empty<T: Ord>(items: Seq<T>, cap: nat)
    requires
        lawful_order::<T>(),
    ensures
        queue_insert_all(Seq::empty(), items, cap) == first_n(stable_sort(items), cap),
{
    law_queue_holds_first(Seq::<T>::empty(), items, cap);
    assert(first_n(stable_sort(Seq::<T>::empty()), cap) =~= Seq::<T>::empty());
    assert(Seq::<T>::empty() + items =~= items);
}

impl<T: Ord> Default for TopQueue<T> {
    /// An empty queue with no room.
    fn default() -> (q: Self)
        ensures
            q@ == Seq::<T>::empty(),
            q.cap() == 0,
    {
        TopQueue { capacity: 0, elems: Vec::new() }
    }
}

impl<T: Ord + Clone> TopQueue<T> {
    /// A queue with room for `capacity` elements into which `elems` were
    /// inserted, first to last: how a stored queue is built again.
    pub fn from_elems(capacity: usize, elems: Vec<T>) -> (q: TopQueue<T>)
        ensures
            q.cap() == capacity,
            q@.len() == if elems@.len() < capacity {
                elems@.len()
            } else {
                capacity as nat
            },
            lawful_order::<T>() ==> q@ == queue_insert_all(Seq::empty(), elems@, capacity as nat),
    {
        let ghost orig = elems@;
        let mut q = TopQueue::with_capacity(capacity);
        let mut rest = elems;
        let n = rest.len();
        let mut k: usize = 0;
        proof {
            assert(orig.take(0) =~= Seq::<T>::empty());
            assert(orig.skip(0) =~= orig);
        }
        while k < n
            invariant
                n == orig.len(),
                k <= n,
                rest@ == orig.skip(k as int),
                q.cap() == capacity,
                q@.len() == if k < capacity {
                    k as nat
                } else {
                    capacity as nat
                },
                lawful_order::<T>() ==> q@ == queue_insert_all(Seq::empty(), orig.take(k as int), capacity as nat),
            decreases n - k,
        {
            let ghost before = q@;
            let elem = rest.remove(0);
            proof {
                assert(elem == orig[k as int]);
                assert(rest@ =~= orig.skip(k + 1));
                assert(orig.take(k + 1).drop_last() =~= orig.take(k as int));
                assert(orig.take(k + 1).last() == elem);
            }
            q.insert(elem);
            proof {
                let p = choose|p: int|
                    0 <= p <= before.len() && q@ == first_n(#[trigger] before.insert(p, elem), capacity as nat);
                assert(before.insert(p, elem).len() == before.len() + 1);
            }
            k = k + 1;
        }
        proof {
            assert(orig.take(n as int) =~= orig);
        }
        q
    }

    /// An empty queue with room for `capacity` elements.
    pub fn with_capacity(capacity: usize) -> (q: TopQueue<T>)
        ensures
            q@ == Seq::<T>::empty(),
            q.cap() == capacity,
    {
        let elems = if capacity < usize::MAX {
            Vec::with_capacity(capacity + 1)
        } else {
            Vec::new()
        };
        TopQueue { capacity, elems }
    }

    /// Number of elements kept.
    pub fn len(&self) -> (n: usize)
        ensures
            n == self@.len(),
    {
        self.elems.len()
    }

    /// Room in the queue.
    pub fn capacity(&self) -> (c: usize)
        ensures
            c == self.cap(),
    {
        self.capacity
    }

    /// Inserts `elem` after the elements that are no later than it; the
    /// last element falls off when the queue is over capacity. Whatever
    /// the order, `elem` goes in at some place and the queue is cut to its
    /// capacity; where the order is lawful, the place is the one after
    /// the elements no later than `elem`.
    pub fn insert(&mut self, elem: T)
        ensures
            final(self).cap() == old(self).cap(),
            exists|p: int|
                0 <= p <= old(self)@.len() && final(self)@ == first_n(
                    #[trigger] old(self)@.insert(p, elem),
                    old(self).cap(),
                ),
            lawful_order::<T>() ==> final(self)@ == queue_insert(old(self)@, elem, old(self).cap()),
    {
        proof {
            use_type_invariant(&*self);
            if lawful_order::<T>() {
                lemma_insert_sorted(self.elems@, elem);
                lemma_positions(self.elems@, elem);
            }
        }
        let pos = insert_pos(self.elems.as_slice(), &elem);
        let mut elems: Vec<T> = Vec::new();
        std::mem::swap(&mut elems, &mut self.elems);
        elems.insert(pos, elem);
        if elems.len() > self.capacity {
            elems.pop();
        }
        proof {
            let r = old(self).elems@.insert(pos as int, elem);
            assert(elems@ =~= first_n(r, self.capacity as nat));
            if lawful_order::<T>() {
                assert(r == insert_sorted(old(self).elems@, elem));
                assert forall|i: int, j: int| 0 <= i <= j < elems@.len() implies ord_le(
                    #[trigger] elems@[i],
                    #[trigger] elems@[j],
                ) by {
                    assert(elems@[i] == r[i] && elems@[j] == r[j]);
                }
            }
        }
        self.elems = elems;
        proof {
            assert(self@ == first_n(old(self)@.insert(pos as int, elem), old(self).cap()));
        }
    }

    /// Inserts a clone of every element of `other`, first to last.
    pub fn merge(&mut self, other: &Self)
        ensures
            final(self).cap() == old(self).cap(),
            exists|c: Seq<T>|
                #[trigger] clones_of(other@, c) && (lawful_order::<T>() ==> final(self)@
                    == queue_insert_all(old(self)@, c, old(self).cap())),
    {
        let n = other.elems.len();
        let mut i: usize = 0;
        let ghost mut c: Seq<T> = Seq::empty();
        while i < n
            invariant
                n == other@.len(),
                0 <= i <= n,
                self.cap() == old(self).cap(),
                clones_of(other@.take(i as int), c),
                lawful_order::<T>() ==> self@ == queue_insert_all(old(self)@, c, old(self).cap()),
            decreases n - i,
        {
            let elem = other.elems[i].clone();
            proof {
                assert(cloned(other@[i as int], elem));
                let c2 = c.push(elem);
                assert(c2.drop_last() =~= c);
                assert(clones_of(other@.take(i + 1), c2)) by {
                    assert forall|j: int| 0 <= j < i + 1 implies cloned(
                        other@.take(i + 1)[j],
                        #[trigger] c2[j],
                    ) by {
                        if j < i {
                            assert(other@.take(i + 1)[j] == other@.take(i as int)[j]);
                        }
                    }
                }
                c = c2;
            }
            self.insert(elem);
            i = i + 1;
        }
        proof {
            assert(other@.take(n as int) =~= other@);
        }
    }

    /// Iterator over the kept elements, first to last.
    pub fn iter(&self) -> (it: std::slice::Iter<'_, T>)
        ensures
            IteratorSpec::remaining(&it) == self@.map_values(|x: T| &x),
    {
        let it = self.elems.iter();
        proof {
            assert(self@.map_values(|x: T| &x) =~= self.elems@.as_ref());
        }
        it
    }

    /// The first (smallest) element kept.
    pub fn first(&self) -> (r: Option<&T>)
        ensures
            r == if self@.len() > 0 {
                Some(&self@[0])
            } else {
                None::<&T>
            },
    {
        self.elems.first()
    }

    /// The last (largest) element kept.
    pub fn last(&self) -> (r: Option<&T>)
        ensures
            r == if self@.len() > 0 {
                Some(&self@[self@.len() - 1])
            } else {
                None::<&T>
            },
    {
        self.elems.last()
    }

    /// The element at `index`, if there is one.
    pub fn get(&self, index: usize) -> (r: Option<&T>)
        ensures
            r == if index < self@.len() {
                Some(&self@[index as int])
            } else {
                None::<&T>
            },
    {
        if index < self.elems.len() {
            Some(&self.elems[index])
        } else {
            None
        }
    }

    /// The kept elements, first to last.
    pub fn into_vec(self) -> (v: Vec<T>)
        ensures
            v@ == self@,
    {
        self.elems
    }
}

} // verus!

//! A string map kept in a vector, so that its entries stay in the order in
//! which their keys were first inserted.

use crate::text::str_eq;
use vstd::prelude::*;

verus! {

/// Entries of a map as text: key and value.
pub type Entries = Seq<(Seq<char>, Seq<char>)>;

/// Index of the first entry with key `k`, or -1.
pub open spec fn find_key(s: Entries, k: Seq<char>) -> int
    decreases s.len(),
{
    if s.len() == 0 {
        -1
    } else {
        let f = find_key(s.drop_last(), k);
        if f >= 0 {
            f
        } else if s.last().0 == k {
            s.len() - 1
        } else {
            -1
        }
    }
}

/// The value of the first entry with key `k`.
pub open spec fn lookup(s: Entries, k: Seq<char>) -> Option<Seq<char>> {
    let i = find_key(s, k);
    if i >= 0 {
        Some(s[i].1)
    } else {
        None
    }
}

/// Setting `k` to `v`: the first entry with key `k` gets the new value,
/// or a new entry goes at the end.
pub open spec fn map_insert(s: Entries, k: Seq<char>, v: Seq<char>) -> Entries {
    let i = find_key(s, k);
    if i >= 0 {
        s.update(i, (k, v))
    } else {
        s.push((k, v))
    }
}

/// No key occurs twice.
pub open spec fn keys_unique(s: Entries) -> bool {
    forall|i: int, j: int| 0 <= i < j < s.len() ==> #[trigger] s[i].0 != #[trigger] s[j].0
}

/// `find_key` finds the first entry with the key, and nothing when no
/// entry has it.
pub proof fn lemma_find_key(s: Entries, k: Seq<char>)
    ensures
        -1 <= find_key(s, k) < s.len(),
        find_key(s, k) >= 0 ==> s[find_key(s, k)].0 == k,
        forall|j: int|
            0 <= j < s.len() && (find_key(s, k) < 0 || j < find_key(s, k)) ==> #[trigger] s[j].0
                != k,
    decreases s.len(),
{
    if s.len() > 0 {
        let t = s.drop_last();
        lemma_find_key(t, k);
        assert forall|j: int|
            0 <= j < s.len() && (find_key(s, k) < 0 || j < find_key(s, k)) implies #[trigger] s[j].0
            != k by {
            if j < t.len() {
                assert(s[j] == t[j]);
            }
        }
    }
}

/// A key reads back the value it was last set to, and setting one key
/// leaves the others as they were.
pub proof fn law_read_after_insert(s: Entries, k: Seq<char>, v: Seq<char>, k2: Seq<char>)
    ensures
        lookup(map_insert(s, k, v), k) == Some(v),
        k2 != k ==> lookup(map_insert(s, k, v), k2) == lookup(s, k2),
{
    lemma_find_key(s, k);
    lemma_find_key(s, k2);
    let r = map_insert(s, k, v);
    lemma_find_key(r, k);
    lemma_find_key(r, k2);
    let f = find_key(s, k);
    let fr = find_key(r, k);
    if f < 0 {
        assert(r[s.len() as int].0 == k);
        if fr < s.len() {
            assert(r[fr] == s[fr]);
        }
    } else {
        assert(r[f].0 == k);
        if fr >= 0 && fr < f {
            assert(r[fr] == s[fr]);
        }
    }
    assert(fr == if f < 0 { s.len() as int } else { f });
    if k2 != k {
        let g = find_key(s, k2);
        let gr = find_key(r, k2);
        if g >= 0 {
            assert(r[g] == s[g]);
            if gr >= 0 && gr < g {
                assert(r[gr] == s[gr] || gr == f);
            }
        } else {
            if gr >= 0 {
                assert(r[gr].0 == k2);
                if gr < s.len() && gr != f {
                    assert(r[gr] == s[gr]);
                }
            }
        }
        assert(gr == g);
    }
}

/// Setting keys never makes a key occur twice, keeps the entries already
/// there in their order, and puts a new key after them.
pub proof fn law_insert_keeps_order(s: Entries, k: Seq<char>, v: Seq<char>)
    requires
        keys_unique(s),
    ensures
        keys_unique(map_insert(s, k, v)),
        map_insert(s, k, v).len() >= s.len(),
        forall|i: int| 0 <= i < s.len() ==> #[trigger] map_insert(s, k, v)[i].0 == s[i].0,
        lookup(s, k) is None ==> map_insert(s, k, v).last() == (k, v),
{
    lemma_find_key(s, k);
    let r = map_insert(s, k, v);
    let f = find_key(s, k);
    if f >= 0 {
        assert forall|i: int| 0 <= i < s.len() implies #[trigger] r[i].0 == s[i].0 by {
            if i == f {
                assert(s[f].0 == k);
            }
        }
        assert forall|i: int, j: int| 0 <= i < j < r.len() implies #[trigger] r[i].0
            != #[trigger] r[j].0 by {
            assert(r[i].0 == s[i].0 && r[j].0 == s[j].0);
        }
    } else {
        assert forall|i: int, j: int| 0 <= i < j < r.len() implies #[trigger] r[i].0
            != #[trigger] r[j].0 by {
            if j == s.len() {
                assert(r[i] == s[i]);
                assert(s[i].0 != k);
            } else {
                assert(r[i] == s[i] && r[j] == s[j]);
            }
        }
    }
}

/// Map from text keys to text values that keeps insertion order.
pub struct VecMap {
    vars: Vec<(String, String)>,
}

impl View for VecMap {
    type V = Entries;

    /// The entries, in insertion order.
    closed spec fn view(&self) -> Entries {
        self.vars@.map_values(|kv: (String, String)| (kv.0@, kv.1@))
    }
}

impl Default for VecMap {
    fn default() -> (m: Self)
        ensures
            m@ == Seq::<(Seq<char>, Seq<char>)>::empty(),
    {
        VecMap::new()
    }
}

impl Clone for VecMap {
    fn clone(&self) -> (r: Self)
        ensures
            r@ == self@,
    {
        let mut vars: Vec<(String, String)> = Vec::new();
        let n = self.vars.len();
        let mut i: usize = 0;
        while i < n
            invariant
                n == self.vars@.len(),
                i <= n,
                vars@.len() == i,
                forall|j: int|
                    0 <= j < i ==> (#[trigger] vars@[j]).0@ == self.vars@[j].0@ && vars@[j].1@
                        == self.vars@[j].1@,
            decreases n - i,
        {
            let k = self.vars[i].0.clone();
            let v = self.vars[i].1.clone();
            vars.push((k, v));
            i = i + 1;
        }
        let r = VecMap { vars };
        assert(r@ =~= self@);
        r
    }
}

impl VecMap {
    /// An empty map.
    pub fn new() -> (m: Self)
        ensures
            m@ == Seq::<(Seq<char>, Seq<char>)>::empty(),
    {
        let m = Self { vars: Vec::new() };
        assert(m@ =~= Seq::<(Seq<char>, Seq<char>)>::empty());
        m
    }

    /// Index of the first entry with key `key`.
    fn position(&self, key: &str) -> (r: Option<usize>)
        ensures
            self@.len() == self.vars@.len(),
            match r {
                Some(i) => i == find_key(self@, key@) && i < self.vars@.len(),
                None => find_key(self@, key@) < 0,
            },
    {
        proof {
            lemma_find_key(self@, key@);
        }
        let n = self.vars.len();
        let mut i: usize = 0;
        while i < n
            invariant
                n == self.vars@.len(),
                n == self@.len(),
                0 <= i <= n,
                forall|j: int| 0 <= j < i ==> #[trigger] self@[j].0 != key@,
                -1 <= find_key(self@, key@) < n,
                find_key(self@, key@) >= 0 ==> self@[find_key(self@, key@)].0 == key@,
                forall|j: int|
                    0 <= j < n && (find_key(self@, key@) < 0 || j < find_key(self@, key@))
                        ==> #[trigger] self@[j].0 != key@,
            decreases n - i,
        {
            assert(self@[i as int].0 == self.vars@[i as int].0@);
            if str_eq(self.vars[i].0.as_str(), key) {
                proof {
                    let f = find_key(self@, key@);
                    if f < 0 {
                        assert(self@[i as int].0 != key@);
                    }
                    if f < i {
                        assert(self@[f].0 == key@);
                    }
                    if f > i {
                        assert(self@[i as int].0 != key@);
                    }
                }
                return Some(i);
            }
            i = i + 1;
        }
        proof {
            let f = find_key(self@, key@);
            if f >= 0 {
                assert(self@[f].0 == key@);
            }
        }
        None
    }

    /// The value of `key`, if it is set.
    pub fn get(&self, key: &str) -> (r: Option<&String>)
        ensures
            match r {
                Some(v) => lookup(self@, key@) == Some(v@),
                None => lookup(self@, key@) is None,
            },
    {
        match self.position(key) {
            Some(i) => {
                assert(self@[i as int].1 == self.vars@[i as int].1@);
                Some(&self.vars[i].1)
            },
            None => None,
        }
    }

    /// Sets `key` to `value`: an existing entry keeps its place, a new key
    /// goes at the end.
    pub fn insert(&mut self, key: &str, value: &str)
        ensures
            final(self)@ == map_insert(old(self)@, key@, value@),
            keys_unique(old(self)@) ==> keys_unique(final(self)@),
    {
        proof {
            if keys_unique(self@) {
                law_insert_keeps_order(self@, key@, value@);
            }
        }
        match self.position(key) {
            Some(i) => {
                proof {
                    lemma_find_key(old(self)@, key@);
                }
                self.vars.set(i, (key.to_owned(), value.to_owned()));
            },
            None => {
                self.vars.push((key.to_owned(), value.to_owned()));
            },
        }
        assert(self@ =~= map_insert(old(self)@, key@, value@));
    }

    /// Number of entries.
    pub fn len(&self) -> (n: usize)
        ensures
            n == self@.len(),
    {
        self.vars.len()
    }

    /// Iterator over the entries in insertion order.
    pub fn iter(&self) -> (it: VecMapIter<'_>)
        ensures
            it.rest() == self@,
    {
        let it = VecMapIter { map: self, pos: 0 };
        assert(it.rest() =~= self@);
        it
    }
}

/// Walks the entries of a `VecMap` in insertion order.
pub struct VecMapIter<'a> {
    map: &'a VecMap,
    pos: usize,
}

impl<'a> VecMapIter<'a> {
    /// The position lies within the map.
    #[verifier::type_invariant]
    spec fn inv(&self) -> bool {
        self.pos <= self.map@.len()
    }

    /// The entries not yet visited.
    pub closed spec fn rest(&self) -> Entries {
        self.map@.skip(self.pos as int)
    }

    /// The next entry, key and value.
    pub fn next(&mut self) -> (r: Option<(&'a String, &'a String)>)
        ensures
            match r {
                Some((k, v)) => old(self).rest().len() > 0 && (k@, v@) == old(self).rest()[0]
                    && final(self).rest() == old(self).rest().drop_first(),
                None => old(self).rest().len() == 0 && final(self).rest() == old(self).rest(),
            },
    {
        proof {
            use_type_invariant(&*self);
        }
        if self.pos < self.map.vars.len() {
            let kv = &self.map.vars[self.pos];
            self.pos = self.pos + 1;
            assert(self.rest() =~= old(self).rest().drop_first());
            Some((&kv.0, &kv.1))
        } else {
            None
        }
    }
}

} // verus!

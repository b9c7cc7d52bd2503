//! A text file of `key<sep>value` lines, held as an ordered map.

use crate::collections::vec_map::{find_key, keys_unique, lemma_find_key, map_insert, Entries};
use crate::collections::VecMap;
use vstd::prelude::*;

verus! {

/// Index of the first `c` in `s`, or -1.
pub open spec fn first_index_of(s: Seq<char>, c: char) -> int
    decreases s.len(),
{
    if s.len() == 0 {
        -1
    } else {
        let f = first_index_of(s.drop_last(), c);
        if f >= 0 {
            f
        } else if s.last() == c {
            s.len() - 1
        } else {
            -1
        }
    }
}

/// A line split at its first separator into key and value; `None` when
/// the line holds no separator.
pub open spec fn split_line(line: Seq<char>, sep: char) -> Option<(Seq<char>, Seq<char>)> {
    let i = first_index_of(line, sep);
    if i >= 0 {
        Some((line.take(i), line.skip(i + 1)))
    } else {
        None
    }
}

/// The entries that the lines give, each line with a separator setting
/// its key, later lines overriding earlier ones.
pub open spec fn entries_of_lines(lines: Seq<Seq<char>>, sep: char) -> Entries
    decreases lines.len(),
{
    if lines.len() == 0 {
        Seq::empty()
    } else {
        let e = entries_of_lines(lines.drop_last(), sep);
        match split_line(lines.last(), sep) {
            Some((k, v)) => map_insert(e, k, v),
            None => e,
        }
    }
}

/// `first_index_of` finds the first occurrence.
pub proof fn lemma_first_index_of(s: Seq<char>, c: char)
    ensures
        -1 <= first_index_of(s, c) < s.len(),
        first_index_of(s, c) >= 0 ==> s[first_index_of(s, c)] == c,
        forall|j: int|
            0 <= j < s.len() && (first_index_of(s, c) < 0 || j < first_index_of(s, c)) ==> #[trigger] s[j]
                != c,
    decreases s.len(),
{
    if s.len() > 0 {
        let t = s.drop_last();
        lemma_first_index_of(t, c);
        assert forall|j: int|
            0 <= j < s.len() && (first_index_of(s, c) < 0 || j < first_index_of(s, c)) implies #[trigger] s[j]
            != c by {
            if j < t.len() {
                assert(s[j] == t[j]);
            }
        }
    }
}

/// `p` is where `c` first occurs in `s`.
pub proof fn lemma_first_index_unique(s: Seq<char>, c: char, p: int)
    requires
        0 <= p < s.len(),
        s[p] == c,
        forall|j: int| 0 <= j < p ==> #[trigger] s[j] != c,
    ensures
        first_index_of(s, c) == p,
    decreases s.len(),
{
    if p < s.len() - 1 {
        let t = s.drop_last();
        assert(t[p] == c);
        assert forall|j: int| 0 <= j < p implies #[trigger] t[j] != c by {
            assert(t[j] == s[j]);
        }
        lemma_first_index_unique(t, c, p);
    } else {
        let t = s.drop_last();
        lemma_first_index_of(t, c);
        if first_index_of(t, c) >= 0 {
            assert(t[first_index_of(t, c)] == s[first_index_of(t, c)]);
        }
    }
}

/// The line that stores one entry.
pub open spec fn line_of(kv: (Seq<char>, Seq<char>)) -> Seq<char> {
    kv.0 + seq!['='] + kv.1
}

/// Reading back the lines that a map is stored as gives the same map, in
/// the same order, provided that no key holds the separator `=`.
pub proof fn law_lines_read_back(e: Entries)
    requires
        keys_unique(e),
        forall|i: int| 0 <= i < e.len() ==> !(#[trigger] e[i].0).contains('='),
    ensures
        entries_of_lines(e.map_values(|kv: (Seq<char>, Seq<char>)| line_of(kv)), '=') == e,
    decreases e.len(),
{
    let ls = e.map_values(|kv: (Seq<char>, Seq<char>)| line_of(kv));
    if e.len() > 0 {
        let t = e.drop_last();
        assert(keys_unique(t)) by {
            assert forall|i: int, j: int| 0 <= i < j < t.len() implies #[trigger] t[i].0
                != #[trigger] t[j].0 by {
                assert(t[i] == e[i] && t[j] == e[j]);
            }
        }
        assert forall|i: int| 0 <= i < t.len() implies !(#[trigger] t[i].0).contains('=') by {
            assert(t[i] == e[i]);
        }
        law_lines_read_back(t);
        assert(ls.drop_last() =~= t.map_values(|kv: (Seq<char>, Seq<char>)| line_of(kv)));
        let (k, v) = e.last();
        let line = line_of(e.last());
        assert(line[k.len() as int] == '=');
        assert forall|j: int| 0 <= j < k.len() implies #[trigger] line[j] != '=' by {
            assert(line[j] == k[j]);
            if k[j] == '=' {
                assert(k.contains('='));
            }
        }
        lemma_first_index_unique(line, '=', k.len() as int);
        assert(line.take(k.len() as int) =~= k);
        assert(line.skip(k.len() as int + 1) =~= v);
        lemma_find_key(t, k);
        if find_key(t, k) >= 0 {
            assert(t[find_key(t, k)] == e[find_key(t, k)]);
        }
        assert(t.push((k, v)) =~= e);
    }
}

/// Splits a line at its first `sep` into key and value.
fn split_once(line: &str, sep: char) -> (r: Option<(&str, &str)>)
    ensures
        match r {
            Some((k, v)) => split_line(line@, sep) == Some((k@, v@)),
            None => split_line(line@, sep) is None,
        },
{
    proof {
        lemma_first_index_of(line@, sep);
    }
    let n = line.unicode_len();
    let mut i: usize = 0;
    while i < n
        invariant
            n == line@.len(),
            0 <= i <= n,
            forall|j: int| 0 <= j < i ==> #[trigger] line@[j] != sep,
        decreases n - i,
    {
        if line.get_char(i) == sep {
            proof {
                lemma_first_index_of(line@, sep);
                let f = first_index_of(line@, sep);
                if f < 0 || f > i {
                    assert(line@[i as int] != sep);
                }
                if 0 <= f < i {
                    assert(line@[f] == sep);
                }
            }
            let k = line.substring_char(0, i);
            let v = line.substring_char(i + 1, n);
            return Some((k, v));
        }
        i = i + 1;
    }
    proof {
        let f = first_index_of(line@, sep);
        if f >= 0 {
            assert(line@[f] == sep);
        }
    }
    None
}

/// Key-value pairs read from lines of text.
pub struct TextMap {
    vars: VecMap,
}

impl View for TextMap {
    type V = Entries;

    /// The entries, in the order in which their keys first appeared.
    closed spec fn view(&self) -> Entries {
        self.vars@
    }
}

impl TextMap {
    /// The map that the lines of a file give: each line is split at its
    /// first `sep` into key and value, lines without `sep` are skipped,
    /// and a later line overrides an earlier one with the same key.
    pub fn parse(lines: &Vec<String>, sep: char) -> (m: TextMap)
        ensures
            m@ == entries_of_lines(lines@.map_values(|l: String| l@), sep),
            keys_unique(m@),
    {
        let mut vars = VecMap::new();
        let ghost ls = lines@.map_values(|l: String| l@);
        let n = lines.len();
        let mut i: usize = 0;
        while i < n
            invariant
                n == lines@.len(),
                ls == lines@.map_values(|l: String| l@),
                0 <= i <= n,
                vars@ == entries_of_lines(ls.take(i as int), sep),
                keys_unique(vars@),
            decreases n - i,
        {
            proof {
                assert(ls.take(i + 1).drop_last() =~= ls.take(i as int));
                assert(ls.take(i + 1).last() == lines@[i as int]@);
            }
            if let Some((key, value)) = split_once(lines[i].as_str(), sep) {
                vars.insert(key, value);
            }
            i = i + 1;
        }
        proof {
            assert(ls.take(n as int) =~= ls);
        }
        TextMap { vars }
    }

    /// The lines that store the map, `key=value` each, in order.
    pub fn to_lines(&self) -> (lines: Vec<String>)
        ensures
            lines@.len() == self@.len(),
            forall|i: int|
                0 <= i < lines@.len() ==> #[trigger] lines@[i]@ == self@[i].0 + seq!['='] + self@[i].1,
    {
        let mut lines: Vec<String> = Vec::new();
        let mut it = self.vars.iter();
        let n = self.vars.len();
        let mut i: usize = 0;
        while i < n
            invariant
                n == self@.len(),
                0 <= i <= n,
                it.rest() == self@.skip(i as int),
                lines@.len() == i,
                forall|j: int|
                    0 <= j < i ==> #[trigger] lines@[j]@ == self@[j].0 + seq!['='] + self@[j].1,
            decreases n - i,
        {
            let (k, v) = it.next().unwrap();
            proof {
                assert(self@.skip(i as int)[0] == self@[i as int]);
                assert(self@.skip(i as int).drop_first() =~= self@.skip(i + 1));
            }
            let mut line = k.clone();
            line.append("=");
            line.append(v.as_str());
            proof {
                reveal_strlit("=");
            }
            lines.push(line);
            i = i + 1;
        }
        lines
    }

    /// The value of `key`, if it is set.
    pub fn get(&self, key: &str) -> (r: Option<&String>)
        ensures
            match r {
                Some(v) => crate::collections::vec_map::lookup(self@, key@) == Some(v@),
                None => crate::collections::vec_map::lookup(self@, key@) is None,
            },
    {
        self.vars.get(key)
    }

    /// Sets `key` to `value`.
    pub fn set(&mut self, key: &str, value: &str)
        ensures
            final(self)@ == map_insert(old(self)@, key@, value@),
            keys_unique(old(self)@) ==> keys_unique(final(self)@),
    {
        self.vars.insert(key, value);
    }
}

} // verus!

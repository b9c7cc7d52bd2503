//! Tab-separated records: splitting a line into fields, and turning rows
//! under a title row into maps from title to field.

use crate::collections::vec_map::{
    find_key, keys_unique, law_insert_keeps_order, law_read_after_insert, lemma_find_key, lookup, map_insert, Entries,
    VecMap,
};
use vstd::prelude::*;
use vstd::string::StrSliceExecFns;

verus! {

/// The pieces of `s` between the occurrences of `c`, in order: one more
/// piece than there are `c`s, empty pieces included.
pub open spec fn split_at_char(s: Seq<char>, c: char) -> Seq<Seq<char>>
    decreases s.len(),
{
    if s.len() == 0 {
        seq![Seq::empty()]
    } else {
        let p = split_at_char(s.drop_last(), c);
        if s.last() == c {
            p.push(Seq::empty())
        } else {
            p.update(p.len() - 1, p.last().push(s.last()))
        }
    }
}

/// The pieces joined back together with `c` between them.
pub open spec fn join_with(p: Seq<Seq<char>>, c: char) -> Seq<char>
    decreases p.len(),
{
    if p.len() <= 1 {
        if p.len() == 0 {
            Seq::empty()
        } else {
            p[0]
        }
    } else {
        join_with(p.drop_last(), c) + seq![c] + p.last()
    }
}

/// There is always at least one piece.
pub proof fn lemma_split_nonempty(s: Seq<char>, c: char)
    ensures
        split_at_char(s, c).len() >= 1,
    decreases s.len(),
{
    if s.len() > 0 {
        lemma_split_nonempty(s.drop_last(), c);
    }
}

/// Extending the last piece extends the joined text.
proof fn lemma_join_extend_last(p: Seq<Seq<char>>, c: char, x: char)
    requires
        p.len() >= 1,
    ensures
        join_with(p.update(p.len() - 1, p.last().push(x)), c) == join_with(p, c).push(x),
{
    let q = p.update(p.len() - 1, p.last().push(x));
    if p.len() > 1 {
        assert(q.drop_last() =~= p.drop_last());
        assert(join_with(q, c) =~= join_with(p, c).push(x));
    } else {
        assert(join_with(q, c) =~= join_with(p, c).push(x));
    }
}

/// Splitting a text at `c` and joining the pieces with `c` gives the
/// text back, and no piece holds `c`.
pub proof fn law_split_join_round_trip(s: Seq<char>, c: char)
    ensures
        join_with(split_at_char(s, c), c) == s,
        forall|i: int|
            0 <= i < split_at_char(s, c).len() ==> !(#[trigger] split_at_char(s, c)[i]).contains(c),
    decreases s.len(),
{
    if s.len() > 0 {
        let t = s.drop_last();
        law_split_join_round_trip(t, c);
        lemma_split_nonempty(t, c);
        let p = split_at_char(t, c);
        if s.last() == c {
            let q = p.push(Seq::<char>::empty());
            assert(q.drop_last() =~= p);
            if p.len() >= 1 {
                assert(join_with(q, c) =~= join_with(p, c) + seq![c] + Seq::<char>::empty());
            }
            assert(s =~= t.push(c));
            assert forall|i: int| 0 <= i < q.len() implies !(#[trigger] q[i]).contains(c) by {
                if i < p.len() {
                    assert(q[i] == p[i]);
                }
            }
        } else {
            lemma_join_extend_last(p, c, s.last());
            assert(s =~= t.push(s.last()));
            let q = p.update(p.len() - 1, p.last().push(s.last()));
            assert forall|i: int| 0 <= i < q.len() implies !(#[trigger] q[i]).contains(c) by {
                if i < p.len() - 1 {
                    assert(q[i] == p[i]);
                } else {
                    assert(!p[p.len() - 1].contains(c));
                    if q[i].contains(c) {
                        let k = choose|k: int| 0 <= k < q[i].len() && q[i][k] == c;
                        if k < p.last().len() {
                            assert(p.last()[k] == c);
                        }
                    }
                }
            }
        }
    }
}

/// The fields of a line of tab-separated values.
pub fn split_tabs(line: &str) -> (r: Vec<String>)
    ensures
        r@.map_values(|f: String| f@) == split_at_char(line@, '\t'),
{
    let n = line.unicode_len();
    let mut fields: Vec<String> = Vec::new();
    let mut start: usize = 0;
    let mut i: usize = 0;
    proof {
        assert(line@.subrange(0, 0) =~= Seq::<char>::empty());
        assert(fields@.map_values(|f: String| f@) =~= Seq::<Seq<char>>::empty());
        assert(fields@.map_values(|f: String| f@).push(line@.subrange(0, 0)) =~= split_at_char(
            line@.subrange(0, 0),
            '\t',
        ));
    }
    while i < n
        invariant
            n == line@.len(),
            start <= i <= n,
            fields@.map_values(|f: String| f@).push(line@.subrange(start as int, i as int))
                == split_at_char(line@.subrange(0, i as int), '\t'),
        decreases n - i,
    {
        let ch = line.get_char(i);
        let ghost before = fields@.map_values(|f: String| f@);
        proof {
            let t = line@.subrange(0, i + 1);
            assert(t.drop_last() =~= line@.subrange(0, i as int));
            assert(t.last() == ch);
        }
        if ch == '\t' {
            let piece = line.substring_char(start, i).to_owned();
            fields.push(piece);
            proof {
                assert(fields@.map_values(|f: String| f@) =~= before.push(
                    line@.subrange(start as int, i as int),
                ));
                assert(line@.subrange(i + 1, i + 1) =~= Seq::<char>::empty());
            }
            start = i + 1;
        } else {
            proof {
                let p = before.push(line@.subrange(start as int, i as int));
                assert(line@.subrange(start as int, i + 1) =~= line@.subrange(
                    start as int,
                    i as int,
                ).push(ch));
                assert(before.push(line@.subrange(start as int, i + 1)) =~= p.update(
                    p.len() - 1,
                    p.last().push(ch),
                ));
            }
        }
        i = i + 1;
    }
    let last = line.substring_char(start, n).to_owned();
    fields.push(last);
    proof {
        assert(line@.subrange(0, n as int) =~= line@);
        assert(fields@.map_values(|f: String| f@) =~= fields@.drop_last().map_values(
            |f: String| f@,
        ).push(last@));
        assert(fields@.drop_last() =~= fields@.subrange(0, fields@.len() - 1));
    }
    fields
}

/// The entries of one record: each field set under the title in the same
/// column, in column order, a repeated title keeping the later field.
pub open spec fn record_entries(titles: Seq<Seq<char>>, fields: Seq<Seq<char>>) -> Entries
    decreases fields.len(),
{
    if fields.len() == 0 {
        Seq::empty()
    } else {
        let k = fields.len() - 1;
        map_insert(record_entries(titles, fields.drop_last()), titles[k], fields[k])
    }
}

/// Under the title of each column, a record holds the field of the last
/// column with that title, whatever its text (an empty field included);
/// a key that titles no column of the record is not set.
pub proof fn law_record_reads_back_fields(titles: Seq<Seq<char>>, fields: Seq<Seq<char>>)
    requires
        fields.len() <= titles.len(),
    ensures
        forall|j: int|
            0 <= j < fields.len() && (forall|m: int| j < m < fields.len() ==> titles[m] != titles[j])
                ==> lookup(record_entries(titles, fields), #[trigger] titles[j]) == Some(fields[j]),
        forall|k: Seq<char>|
            (forall|j: int| 0 <= j < fields.len() ==> titles[j] != k) ==> #[trigger] lookup(
                record_entries(titles, fields),
                k,
            ) is None,
    decreases fields.len(),
{
    if fields.len() > 0 {
        let f = fields.drop_last();
        let l = fields.len() - 1;
        law_record_reads_back_fields(titles, f);
        let prev = record_entries(titles, f);
        assert forall|j: int|
            0 <= j < fields.len() && (forall|m: int| j < m < fields.len() ==> titles[m] != titles[j])
                implies lookup(record_entries(titles, fields), #[trigger] titles[j]) == Some(fields[j]) by {
            law_read_after_insert(prev, titles[l], fields[l], titles[j]);
            if j < l {
                assert(titles[l] != titles[j]);
                assert(forall|m: int| j < m < f.len() ==> titles[m] != titles[j]);
                assert(fields[j] == f[j]);
            }
        }
        assert forall|k: Seq<char>|
            (forall|j: int| 0 <= j < fields.len() ==> titles[j] != k) implies #[trigger] lookup(
                record_entries(titles, fields),
                k,
            ) is None by {
            law_read_after_insert(prev, titles[l], fields[l], k);
            assert(titles[l] != k);
            assert(forall|j: int| 0 <= j < f.len() ==> titles[j] != k);
        }
    }
}

/// A record holds each title of its columns once, as a key, and no other
/// key, in the order in which the titles first occur among its columns.
pub proof fn law_record_keys_in_column_order(titles: Seq<Seq<char>>, fields: Seq<Seq<char>>)
    requires
        fields.len() <= titles.len(),
    ensures
        keys_unique(record_entries(titles, fields)),
        forall|j: int| 0 <= j < fields.len() ==> lookup(record_entries(titles, fields), #[trigger] titles[j]) is Some,
        forall|a: int|
            0 <= a < record_entries(titles, fields).len() ==> exists|j: int|
                0 <= j < fields.len() && titles[j] == (#[trigger] record_entries(titles, fields)[a]).0,
        forall|a: int, b: int, j: int|
            0 <= a < b < record_entries(titles, fields).len() && 0 <= j < fields.len() && #[trigger] titles[j] == (
            #[trigger] record_entries(titles, fields)[b]).0 ==> exists|i: int|
                0 <= i < j && titles[i] == (#[trigger] record_entries(titles, fields)[a]).0,
    decreases fields.len(),
{
    if fields.len() > 0 {
        let f = fields.drop_last();
        let l = fields.len() - 1;
        law_record_keys_in_column_order(titles, f);
        let prev = record_entries(titles, f);
        let r = record_entries(titles, fields);
        let k = titles[l];
        law_insert_keeps_order(prev, k, fields[l]);
        lemma_find_key(prev, k);
        assert forall|j: int| 0 <= j < fields.len() implies lookup(r, #[trigger] titles[j]) is Some by {
            law_read_after_insert(prev, k, fields[l], titles[j]);
        }
        let pushed = find_key(prev, k) < 0;
        if !pushed {
            assert(r.len() == prev.len());
        } else {
            assert(r.len() == prev.len() + 1);
            assert(r[prev.len() as int].0 == k);
        }
        assert forall|a: int| 0 <= a < r.len() implies exists|j: int|
            0 <= j < fields.len() && titles[j] == (#[trigger] r[a]).0 by {
            if a < prev.len() {
                assert(r[a].0 == prev[a].0);
                let j = choose|j: int| 0 <= j < f.len() && titles[j] == (#[trigger] prev[a]).0;
            } else {
                assert(titles[l] == r[a].0);
            }
        }
        assert forall|a: int, b: int, j: int|
            0 <= a < b < r.len() && 0 <= j < fields.len() && #[trigger] titles[j] == (#[trigger] r[b]).0 implies exists|i: int|
                0 <= i < j && titles[i] == (#[trigger] r[a]).0 by {
            assert(r[a].0 == prev[a].0);
            if b < prev.len() {
                assert(r[b].0 == prev[b].0);
                if j < l {
                    assert(titles[j] == prev[b].0);
                } else {
                    let j2 = choose|j2: int| 0 <= j2 < f.len() && titles[j2] == (#[trigger] prev[b]).0;
                    let i = choose|i: int| 0 <= i < j2 && titles[i] == (#[trigger] prev[a]).0;
                    assert(i < j);
                }
            } else {
                assert(pushed);
                assert(titles[j] == k);
                if j < l {
                    assert(lookup(prev, titles[j]) is Some);
                }
                assert(j == l);
                let i = choose|i: int| 0 <= i < f.len() && titles[i] == (#[trigger] prev[a]).0;
            }
        }
    }
}

/// The characters of each string.
pub open spec fn texts(s: Seq<String>) -> Seq<Seq<char>> {
    s.map_values(|f: String| f@)
}

/// One map per row after the first, from the first row's titles to the
/// row's fields. There must be a title row, and no row may have more
/// fields than there are titles.
pub fn csv_rows_to_maps(rows: &Vec<Vec<String>>) -> (r: Vec<VecMap>)
    requires
        rows@.len() >= 1,
        forall|i: int| 1 <= i < rows@.len() ==> (#[trigger] rows@[i])@.len() <= rows@[0]@.len(),
    ensures
        r@.len() == rows@.len() - 1,
        forall|i: int|
            0 <= i < r@.len() ==> (#[trigger] r@[i])@ == record_entries(
                texts(rows@[0]@),
                texts(rows@[i + 1]@),
            ),
{
    let titles = &rows[0];
    let mut maps: Vec<VecMap> = Vec::new();
    let n = rows.len();
    let mut i: usize = 1;
    while i < n
        invariant
            n == rows@.len(),
            1 <= i <= n,
            *titles == rows@[0],
            forall|q: int| 1 <= q < rows@.len() ==> (#[trigger] rows@[q])@.len() <= rows@[0]@.len(),
            maps@.len() == i - 1,
            forall|q: int|
                0 <= q < maps@.len() ==> (#[trigger] maps@[q])@ == record_entries(
                    texts(rows@[0]@),
                    texts(rows@[q + 1]@),
                ),
        decreases n - i,
    {
        let row = &rows[i];
        let mut m = VecMap::new();
        let nf = row.len();
        let mut j: usize = 0;
        proof {
            assert(texts(row@).subrange(0, 0) =~= Seq::<Seq<char>>::empty());
        }
        while j < nf
            invariant
                nf == row@.len(),
                nf <= titles@.len(),
                j <= nf,
                m@ == record_entries(texts(titles@), texts(row@).subrange(0, j as int)),
            decreases nf - j,
        {
            proof {
                let f = texts(row@).subrange(0, j + 1);
                assert(f.drop_last() =~= texts(row@).subrange(0, j as int));
                assert(f[j as int] == row@[j as int]@);
                assert(texts(titles@)[j as int] == titles@[j as int]@);
            }
            m.insert(titles[j].as_str(), row[j].as_str());
            j = j + 1;
        }
        proof {
            assert(texts(row@).subrange(0, nf as int) =~= texts(row@));
        }
        maps.push(m);
        i = i + 1;
    }
    maps
}

} // verus!

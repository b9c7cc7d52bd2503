//! Replacing text by tables of substitutions.

use super::str_eq;
use vstd::prelude::*;
use vstd::string::{StrSliceExecFns, StringExecFns};

verus! {

/// `s` with every match of `from` replaced by `to`, matches found from
/// left to right without overlapping; an empty `from` matches before
/// every character and at the end.
pub open spec fn replace_all(s: Seq<char>, from: Seq<char>, to: Seq<char>) -> Seq<char>
    decreases s.len(),
{
    if from.len() == 0 {
        if s.len() == 0 {
            to
        } else {
            to + seq![s[0]] + replace_all(s.drop_first(), from, to)
        }
    } else if s.len() >= from.len() && s.take(from.len() as int) == from {
        to + replace_all(s.skip(from.len() as int), from, to)
    } else if s.len() == 0 {
        s
    } else {
        seq![s[0]] + replace_all(s.drop_first(), from, to)
    }
}

/// Replacing text by itself changes nothing.
pub proof fn law_replace_by_itself(s: Seq<char>, from: Seq<char>)
    ensures
        replace_all(s, from, from) == s,
    decreases s.len(),
{
    if from.len() == 0 {
        if s.len() > 0 {
            law_replace_by_itself(s.drop_first(), from);
            assert(from + seq![s[0]] + s.drop_first() =~= s);
        }
    } else if s.len() >= from.len() && s.take(from.len() as int) == from {
        law_replace_by_itself(s.skip(from.len() as int), from);
        assert(from + s.skip(from.len() as int) =~= s);
    } else if s.len() > 0 {
        law_replace_by_itself(s.drop_first(), from);
        assert(seq![s[0]] + s.drop_first() =~= s);
    }
}

/// Text in which `from` (not empty) does not occur is left as it is.
pub proof fn law_replace_absent(s: Seq<char>, from: Seq<char>, to: Seq<char>)
    requires
        from.len() > 0,
        forall|i: int| 0 <= i && i + from.len() <= s.len() ==> #[trigger] s.subrange(i, i + from.len()) != from,
    ensures
        replace_all(s, from, to) == s,
    decreases s.len(),
{
    if s.len() >= from.len() {
        assert(s.take(from.len() as int) =~= s.subrange(0int, 0int + from.len()));
    }
    if s.len() > 0 {
        let t = s.drop_first();
        assert forall|i: int| 0 <= i && i + from.len() <= t.len() implies #[trigger] t.subrange(i, i + from.len())
            != from by {
            assert(t.subrange(i, i + from.len()) =~= s.subrange(i + 1, i + 1 + from.len()));
        }
        law_replace_absent(t, from, to);
        assert(seq![s[0]] + t =~= s);
    }
}

/// `s` after the replacements of `map`, applied in order.
pub open spec fn replace_map_spec(s: Seq<char>, map: Seq<(Seq<char>, Seq<char>)>) -> Seq<char>
    decreases map.len(),
{
    if map.len() == 0 {
        s
    } else {
        let t = replace_map_spec(s, map.drop_last());
        replace_all(t, map.last().0, map.last().1)
    }
}

/// Replaces every match of `from` in `s` by `to`.
pub fn replace(s: &str, from: &str, to: &str) -> (r: String)
    ensures
        r@ == replace_all(s@, from@, to@),
{
    let n = s.unicode_len();
    let m = from.unicode_len();
    let mut out = String::new();
    let mut i: usize = 0;
    assert(s@.skip(0) =~= s@);
    assert(out@ + replace_all(s@, from@, to@) =~= replace_all(s@, from@, to@));
    if m == 0 {
        while i < n
            invariant
                n == s@.len(),
                from@.len() == 0,
                0 <= i <= n,
                replace_all(s@, from@, to@) == out@ + replace_all(s@.skip(i as int), from@, to@),
            decreases n - i,
        {
            proof {
                assert(s@.skip(i as int).drop_first() =~= s@.skip(i + 1));
                assert(s@.skip(i as int)[0] == s@[i as int]);
            }
            out.append(to);
            let c = s.substring_char(i, i + 1);
            assert(c@ =~= seq![s@[i as int]]);
            out.append(c);
            i = i + 1;
        }
        out.append(to);
        assert(s@.skip(n as int) =~= Seq::<char>::empty());
    } else {
        while i < n
            invariant
                n == s@.len(),
                m == from@.len(),
                m > 0,
                0 <= i <= n,
                replace_all(s@, from@, to@) == out@ + replace_all(s@.skip(i as int), from@, to@),
            decreases n - i,
        {
            let ghost rest = s@.skip(i as int);
            if m <= n - i && str_eq(s.substring_char(i, i + m), from) {
                proof {
                    assert(rest.take(m as int) =~= s@.subrange(i as int, i + m));
                    assert(rest.skip(m as int) =~= s@.skip(i + m));
                }
                out.append(to);
                i = i + m;
            } else {
                proof {
                    assert(rest.take(m as int) =~= s@.subrange(i as int, i + m) || rest.len() < m);
                    assert(rest.drop_first() =~= s@.skip(i + 1));
                    assert(rest[0] == s@[i as int]);
                }
                let c = s.substring_char(i, i + 1);
                assert(c@ =~= seq![s@[i as int]]);
                out.append(c);
                i = i + 1;
            }
        }
        assert(s@.skip(n as int) =~= Seq::<char>::empty());
    }
    out
}

/// Applies the replacements of `map` to `src`, each to the result of the
/// ones before it.
pub fn replace_map(src: &str, map: &[(String, String)]) -> (r: String)
    ensures
        r@ == replace_map_spec(src@, map@.map_values(|kv: (String, String)| (kv.0@, kv.1@))),
{
    let ghost ms = map@.map_values(|kv: (String, String)| (kv.0@, kv.1@));
    let mut txt = src.to_owned();
    let n = map.len();
    let mut i: usize = 0;
    while i < n
        invariant
            n == map@.len(),
            ms == map@.map_values(|kv: (String, String)| (kv.0@, kv.1@)),
            0 <= i <= n,
            txt@ == replace_map_spec(src@, ms.take(i as int)),
        decreases n - i,
    {
        proof {
            assert(ms.take(i + 1).drop_last() =~= ms.take(i as int));
        }
        txt = replace(txt.as_str(), map[i].0.as_str(), map[i].1.as_str());
        i = i + 1;
    }
    proof {
        assert(ms.take(n as int) =~= ms);
    }
    txt
}

} // verus!

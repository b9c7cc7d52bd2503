//! The order of strings: byte by byte, and a string before any longer
//! string that it starts.

use vstd::prelude::*;
use vstd::string::StringSliceAdditionalSpecFns;

verus! {

/// `a` comes before `b`, comparing bytes from the start; a proper prefix
/// comes first.
pub open spec fn bytes_lt(a: Seq<u8>, b: Seq<u8>) -> bool
    decreases a.len(),
{
    if b.len() == 0 {
        false
    } else if a.len() == 0 {
        true
    } else if a[0] != b[0] {
        a[0] < b[0]
    } else {
        bytes_lt(a.drop_first(), b.drop_first())
    }
}

/// `a` comes before `b` in the order of their UTF-8 bytes.
pub open spec fn text_lt(a: Seq<char>, b: Seq<char>) -> bool {
    bytes_lt(vstd::utf8::encode_utf8(a), vstd::utf8::encode_utf8(b))
}

/// No text comes after the one that follows it.
pub open spec fn text_sorted(s: Seq<Seq<char>>) -> bool {
    forall|i: int, j: int| 0 <= i < j < s.len() ==> !text_lt(#[trigger] s[j], #[trigger] s[i])
}

/// The characters of each string.
pub open spec fn views(s: Seq<String>) -> Seq<Seq<char>> {
    s.map_values(|x: String| x@)
}

/// Nothing comes before itself.
pub proof fn lemma_bytes_lt_irreflexive(a: Seq<u8>)
    ensures
        !bytes_lt(a, a),
    decreases a.len(),
{
    if a.len() > 0 {
        lemma_bytes_lt_irreflexive(a.drop_first());
    }
}

/// The order is transitive.
pub proof fn lemma_bytes_lt_transitive(a: Seq<u8>, b: Seq<u8>, c: Seq<u8>)
    requires
        bytes_lt(a, b),
        bytes_lt(b, c),
    ensures
        bytes_lt(a, c),
    decreases a.len(),
{
    if a.len() > 0 && a[0] == b[0] && b[0] == c[0] {
        lemma_bytes_lt_transitive(a.drop_first(), b.drop_first(), c.drop_first());
    }
}

/// Of two different byte strings one comes first.
pub proof fn lemma_bytes_lt_total(a: Seq<u8>, b: Seq<u8>)
    requires
        a != b,
    ensures
        bytes_lt(a, b) || bytes_lt(b, a),
    decreases a.len(),
{
    if a.len() > 0 && b.len() > 0 && a[0] == b[0] {
        if a.drop_first() == b.drop_first() {
            assert(a =~= seq![a[0]] + a.drop_first());
            assert(b =~= seq![b[0]] + b.drop_first());
        }
        lemma_bytes_lt_total(a.drop_first(), b.drop_first());
    } else if a.len() == 0 && b.len() == 0 {
        assert(a =~= b);
    }
}

/// The text order is a strict total order.
pub proof fn lemma_text_lt_order()
    ensures
        forall|a: Seq<char>| !#[trigger] text_lt(a, a),
        forall|a: Seq<char>, b: Seq<char>, c: Seq<char>|
            #[trigger] text_lt(a, b) && #[trigger] text_lt(b, c) ==> text_lt(a, c),
        forall|a: Seq<char>, b: Seq<char>|
            a != b ==> #[trigger] text_lt(a, b) || #[trigger] text_lt(b, a),
{
    assert forall|a: Seq<char>| !#[trigger] text_lt(a, a) by {
        lemma_bytes_lt_irreflexive(vstd::utf8::encode_utf8(a));
    }
    assert forall|a: Seq<char>, b: Seq<char>, c: Seq<char>|
        #[trigger] text_lt(a, b) && #[trigger] text_lt(b, c) implies text_lt(a, c) by {
        lemma_bytes_lt_transitive(
            vstd::utf8::encode_utf8(a),
            vstd::utf8::encode_utf8(b),
            vstd::utf8::encode_utf8(c),
        );
    }
    assert forall|a: Seq<char>, b: Seq<char>| a != b implies #[trigger] text_lt(a, b)
        || #[trigger] text_lt(b, a) by {
        vstd::utf8::encode_utf8_decode_utf8(a);
        vstd::utf8::encode_utf8_decode_utf8(b);
        lemma_bytes_lt_total(vstd::utf8::encode_utf8(a), vstd::utf8::encode_utf8(b));
    }
}

/// Equal byte prefixes do not decide the order.
proof fn lemma_bytes_lt_skip(a: Seq<u8>, b: Seq<u8>, i: int)
    requires
        0 <= i < a.len(),
        i < b.len(),
        a[i] == b[i],
    ensures
        bytes_lt(a.skip(i), b.skip(i)) == bytes_lt(a.skip(i + 1), b.skip(i + 1)),
{
    assert(a.skip(i).drop_first() =~= a.skip(i + 1));
    assert(b.skip(i).drop_first() =~= b.skip(i + 1));
}

/// Whether `a` comes before `b` in the order of their bytes.
pub fn str_lt(a: &str, b: &str) -> (r: bool)
    ensures
        r == text_lt(a@, b@),
{
    let x = a.as_bytes();
    let y = b.as_bytes();
    assert(x@ == a.spec_bytes());
    assert(y@ == b.spec_bytes());
    let nx = x.len();
    let ny = y.len();
    let mut i: usize = 0;
    proof {
        assert(x@.skip(0) =~= x@);
        assert(y@.skip(0) =~= y@);
    }
    while i < nx && i < ny && x[i] == y[i]
        invariant
            nx == x@.len(),
            ny == y@.len(),
            i <= nx,
            i <= ny,
            bytes_lt(x@, y@) == bytes_lt(x@.skip(i as int), y@.skip(i as int)),
        decreases nx - i,
    {
        proof {
            lemma_bytes_lt_skip(x@, y@, i as int);
        }
        i = i + 1;
    }
    if i == ny {
        assert(y@.skip(i as int).len() == 0);
        false
    } else if i == nx {
        assert(x@.skip(i as int).len() == 0);
        true
    } else {
        assert(x@.skip(i as int)[0] == x@[i as int]);
        assert(y@.skip(i as int)[0] == y@[i as int]);
        x[i] < y[i]
    }
}

/// The strings sorted in the order of their bytes; equal strings keep
/// their order.
pub fn sort_texts(v: &Vec<String>) -> (r: Vec<String>)
    ensures
        views(r@).to_multiset() == views(v@).to_multiset(),
        text_sorted(views(r@)),
{
    proof {
        lemma_text_lt_order();
    }
    let mut out: Vec<String> = Vec::new();
    let n = v.len();
    let mut i: usize = 0;
    proof {
        assert(views(out@) =~= Seq::<Seq<char>>::empty());
        assert(views(v@.subrange(0, 0)) =~= Seq::<Seq<char>>::empty());
    }
    while i < n
        invariant
            n == v@.len(),
            i <= n,
            views(out@).to_multiset() == views(v@.subrange(0, i as int)).to_multiset(),
            text_sorted(views(out@)),
            forall|a: Seq<char>| !#[trigger] text_lt(a, a),
            forall|a: Seq<char>, b: Seq<char>, c: Seq<char>|
                #[trigger] text_lt(a, b) && #[trigger] text_lt(b, c) ==> text_lt(a, c),
        decreases n - i,
    {
        let x = v[i].clone();
        let m = out.len();
        let mut j: usize = 0;
        while j < m && !str_lt(x.as_str(), out[j].as_str())
            invariant
                m == out@.len(),
                j <= m,
                forall|k: int| 0 <= k < j ==> !text_lt(x@, #[trigger] out@[k]@),
            decreases m - j,
        {
            j = j + 1;
        }
        assert(j < m ==> text_lt(x@, out@[j as int]@));
        let ghost old_out = out@;
        out.insert(j, x);
        proof {
            assert(views(out@) =~= views(old_out).insert(j as int, x@));
            assert(v@.subrange(0, i + 1) =~= v@.subrange(0, i as int).push(v@[i as int]));
            assert(views(v@.subrange(0, i + 1)) =~= views(v@.subrange(0, i as int)).push(x@));
            vstd::seq_lib::to_multiset_insert(views(old_out), j as int, x@);
            vstd::seq_lib::to_multiset_build(views(v@.subrange(0, i as int)), x@);
            assert(views(old_out).insert(j as int, x@).to_multiset() == views(
                old_out,
            ).to_multiset().insert(x@));
            assert(views(v@.subrange(0, i as int)).push(x@).to_multiset() == views(
                v@.subrange(0, i as int),
            ).to_multiset().insert(x@));
            assert forall|p: int, q: int| 0 <= p < q < out@.len() implies !text_lt(
                #[trigger] views(out@)[q],
                #[trigger] views(out@)[p],
            ) by {
                let w = views(out@);
                let o = views(old_out);
                if q < j {
                    assert(w[p] == o[p] && w[q] == o[q]);
                } else if q == j {
                    assert(w[p] == o[p]);
                } else if p < j {
                    assert(w[p] == o[p] && w[q] == o[q - 1]);
                    if text_lt(o[q - 1], o[p]) {
                    } else {
                        assert(text_lt(x@, o[j as int]));
                        assert(!text_lt(o[q - 1], o[j as int]));
                        if text_lt(o[q - 1], o[p]) {
                        }
                        if text_lt(o[q - 1], x@) {
                            assert(text_lt(o[q - 1], o[j as int]));
                        }
                        assert(!text_lt(x@, o[p]));
                        if text_lt(o[q - 1], o[p]) {
                        }
                    }
                } else if p == j {
                    assert(w[q] == o[q - 1]);
                    assert(text_lt(x@, o[j as int]));
                    if text_lt(o[q - 1], x@) {
                        assert(text_lt(o[q - 1], o[j as int]));
                        if q - 1 > j {
                        }
                    }
                } else {
                    assert(w[p] == o[p - 1] && w[q] == o[q - 1]);
                }
            }
        }
        i = i + 1;
    }
    proof {
        assert(v@.subrange(0, n as int) =~= v@);
    }
    out
}

} // verus!

//! Text helpers: string comparison, key-value text maps, replacement
//! tables and tab-separated records.

pub mod text_map;
pub mod util;
pub mod order;
pub mod csv;
pub mod uid;

use vstd::prelude::*;
use vstd::string::StringSliceAdditionalSpecFns;

verus! {

/// Whether two strings hold the same characters (compared byte by byte).
pub(crate) fn str_eq(a: &str, b: &str) -> (r: bool)
    ensures
        r == (a@ == b@),
{
    let x = a.as_bytes();
    let y = b.as_bytes();
    proof {
        vstd::utf8::encode_utf8_decode_utf8(a@);
        vstd::utf8::encode_utf8_decode_utf8(b@);
    }
    assert(x@ == a.spec_bytes());
    assert(y@ == b.spec_bytes());
    if x.len() != y.len() {
        assert(a@ != b@);
        return false;
    }
    let n = x.len();
    let mut i: usize = 0;
    while i < n
        invariant
            n == x@.len(),
            n == y@.len(),
            0 <= i <= n,
            forall|k: int| 0 <= k < i ==> x@[k] == y@[k],
            x@ == a.spec_bytes(),
            y@ == b.spec_bytes(),
        decreases n - i,
    {
        if x[i] != y[i] {
            assert(x@ != y@);
            return false;
        }
        i = i + 1;
    }
    proof {
        assert(x@ =~= y@);
        assert(vstd::utf8::encode_utf8(a@) == vstd::utf8::encode_utf8(b@));
        assert(a@ == vstd::utf8::decode_utf8(vstd::utf8::encode_utf8(a@)));
        assert(b@ == vstd::utf8::decode_utf8(vstd::utf8::encode_utf8(b@)));
    }
    true
}

} // verus!

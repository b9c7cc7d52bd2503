//! Text as C character arrays: NUL-terminated bytes in a fixed buffer.

use vstd::prelude::*;

verus! {

/// Copies `src` into the start of `dst` and puts a NUL after it; there
/// must be room for the NUL. Returns `false`, changing nothing, when
/// `src` does not fit.
pub fn fill_c_bytes(src: &[u8], dst: &mut [u8]) -> (r: bool)
    requires
        old(dst)@.len() >= 1,
    ensures
        r == (src@.len() <= old(dst)@.len() - 1),
        final(dst)@.len() == old(dst)@.len(),
        r ==> final(dst)@ == src@ + seq![0u8] + old(dst)@.skip(src@.len() as int + 1),
        !r ==> final(dst)@ == old(dst)@,
{
    let n = src.len();
    if n > dst.len() - 1 {
        return false;
    }
    let mut i: usize = 0;
    while i < n
        invariant
            n == src@.len(),
            n <= old(dst)@.len() - 1,
            i <= n,
            dst@.len() == old(dst)@.len(),
            forall|k: int| 0 <= k < i ==> dst@[k] == src@[k],
            forall|k: int| i <= k < dst@.len() ==> dst@[k] == old(dst)@[k],
        decreases n - i,
    {
        dst[i] = src[i];
        i = i + 1;
    }
    dst[n] = 0;
    assert(dst@ =~= src@ + seq![0u8] + old(dst)@.skip(n + 1));
    true
}

/// The bytes of a C string: those before the first NUL, which the array
/// must hold.
pub fn c_string_bytes(s: &[u8]) -> (r: &[u8])
    requires
        s@.contains(0u8),
    ensures
        r@.len() < s@.len(),
        r@ == s@.take(r@.len() as int),
        s@[r@.len() as int] == 0,
        !r@.contains(0u8),
{
    let n = s.len();
    let mut i: usize = 0;
    while i < n && s[i] != 0
        invariant
            n == s@.len(),
            i <= n,
            forall|k: int| 0 <= k < i ==> s@[k] != 0,
            s@.contains(0u8),
        decreases n - i,
    {
        i = i + 1;
    }
    proof {
        if i == n {
            let k = choose|k: int| 0 <= k < s@.len() && s@[k] == 0u8;
            assert(s@[k] != 0);
        }
    }
    let r = &s[0..i];
    assert(r@ =~= s@.take(i as int));
    r
}

} // verus!

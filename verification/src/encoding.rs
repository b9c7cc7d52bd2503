//! Text in the GBK encoding turned into UTF-8.

use vstd::prelude::*;

verus! {

/// The UTF-8 bytes that decoding `bytes` as GBK gives (`encoding_rs`):
/// a byte order mark at the start selects its own encoding and is
/// dropped, and malformed sequences become U+FFFD.
pub uninterp spec fn gbk_decoded(bytes: Seq<u8>) -> Seq<u8>;

/// `encoding_rs::GBK.decode`, the text's bytes. It returns a `str`, so
/// the bytes are valid UTF-8; what they are is left to the name
/// `gbk_decoded`.
#[verifier::external_body]
fn gbk_decode(text: &[u8]) -> (r: Vec<u8>)
    ensures
        r@ == gbk_decoded(text@),
        vstd::utf8::valid_utf8(r@),
{
    let (cow, _, _) = encoding_rs::GBK.decode(text);
    cow.as_bytes().to_vec()
}

/// The text decoded from GBK, as UTF-8 bytes; malformed sequences become
/// U+FFFD, so there is always a result.
pub fn gbk_to_utf8(text: &[u8]) -> (r: Option<Vec<u8>>)
    ensures
        r matches Some(v) && v@ == gbk_decoded(text@),
{
    Some(gbk_decode(text))
}

} // verus!

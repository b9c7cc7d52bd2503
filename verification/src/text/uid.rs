//! Universally unique identifiers named by text.

use vstd::prelude::*;
use vstd::string::StringSliceAdditionalSpecFns;

verus! {

/// The bytes of the UUID that a text spells out (`Uuid::parse_str` of the
/// `uuid` crate), or `None` when the text is not a UUID.
pub uninterp spec fn uuid_parsed(text: Seq<char>) -> Option<Seq<u8>>;

/// The bytes of the name-based (version 5, SHA-1) UUID of `name` in the
/// namespace `namespace` (`Uuid::new_v5` of the `uuid` crate).
pub uninterp spec fn uuid_v5(namespace: Seq<u8>, name: Seq<u8>) -> Seq<u8>;

/// `Uuid::parse_str` and the parsed UUID's bytes. The contract only names
/// the result: it is `uuid_parsed` of the text.
#[verifier::external_body]
fn parse_uuid(text: &str) -> (r: Option<[u8; 16]>)
    ensures
        match r {
            Some(b) => uuid_parsed(text@) == Some(b@),
            None => uuid_parsed(text@) is None,
        },
{
    match uuid::Uuid::parse_str(text) {
        Ok(u) => Some(*u.as_bytes()),
        Err(_) => None,
    }
}

/// `Uuid::new_v5` and the new UUID's bytes. The contract only names the
/// result: it is `uuid_v5` of the namespace and the name.
#[verifier::external_body]
fn new_uuid_v5(namespace: [u8; 16], name: &[u8]) -> (r: [u8; 16])
    ensures
        r@ == uuid_v5(namespace@, name@),
{
    *uuid::Uuid::new_v5(&uuid::Uuid::from_bytes(namespace), name).as_bytes()
}

/// The namespace of ISO object identifiers,
/// `6ba7b812-9dad-11d1-80b4-00c04fd430c8`.
pub open spec fn namespace_oid() -> Seq<u8> {
    seq![
        0x6bu8, 0xa7, 0xb8, 0x12, 0x9d, 0xad, 0x11, 0xd1,
        0x80, 0xb4, 0x00, 0xc0, 0x4f, 0xd4, 0x30, 0xc8,
    ]
}

/// The parsed UUID when there is one, or else the name-based UUID of
/// `name` in the namespace of object identifiers; as its 16 bytes.
pub fn uuid_from_parsed(parsed: Option<[u8; 16]>, name: &str) -> (r: [u8; 16])
    ensures
        r@ == match parsed {
            Some(b) => b@,
            None => uuid_v5(namespace_oid(), name.spec_bytes()),
        },
{
    match parsed {
        Some(b) => b,
        None => {
            let oid: [u8; 16] = [
                0x6b, 0xa7, 0xb8, 0x12, 0x9d, 0xad, 0x11, 0xd1,
                0x80, 0xb4, 0x00, 0xc0, 0x4f, 0xd4, 0x30, 0xc8,
            ];
            assert(oid@ =~= namespace_oid());
            new_uuid_v5(oid, name.as_bytes())
        },
    }
}

/// The UUID that `name` spells out, or else the name-based UUID of `name`
/// in the namespace of object identifiers; as its 16 bytes.
pub fn uuid_or_new(name: &str) -> (r: [u8; 16])
    ensures
        r@ == match uuid_parsed(name@) {
            Some(b) => b,
            None => uuid_v5(namespace_oid(), name.spec_bytes()),
        },
{
    uuid_from_parsed(parse_uuid(name), name)
}

} // verus!

//! AES-128 encryption in CBC mode with PKCS#7 padding, for secrets kept in
//! configuration files.

use aes::Aes128;
use block_modes::block_padding::Pkcs7;
use block_modes::{BlockMode, Cbc};
use vstd::prelude::*;
use vstd::string::StringSliceAdditionalSpecFns;
use vstd::utf8::{decode_utf8, valid_utf8};

verus! {

/// The ciphertext that AES-128-CBC with PKCS#7 padding gives for a key,
/// an initialisation vector and a plaintext.
pub uninterp spec fn aes128_cbc_encrypt(key: Seq<u8>, iv: Seq<u8>, plain: Seq<u8>) -> Seq<u8>;

/// The plaintext that AES-128-CBC with PKCS#7 padding recovers from a
/// ciphertext, or `None` when the ciphertext is not whole blocks or its
/// padding is malformed.
pub uninterp spec fn aes128_cbc_decrypt(key: Seq<u8>, iv: Seq<u8>, cipher: Seq<u8>) -> Option<
    Seq<u8>,
>;

/// block-modes' `Cbc::<Aes128, Pkcs7>::new_from_slices(key, iv)` followed by
/// `encrypt_vec(plain)`. With a 16-byte key and IV the cipher is always
/// made; the result is named `aes128_cbc_encrypt`, is whole 16-byte
/// blocks (PKCS#7 always pads), and decrypting it with the same key and IV
/// gives the plaintext back, as the crate's documentation shows.
#[verifier::external_body]
fn cbc_encrypt(key: &[u8], iv: &[u8], plain: &[u8]) -> (r: Vec<u8>)
    requires
        key@.len() == 16,
        iv@.len() == 16,
    ensures
        r@ == aes128_cbc_encrypt(key@, iv@, plain@),
        r@.len() == (plain@.len() / 16 + 1) * 16,
        aes128_cbc_decrypt(key@, iv@, r@) == Some(plain@),
{
    Cbc::<Aes128, Pkcs7>::new_from_slices(key, iv).unwrap().encrypt_vec(plain)
}

/// block-modes' `Cbc::<Aes128, Pkcs7>::new_from_slices(key, iv)` followed by
/// `decrypt_vec(cipher)`, the error turned into `None`. The result is
/// named `aes128_cbc_decrypt`; it is `None` whenever the ciphertext is not
/// a whole number of 16-byte blocks (the first test in `decrypt_vec`).
#[verifier::external_body]
fn cbc_decrypt(key: &[u8], iv: &[u8], cipher: &[u8]) -> (r: Option<Vec<u8>>)
    requires
        key@.len() == 16,
        iv@.len() == 16,
    ensures
        match r {
            Some(v) => aes128_cbc_decrypt(key@, iv@, cipher@) == Some(v@),
            None => aes128_cbc_decrypt(key@, iv@, cipher@) is None,
        },
        cipher@.len() % 16 != 0 ==> r is None,
{
    Cbc::<Aes128, Pkcs7>::new_from_slices(key, iv).unwrap().decrypt_vec(cipher).ok()
}

/// `std::str::from_utf8` on owned bytes: a string exactly when the bytes
/// are valid UTF-8, holding the characters they encode.
#[verifier::external_body]
fn utf8_to_string(bytes: Vec<u8>) -> (r: Option<String>)
    ensures
        r is Some <==> valid_utf8(bytes@),
        r matches Some(s) ==> s@ == decode_utf8(bytes@),
{
    match std::str::from_utf8(&bytes) {
        Ok(s) => Some(s.to_owned()),
        Err(_) => None,
    }
}

/// The text that decrypting `cipher` gives, if it decrypts to UTF-8.
pub open spec fn decrypted_text(key: Seq<u8>, iv: Seq<u8>, cipher: Seq<u8>) -> Option<Seq<char>> {
    match aes128_cbc_decrypt(key, iv, cipher) {
        Some(b) => if valid_utf8(b) {
            Some(decode_utf8(b))
        } else {
            None
        },
        None => None,
    }
}

/// AES-128-CBC encryptor and decryptor with a fixed key and IV.
pub struct AesEncryptor {
    key: Vec<u8>,
    iv: Vec<u8>,
}

impl AesEncryptor {
    /// The key.
    pub closed spec fn key(&self) -> Seq<u8> {
        self.key@
    }

    /// The initialisation vector.
    pub closed spec fn iv(&self) -> Seq<u8> {
        self.iv@
    }

    /// Key and IV of the right size for AES-128.
    pub open spec fn valid(&self) -> bool {
        self.key().len() == 16 && self.iv().len() == 16
    }

    /// An encryptor with `key` and `iv`; both must be 16 bytes to be used.
    pub fn new(key: Vec<u8>, iv: Vec<u8>) -> (e: Self)
        ensures
            e.key() == key@,
            e.iv() == iv@,
    {
        Self { key, iv }
    }

    /// Encrypts the UTF-8 bytes of `plaintext`; decrypting the result gives
    /// `plaintext` back.
    pub fn encrypt(&self, plaintext: &str) -> (r: Vec<u8>)
        requires
            self.valid(),
        ensures
            r@ == aes128_cbc_encrypt(self.key(), self.iv(), plaintext.spec_bytes()),
            decrypted_text(self.key(), self.iv(), r@) == Some(plaintext@),
    {
        let r = cbc_encrypt(self.key.as_slice(), self.iv.as_slice(), plaintext.as_bytes());
        proof {
            vstd::utf8::encode_utf8_valid_utf8(plaintext@);
            vstd::utf8::encode_utf8_decode_utf8(plaintext@);
        }
        r
    }

    /// Decrypts `ciphertext` to text; it must decrypt to valid UTF-8.
    pub fn decrypt(&self, ciphertext: &[u8]) -> (r: String)
        requires
            self.valid(),
            decrypted_text(self.key(), self.iv(), ciphertext@) is Some,
        ensures
            Some(r@) == decrypted_text(self.key(), self.iv(), ciphertext@),
    {
        let bytes = cbc_decrypt(self.key.as_slice(), self.iv.as_slice(), ciphertext).unwrap();
        utf8_to_string(bytes).unwrap()
    }

    /// Decrypts `ciphertext` to text, or `None` where `decrypt` cannot:
    /// the ciphertext does not decrypt, or not to UTF-8.
    pub fn try_decrypt(&self, ciphertext: &[u8]) -> (r: Option<String>)
        requires
            self.valid(),
        ensures
            match r {
                Some(s) => Some(s@) == decrypted_text(self.key(), self.iv(), ciphertext@),
                None => decrypted_text(self.key(), self.iv(), ciphertext@) is None,
            },
    {
        match cbc_decrypt(self.key.as_slice(), self.iv.as_slice(), ciphertext) {
            Some(bytes) => {
                if utf8_to_string(bytes).is_some() {
                    Some(self.decrypt(ciphertext))
                } else {
                    None
                }
            },
            None => None,
        }
    }
}

} // verus!

//! Trusted wrappers around the cryptographic and encoding crates, and the
//! exact specification of hex decoding.
//!
//! The wrappers are the only places where the broker calls outside code for
//! computation; each one's contract states no more than the called crate's
//! source shows.

use vstd::prelude::*;
use crate::json::spec_hex_val;
use aes_gcm::aead::Aead;
use aes_gcm::KeyInit;
use base64::Engine;
use hmac::Mac;

verus! {

/// The HMAC-SHA-256 tag over `msg` with key `key`: a pure function of its
/// arguments, left uninterpreted.
pub uninterp spec fn hmac_sha256(key: Seq<u8>, msg: Seq<u8>) -> Seq<u8>;

/// Relies on `hmac::Hmac<sha2::Sha256>`: keyed via `new_from_slice`, which
/// accepts keys of any length for HMAC, and producing a 32-byte tag.
#[verifier::external_body]
pub fn hmac_sha256_sign(key: &[u8], msg: &[u8]) -> (r: Vec<u8>)
    ensures
        r@ == hmac_sha256(key@, msg@),
        r@.len() == 32,
{
    // HMAC accepts keys of any length, so this cannot fail.
    let mut mac = <hmac::Hmac<sha2::Sha256> as KeyInit>::new_from_slice(key).unwrap();
    mac.update(msg);
    mac.finalize().into_bytes().to_vec()
}

/// The AES-256-GCM sealing of `pt` under `key` and `nonce` (ciphertext with
/// the 16-byte tag appended): a pure function of its arguments.
pub uninterp spec fn aes256gcm_seal(key: Seq<u8>, nonce: Seq<u8>, pt: Seq<u8>) -> Seq<u8>;

/// Relies on `aes_gcm::Aes256Gcm` through `aead::Aead::encrypt`; the crate
/// only reports an error when the plaintext exceeds its length bound.
#[verifier::external_body]
pub fn aes256gcm_encrypt(key: &[u8], nonce: &[u8], pt: &[u8]) -> (r: Option<Vec<u8>>)
    requires
        key@.len() == 32,
        nonce@.len() == 12,
    ensures
        r matches Some(c) ==> c@ == aes256gcm_seal(key@, nonce@, pt@),
{
    let key = aes_gcm::Key::<aes_gcm::Aes256Gcm>::try_from(key).ok()?;
    let nonce = aes_gcm::Nonce::<aes_gcm::aead::consts::U12>::try_from(nonce).ok()?;
    let cipher = aes_gcm::Aes256Gcm::new(&key);
    match cipher.encrypt(&nonce, pt) {
        Ok(c) => Some(c),
        Err(_) => None,
    }
}

/// The standard padded base64 text of `b`: a pure function of its argument.
pub uninterp spec fn base64_of(b: Seq<u8>) -> Seq<u8>;

/// Relies on `base64::engine::general_purpose::STANDARD.encode`: four output
/// bytes for every started group of three input bytes.
#[verifier::external_body]
pub fn base64_encode(b: &[u8]) -> (r: Vec<u8>)
    ensures
        r@ == base64_of(b@),
        r@.len() == 4 * ((b@.len() + 2) / 3),
{
    base64::engine::general_purpose::STANDARD.encode(b).into_bytes()
}

/// Exact meaning of hex decoding: defined when the input has even length and
/// only hex digits, pairing digits into bytes.
pub open spec fn spec_hex_decode(s: Seq<u8>) -> Option<Seq<u8>> {
    if s.len() % 2 == 0 && (forall|i: int| 0 <= i < s.len() ==> spec_hex_val(#[trigger] s[i]) is Some) {
        Some(
            Seq::new(
                s.len() / 2,
                |i: int|
                    (spec_hex_val(s[2 * i])->Some_0 * 16 + spec_hex_val(s[2 * i + 1])->Some_0) as u8,
            ),
        )
    } else {
        None
    }
}

/// Relies on `hex::decode`: accepts upper and lower case digits, fails on odd
/// length or any non-digit, and pairs digits high-nibble first.
#[verifier::external_body]
pub fn hex_decode(s: &[u8]) -> (r: Option<Vec<u8>>)
    ensures
        r matches Some(b) ==> spec_hex_decode(s@) == Some(b@),
        r is None ==> spec_hex_decode(s@) is None,
{
    match hex::decode(s) {
        Ok(b) => Some(b),
        Err(_) => None,
    }
}

/// Relies on `core::str::from_utf8`: it accepts exactly the valid UTF-8
/// byte sequences (the same meaning `vstd` gives to `from_utf8_unchecked`).
#[verifier::external_body]
pub fn utf8_valid(b: &[u8]) -> (r: bool)
    ensures
        r == vstd::utf8::valid_utf8(b@),
{
    core::str::from_utf8(b).is_ok()
}

/// Relies on `fastrand::u64` with the range below one million: the result is
/// uniform in that range; nothing else is assumed of it.
#[verifier::external_body]
pub fn random_below_million() -> (r: u64)
    ensures
        r < 1000000,
{
    fastrand::u64(0..1000000)
}

/// Relies on `fastrand::fill`: twelve fresh random bytes for an AES-GCM nonce.
#[verifier::external_body]
pub fn random_nonce() -> (r: Vec<u8>)
    ensures
        r@.len() == 12,
{
    let mut b = vec![0u8; 12];
    fastrand::fill(&mut b);
    b
}

} // verus!

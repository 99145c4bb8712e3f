//! The bridge to the outside crates.
//!
//! Each wrapper here makes one call into an outside crate (or into a part
//! of std that vstd gives no specification for) and states what that call
//! returns. Results that no short statement can pin down — a digest, a
//! derived key, a ciphertext — are given names: uninterpreted functions of
//! the call's arguments alone.

use aes_gcm::aead::Aead;
use aes_gcm::KeyInit;
use base64::Engine;
use sha3::Digest;
use vstd::prelude::*;


verus! {

/// The SHA3-512 digest of a byte string.
pub uninterp spec fn sha3_512_of(bytes: Seq<u8>) -> Seq<u8>;

/// Relies on sha3::Sha3_512: a 64-byte digest of the input alone.
#[verifier::external_body]
pub fn sha3_512(bytes: &[u8]) -> (r: Vec<u8>)
    ensures
        r@ == sha3_512_of(bytes@),
        r@.len() == 64,
{
    sha3::Sha3_512::digest(bytes).to_vec()
}

/// The 32-byte key PBKDF2-HMAC-SHA3-256 derives over 5000 iterations.
pub uninterp spec fn derived_key_of(password: Seq<u8>, salt: Seq<u8>) -> Seq<u8>;

/// Relies on pbkdf2::pbkdf2_hmac with sha3::Sha3_256: the derived key is a
/// function of the password and the salt alone.
#[verifier::external_body]
pub fn derive_key_bytes(password: &[u8], salt: &[u8]) -> (r: Vec<u8>)
    ensures
        r@ == derived_key_of(password@, salt@),
        r@.len() == 32,
{
    let mut key = [0u8; 32];
    let _ = pbkdf2::pbkdf2::<pbkdf2::hmac::SimpleHmac<sha3::Sha3_256>>(
        password,
        salt,
        5000,
        &mut key,
    );
    key.to_vec()
}

/// The AES-256-GCM ciphertext (with its tag) of a plaintext under a key
/// and a nonce.
pub uninterp spec fn aead_seal_of(key: Seq<u8>, nonce: Seq<u8>, pt: Seq<u8>) -> Seq<u8>;

/// Relies on aes_gcm::Aes256Gcm encryption: deterministic in key, nonce
/// and plaintext; the tag adds sixteen bytes.
#[verifier::external_body]
pub fn aes256gcm_seal(key: &Vec<u8>, nonce: &Vec<u8>, pt: &Vec<u8>) -> (r: Option<Vec<u8>>)
    requires
        key@.len() == 32,
        nonce@.len() == 12,
    ensures
        r is Some ==> r->0@ == aead_seal_of(key@, nonce@, pt@) && r->0@.len() == pt@.len() + 16,
{
    let cipher = match aes_gcm::Aes256Gcm::new_from_slice(key.as_slice()) {
        Ok(c) => c,
        Err(_) => {
            return None;
        },
    };
    let nonce_arr = match aes_gcm::aead::array::Array::try_from(nonce.as_slice()) {
        Ok(a) => a,
        Err(_) => {
            return None;
        },
    };
    cipher.encrypt(&nonce_arr, pt.as_slice()).ok()
}

/// Relies on aes_gcm::Aes256Gcm decryption: it accepts exactly the sealed
/// ciphertexts under the same key and nonce, and inverts sealing.
#[verifier::external_body]
pub fn aes256gcm_open(key: &Vec<u8>, nonce: &Vec<u8>, ct: &Vec<u8>) -> (r: Option<Vec<u8>>)
    requires
        key@.len() == 32,
        nonce@.len() == 12,
    ensures
        r is Some ==> ct@ == aead_seal_of(key@, nonce@, r->0@),
        forall|pt: Seq<u8>| ct@ == aead_seal_of(key@, nonce@, pt) ==> r is Some && r->0@ == pt,
{
    let cipher = match aes_gcm::Aes256Gcm::new_from_slice(key.as_slice()) {
        Ok(c) => c,
        Err(_) => {
            return None;
        },
    };
    let nonce_arr = match aes_gcm::aead::array::Array::try_from(nonce.as_slice()) {
        Ok(a) => a,
        Err(_) => {
            return None;
        },
    };
    cipher.decrypt(&nonce_arr, ct.as_slice()).ok()
}

/// The base64 text (standard alphabet, padded) of a byte string.
pub uninterp spec fn b64_of(bytes: Seq<u8>) -> Seq<char>;

/// Relies on base64's STANDARD engine: the encoding is a function of the
/// bytes alone.
#[verifier::external_body]
pub fn base64_encode(bytes: &Vec<u8>) -> (r: String)
    ensures
        r@ == b64_of(bytes@),
{
    base64::engine::general_purpose::STANDARD.encode(bytes)
}

/// Relies on base64's STANDARD engine: it decodes exactly the canonical
/// encodings, inverting encode.
#[verifier::external_body]
pub fn base64_decode(s: &str) -> (r: Option<Vec<u8>>)
    ensures
        r is Some ==> s@ == b64_of(r->0@),
        forall|b: Seq<u8>| s@ == b64_of(b) ==> r is Some && r->0@ == b,
{
    base64::engine::general_purpose::STANDARD.decode(s).ok()
}

/// Relies on getrandom::getrandom: a buffer of the asked length, with
/// nothing stated of its contents.
#[verifier::external_body]
pub fn random_bytes(n: usize) -> (r: Option<Vec<u8>>)
    ensures
        r is Some ==> r->0@.len() == n,
{
    let mut buf = vec![0u8; n];
    match getrandom::getrandom(&mut buf) {
        Ok(()) => Some(buf),
        Err(_) => None,
    }
}

/// Relies on String's FromIterator: the characters, collected.
#[verifier::external_body]
pub fn chars_to_string(cs: &Vec<char>) -> (r: String)
    ensures
        r@ == cs@,
{
    cs.iter().collect()
}

/// Relies on String::from_utf8: accepts exactly valid UTF-8 and decodes it.
#[verifier::external_body]
pub fn string_from_utf8(bytes: Vec<u8>) -> (r: Option<String>)
    ensures
        r is Some <==> vstd::utf8::valid_utf8(bytes@),
        r is Some ==> r->0@ == vstd::utf8::decode_utf8(bytes@),
{
    String::from_utf8(bytes).ok()
}

} // verus!

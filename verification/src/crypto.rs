//! The cryptographic primitives, each known by the name of its result.

use crate::types::RepoError;
use aes_gcm::aead::{Aead, KeyInit};
use aes_gcm::{Aes256Gcm, Key as AesKey, Nonce};
use ed25519_dalek::{Signature, Verifier, VerifyingKey};
use vstd::prelude::*;

verus! {

/// The BLAKE3 digest of a sequence of bytes.
pub uninterp spec fn blake3_digest(b: Seq<u8>) -> Seq<u8>;

/// `blake3::hash`: the 32-byte digest of the input, a function of it alone.
#[verifier::external_body]
pub(crate) fn blake3_hash(b: &[u8]) -> (r: [u8; 32])
    ensures
        r@ == blake3_digest(b@),
{
    *blake3::hash(b).as_bytes()
}

/// What AES-256-GCM makes of a plaintext: the ciphertext with its tag.
pub uninterp spec fn aes_gcm_sealed(key: Seq<u8>, nonce: Seq<u8>, plain: Seq<u8>) -> Seq<u8>;

/// What AES-256-GCM makes of a ciphertext: the plaintext, if the tag is right.
pub uninterp spec fn aes_gcm_opened(key: Seq<u8>, nonce: Seq<u8>, sealed: Seq<u8>) -> Option<Seq<u8>>;

/// The longest plaintext that AES-GCM takes.
pub const PLAIN_MAX: u64 = 0x10_0000_0000;

/// `Aes256Gcm::encrypt` with no associated data: it fails on a plaintext longer
/// than 2^36 bytes and on no other. What it returns depends on the key, the nonce
/// and the plaintext alone, is 16 bytes longer than the plaintext, and opens to it
/// under the same key and nonce.
#[verifier::external_body]
pub(crate) fn aes_encrypt(key: &[u8; 32], nonce: &[u8; 12], plain: &[u8]) -> (r: Result<Vec<u8>, String>)
    ensures
        match r {
            Ok(c) => {
                &&& plain@.len() <= PLAIN_MAX
                &&& c@ == aes_gcm_sealed(key@, nonce@, plain@)
                &&& c@.len() == plain@.len() + 16
                &&& aes_gcm_opened(key@, nonce@, c@) == Some(plain@)
            },
            Err(t) => plain@.len() > PLAIN_MAX && t@ == "aead::Error"@,
        },
{
    let cipher = Aes256Gcm::new(AesKey::<Aes256Gcm>::from_slice(key));
    cipher.encrypt(Nonce::from_slice(nonce), plain).map_err(|e| e.to_string())
}

/// `Aes256Gcm::decrypt` with no associated data: the plaintext, or an error with
/// fixed words. Which of them comes depends on the key, the nonce and the
/// ciphertext alone.
#[verifier::external_body]
pub(crate) fn aes_decrypt(key: &[u8; 32], nonce: &[u8; 12], sealed: &[u8]) -> (r: Result<Vec<u8>, String>)
    ensures
        match r {
            Ok(p) => aes_gcm_opened(key@, nonce@, sealed@) == Some(p@),
            Err(t) => aes_gcm_opened(key@, nonce@, sealed@) is None && t@ == "aead::Error"@,
        },
{
    let cipher = Aes256Gcm::new(AesKey::<Aes256Gcm>::from_slice(key));
    cipher.decrypt(Nonce::from_slice(nonce), sealed).map_err(|e| e.to_string())
}

/// `getrandom::getrandom`: fresh bytes from the operating system, or its error in
/// words. Nothing is known of the bytes.
#[verifier::external_body]
pub(crate) fn random_bytes<const N: usize>() -> (r: Result<[u8; N], RepoError>)
    ensures
        r matches Err(e) ==> e is Backend,
{
    let mut buf = [0u8; N];
    getrandom::getrandom(&mut buf).map_err(|e| RepoError::Backend(e.to_string()))?;
    Ok(buf)
}

/// Whether an ed25519 signature over a message is valid under a public key.
pub uninterp spec fn ed25519_accepts(key: Seq<u8>, message: Seq<u8>, signature: Seq<u8>) -> bool;

/// `VerifyingKey::from_bytes` and `VerifyingKey::verify`: a key that is no point
/// of the curve accepts nothing; otherwise the answer depends on the key, the
/// message and the signature alone.
#[verifier::external_body]
pub(crate) fn ed25519_verify(key: &[u8; 32], message: &[u8], signature: &[u8; 64]) -> (r: bool)
    ensures
        r == ed25519_accepts(key@, message@, signature@),
{
    match VerifyingKey::from_bytes(key) {
        Ok(vk) => vk.verify(message, &Signature::from_bytes(signature)).is_ok(),
        Err(_) => false,
    }
}

} // verus!

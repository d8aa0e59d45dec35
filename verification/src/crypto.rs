//! The cipher primitives under the secure datagram layer: PBKDF2 key
//! derivation, ChaCha20-Poly1305 sealing and opening, and the random nonce
//! prefix. Each outside call sits behind one trusted wrapper; everything
//! above them is verified against these contracts.

use vstd::prelude::*;

use chacha20poly1305::aead::rand_core::RngCore;
use chacha20poly1305::aead::{Aead, OsRng};
use chacha20poly1305::{ChaCha20Poly1305, Key, KeyInit, Nonce};
use pbkdf2::pbkdf2_hmac;
use sha2::Sha256;

verus! {

/// The 32-byte key PBKDF2-HMAC-SHA256 derives from a passphrase, a salt and
/// a round count. A function of its arguments alone.
pub uninterp spec fn kdf32_of(phrase: Seq<u8>, salt: Seq<u8>, rounds: u32) -> Seq<u8>;

/// The ChaCha20-Poly1305 sealing of a plaintext under a 32-byte key and a
/// 12-byte nonce: ciphertext with the 16-byte tag appended. A function of its
/// arguments alone.
pub uninterp spec fn seal_of(key: Seq<u8>, nonce: Seq<u8>, plaintext: Seq<u8>) -> Seq<u8>;

/// Relies on pbkdf2::pbkdf2_hmac with sha2::Sha256: it fills the 32-byte
/// output deterministically from the password, the salt and the round count.
#[verifier::external_body]
pub(crate) fn pbkdf2_sha256_32(phrase: &[u8], salt: &[u8], rounds: u32) -> (r: Vec<u8>)
    ensures
        r@ == kdf32_of(phrase@, salt@, rounds),
        r@.len() == 32,
{
    let mut key = [0u8; 32];
    pbkdf2_hmac::<Sha256>(phrase, salt, rounds, &mut key);
    key.to_vec()
}

/// Relies on chacha20poly1305's Aead::encrypt for ChaCha20Poly1305: the
/// result is a deterministic function of key, nonce and plaintext, is the
/// plaintext's length plus the 16-byte tag, and the call only fails on
/// plaintexts of at least 2^32 bytes.
#[verifier::external_body]
pub(crate) fn chacha_seal(key: &[u8], nonce: &[u8], plaintext: &[u8]) -> (r: Option<Vec<u8>>)
    requires
        key@.len() == 32,
        nonce@.len() == 12,
    ensures
        r matches Some(c) ==> c@ == seal_of(key@, nonce@, plaintext@),
        r matches Some(c) ==> c@.len() == plaintext@.len() + 16,
        plaintext@.len() < 0x100000000 ==> r is Some,
{
    let cipher = ChaCha20Poly1305::new(Key::from_slice(key));
    match cipher.encrypt(Nonce::from_slice(nonce), plaintext) {
        Ok(c) => Some(c),
        Err(_) => None,
    }
}

/// Relies on chacha20poly1305's Aead::decrypt for ChaCha20Poly1305: it
/// returns a plaintext exactly when the ciphertext is authentic under the
/// key and nonce, and then returns the plaintext that was sealed.
#[verifier::external_body]
pub(crate) fn chacha_open(key: &[u8], nonce: &[u8], ciphertext: &[u8]) -> (r: Option<Vec<u8>>)
    requires
        key@.len() == 32,
        nonce@.len() == 12,
    ensures
        r matches Some(p) ==> ciphertext@ == seal_of(key@, nonce@, p@),
        r is None ==> forall|m: Seq<u8>| ciphertext@ != seal_of(key@, nonce@, m),
        r matches Some(p) ==> forall|m: Seq<u8>|
            ciphertext@ == seal_of(key@, nonce@, m) ==> p@ == m,
{
    let cipher = ChaCha20Poly1305::new(Key::from_slice(key));
    match cipher.decrypt(Nonce::from_slice(nonce), ciphertext) {
        Ok(p) => Some(p),
        Err(_) => None,
    }
}

/// Relies on OsRng::fill_bytes (rand_core, re-exported by chacha20poly1305):
/// four bytes from the operating system's RNG; nothing is promised of their
/// values. The call aborts the process if the OS RNG itself fails, an
/// environmental failure on par with running out of memory.
#[verifier::external_body]
pub(crate) fn random_prefix4() -> (r: Vec<u8>)
    ensures
        r@.len() == 4,
{
    let mut prefix = [0u8; 4];
    OsRng.fill_bytes(&mut prefix);
    prefix.to_vec()
}

/// Number of PBKDF2 rounds the transport uses.
pub const KDF_ROUNDS: u32 = 600000;

/// Derives the shared 32-byte transport key from a passphrase and a salt,
/// with the transport's fixed round count.
pub fn derive_key_from_phrase(phrase: &[u8], salt: &[u8]) -> (r: Vec<u8>)
    ensures
        r@ == kdf32_of(phrase@, salt@, KDF_ROUNDS),
        r@.len() == 32,
{
    pbkdf2_sha256_32(phrase, salt, KDF_ROUNDS)
}

} // verus!

//! The cryptographic functions that packets and records are signed with.

use chacha20poly1305::aead::AeadInPlace;
use chacha20poly1305::{ChaCha20Poly1305, KeyInit, Nonce, Tag};
use hmac::{Hmac, Mac};
use sha2::{Digest, Sha256};
use vstd::prelude::*;

verus! {

/// The SHA-256 digest of `data`.
pub uninterp spec fn sha256(data: Seq<u8>) -> [u8; 32];

/// The HMAC-SHA256 of `data` under `key`.
pub uninterp spec fn hmac_sha256(key: Seq<u8>, data: Seq<u8>) -> [u8; 32];

/// The ChaCha20-Poly1305 tag of the empty plaintext with associated data `aad`.
pub uninterp spec fn aead_tag(key: Seq<u8>, nonce: Seq<u8>, aad: Seq<u8>) -> [u8; 16];

/// `sha2::Sha256::digest`: 32 bytes that depend on the data alone.
#[verifier::external_body]
pub(crate) fn sha256_digest(data: &[u8]) -> (digest: [u8; 32])
    ensures
        digest@ == sha256(data@)@,
{
    Sha256::digest(data).into()
}

/// `hmac::Hmac<sha2::Sha256>`: keyed, fed and finalized; 32 bytes that depend on the key and the
/// data alone. A key of any length is accepted.
#[verifier::external_body]
pub(crate) fn hmac_sha256_mac(key: &[u8], data: &[u8]) -> (mac: [u8; 32])
    ensures
        mac@ == hmac_sha256(key@, data@)@,
{
    let mut mac = <Hmac<Sha256> as Mac>::new_from_slice(key).expect("a key of any length");
    mac.update(data);
    mac.finalize().into_bytes().into()
}

/// `verify_truncated_left` of `hmac::Hmac<sha2::Sha256>`: a signature is right if it is a
/// non-empty beginning of the 32 bytes of the MAC.
#[verifier::external_body]
pub(crate) fn hmac_sha256_verify(key: &[u8], data: &[u8], signature: &[u8]) -> (right: bool)
    ensures
        right == (1 <= signature@.len() <= 32 && signature@ == hmac_sha256(key@, data@)@.take(
            signature@.len() as int,
        )),
{
    let mut mac = <Hmac<Sha256> as Mac>::new_from_slice(key).expect("a key of any length");
    mac.update(data);
    mac.verify_truncated_left(signature).is_ok()
}

/// `encrypt_in_place_detached` of `chacha20poly1305::ChaCha20Poly1305` on an empty plaintext:
/// the tag depends on the key, the nonce and the associated data alone. It fails only on a
/// plaintext that is too long, so never here.
#[verifier::external_body]
pub(crate) fn aead_seal(key: &[u8; 32], nonce: &[u8; 12], aad: &[u8]) -> (tag: [u8; 16])
    ensures
        tag@ == aead_tag(key@, nonce@, aad@)@,
{
    let cipher = ChaCha20Poly1305::new(key.into());
    cipher.encrypt_in_place_detached(&Nonce::from(*nonce), aad, &mut []).expect("no plaintext").into()
}

/// `decrypt_in_place_detached` of `chacha20poly1305::ChaCha20Poly1305` on an empty ciphertext:
/// succeeds exactly when the tag is the one that encryption gives.
#[verifier::external_body]
pub(crate) fn aead_verify(key: &[u8; 32], nonce: &[u8; 12], aad: &[u8], tag: &[u8; 16]) -> (right: bool)
    ensures
        right == (tag@ == aead_tag(key@, nonce@, aad@)@),
{
    let cipher = ChaCha20Poly1305::new(key.into());
    cipher.decrypt_in_place_detached(&Nonce::from(*nonce), aad, &mut [], &Tag::from(*tag)).is_ok()
}

} // verus!

//! SHA-256 and Ed25519, from the `sha2` and `ed25519-dalek` crates.

use ed25519_dalek::Signer;
use sha2::Digest;
use vstd::prelude::*;

verus! {

/// The SHA-256 digest of `data`.
pub uninterp spec fn sha256(data: Seq<u8>) -> Seq<u8>;

/// The Ed25519 public key of the 32-byte secret key `secret`.
pub uninterp spec fn ed25519_public_key(secret: Seq<u8>) -> Seq<u8>;

/// The Ed25519 signature of `message` under the 32-byte secret key `secret`.
pub uninterp spec fn ed25519_signature(secret: Seq<u8>, message: Seq<u8>) -> Seq<u8>;

/// Whether `signature` is accepted by Ed25519 strict verification of
/// `message` under the public key `public` (false when `public` does not
/// decode to a curve point).
pub uninterp spec fn ed25519_verifies(public: Seq<u8>, message: Seq<u8>, signature: Seq<u8>) -> bool;

/// `sha2::Sha256::digest`: the digest is named [`sha256`] of the input.
#[verifier::external_body]
pub(crate) fn sha256_digest(data: &[u8]) -> (r: [u8; 32])
    ensures
        r@ == sha256(data@),
{
    sha2::Sha256::digest(data).into()
}

/// `ed25519_dalek::SigningKey::from_bytes(secret).verifying_key().to_bytes()`:
/// the public key of a secret key, named [`ed25519_public_key`].
#[verifier::external_body]
pub(crate) fn public_key_of(secret: &[u8; 32]) -> (r: [u8; 32])
    ensures
        r@ == ed25519_public_key(secret@),
{
    ed25519_dalek::SigningKey::from_bytes(secret).verifying_key().to_bytes()
}

/// `ed25519_dalek::SigningKey::sign`: the (deterministic) signature of
/// `message`, named [`ed25519_signature`]. Nothing says that the signature
/// passes [`verify_strict`] under the key's public key: when the hashed
/// nonce reduces to zero, the signature's `R` is the identity point, which
/// strict verification rejects as a small-order point.
#[verifier::external_body]
pub(crate) fn sign(secret: &[u8; 32], message: &[u8]) -> (r: [u8; 64])
    ensures
        r@ == ed25519_signature(secret@, message@),
{
    ed25519_dalek::SigningKey::from_bytes(secret).sign(message).to_bytes()
}

/// `ed25519_dalek::VerifyingKey::verify_strict` on the key decoded from
/// `public` (`false` when `VerifyingKey::from_bytes` rejects it): the
/// answer is named [`ed25519_verifies`]. Nothing is stated of when it
/// accepts.
#[verifier::external_body]
pub(crate) fn verify_strict(public: &[u8; 32], message: &[u8], signature: &[u8; 64]) -> (r: bool)
    ensures
        r == ed25519_verifies(public@, message@, signature@),
{
    match ed25519_dalek::VerifyingKey::from_bytes(public) {
        Ok(key) => key.verify_strict(message, &ed25519_dalek::Signature::from_bytes(signature)).is_ok(),
        Err(_) => false,
    }
}

} // verus!

//! Hashing and signatures, as the outside crates compute them.
use ed25519_dalek::{Signature, Signer, SigningKey, Verifier, VerifyingKey};
use vstd::prelude::*;

verus! {

/// Length of a content hash, in bytes.
pub const HASH_LEN: usize = 32;

/// A content hash.
pub type Digest = [u8; 32];

/// The BLAKE3 digest of a byte string.
pub uninterp spec fn blake3_digest(data: Seq<u8>) -> Seq<u8>;

/// The Ed25519 public key belonging to a secret seed.
pub uninterp spec fn ed25519_public(seed: Seq<u8>) -> Seq<u8>;

/// The Ed25519 signature of a message under a secret seed.
pub uninterp spec fn ed25519_signature(seed: Seq<u8>, message: Seq<u8>) -> Seq<u8>;

/// Whether 32 bytes are the encoding of an Ed25519 public key.
pub uninterp spec fn ed25519_is_key(key: Seq<u8>) -> bool;

/// Whether a signature is valid for a message under a public key.
pub uninterp spec fn ed25519_valid(key: Seq<u8>, message: Seq<u8>, signature: Seq<u8>) -> bool;

/// Calls `blake3::hash`. The digest is a function of the bytes alone, named
/// [`blake3_digest`].
#[verifier::external_body]
pub(crate) fn hash(data: &[u8]) -> (r: Digest)
    ensures
        r@ == blake3_digest(data@),
{
    *blake3::hash(data).as_bytes()
}

/// Calls `SigningKey::verifying_key` of `ed25519_dalek`. The key is a function
/// of the seed alone, named [`ed25519_public`], and is always a valid encoding.
#[verifier::external_body]
fn public_of(seed: &[u8; 32]) -> (r: [u8; 32])
    ensures
        r@ == ed25519_public(seed@),
        ed25519_is_key(r@),
{
    SigningKey::from_bytes(seed).verifying_key().to_bytes()
}

/// Calls `sign` on a `SigningKey` of `ed25519_dalek`. Signing is deterministic,
/// so the signature is named [`ed25519_signature`]; it is valid for the message
/// under the seed's own public key.
#[verifier::external_body]
fn sign_with(seed: &[u8; 32], message: &[u8]) -> (r: [u8; 64])
    ensures
        r@ == ed25519_signature(seed@, message@),
        ed25519_valid(ed25519_public(seed@), message@, r@),
{
    SigningKey::from_bytes(seed).sign(message).to_bytes()
}

/// Calls `VerifyingKey::from_bytes` of `ed25519_dalek`: whether the bytes
/// decode to a public key, named [`ed25519_is_key`].
#[verifier::external_body]
pub(crate) fn is_public_key(key: &[u8; 32]) -> (r: bool)
    ensures
        r == ed25519_is_key(key@),
{
    VerifyingKey::from_bytes(key).is_ok()
}

/// Calls `verify` on a `VerifyingKey` of `ed25519_dalek`, whether it accepts the
/// signature being named [`ed25519_valid`]. Bytes that are no key verify nothing.
#[verifier::external_body]
pub(crate) fn signature_is_valid(key: &[u8; 32], message: &[u8], signature: &[u8; 64]) -> (r: bool)
    ensures
        r == ed25519_valid(key@, message@, signature@),
        r ==> ed25519_is_key(key@),
{
    match VerifyingKey::from_bytes(key) {
        Ok(key) => key.verify(message, &Signature::from_bytes(signature)).is_ok(),
        Err(_) => false,
    }
}

/// Why a key or a signature was rejected.
#[derive(Debug, Clone, Copy, PartialEq, Eq, Structural)]
pub enum CryptoError {
    /// The bytes are not the encoding of a public key.
    InvalidPublicKey,
    /// The signature is not valid for the message under the key.
    InvalidSignature,
}

/// A signing identity.
#[derive(Clone)]
pub struct Keypair {
    seed: [u8; 32],
}

impl Keypair {
    /// The secret seed.
    pub closed spec fn secret(&self) -> Seq<u8> {
        self.seed@
    }

    /// The identity derived from `seed`.
    pub fn from_seed(seed: &[u8; 32]) -> (r: Self)
        ensures
            r.secret() == seed@,
    {
        Keypair { seed: *seed }
    }

    /// The public key.
    pub fn public(&self) -> (r: [u8; 32])
        ensures
            r@ == ed25519_public(self.secret()),
            ed25519_is_key(r@),
    {
        public_of(&self.seed)
    }

    /// Signs `message`.
    pub fn sign(&self, message: &[u8]) -> (r: [u8; 64])
        ensures
            r@ == ed25519_signature(self.secret(), message@),
            ed25519_valid(ed25519_public(self.secret()), message@, r@),
    {
        sign_with(&self.seed, message)
    }
}

} // verus!

//! Node identity: the Ed25519 key pair, the identifier derived from it, and
//! signatures over byte strings.

use crate::hexfmt;
use crate::hexfmt::hex_text;
use ed25519_dalek::Signer;
use ed25519_dalek::Verifier;
use sha2::Digest;
use vstd::prelude::*;

verus! {

/// Length of an Ed25519 secret key and of a public key, in bytes.
pub const KEY_LENGTH: usize = 32;

/// Length of an Ed25519 signature, in bytes.
pub const SIGNATURE_LENGTH: usize = 64;

/// The public key that belongs to a 32-byte secret key.
pub uninterp spec fn ed25519_public_key(secret: Seq<u8>) -> Seq<u8>;

/// The signature that a secret key makes of a message.
pub uninterp spec fn ed25519_signature(secret: Seq<u8>, message: Seq<u8>) -> Seq<u8>;

/// Whether a public key accepts a signature of a message.
pub uninterp spec fn ed25519_accepts(public: Seq<u8>, message: Seq<u8>, signature: Seq<u8>) -> bool;

/// The SHA-256 digest of a byte string.
pub uninterp spec fn sha256(data: Seq<u8>) -> Seq<u8>;

/// The identifier of the node that holds `public`: the digest of the key, in
/// hexadecimal. The key itself is not part of the identifier.
pub open spec fn node_id_text(public: Seq<u8>) -> Seq<char> {
    hex_text(sha256(public))
}

/// Fresh secret key bytes from the operating system's generator
/// (`SigningKey::generate` on `OsRng`). Nothing is claimed of the bytes;
/// the generator aborts the process if the system cannot supply them.
#[verifier::external_body]
pub(crate) fn fresh_secret_key() -> (secret: [u8; 32]) {
    ed25519_dalek::SigningKey::generate(&mut rand::rngs::OsRng).to_bytes()
}

/// `SigningKey::from_bytes`, then `SigningKey::verifying_key`: the public
/// half of the key pair, which is a function of the secret bytes alone.
/// Believed of `ed25519-dalek`.
#[verifier::external_body]
pub(crate) fn public_key_of(secret: &[u8; 32]) -> (public: [u8; 32])
    ensures
        public@ == ed25519_public_key(secret@),
{
    ed25519_dalek::SigningKey::from_bytes(secret).verifying_key().to_bytes()
}

/// `Signer::sign` on the `SigningKey` of the secret bytes: Ed25519
/// signatures are deterministic, so the signature is a function of key and
/// message; and the key pair's own public key accepts it. Believed of
/// `ed25519-dalek`.
#[verifier::external_body]
pub(crate) fn sign_bytes(secret: &[u8; 32], message: &[u8]) -> (signature: [u8; 64])
    ensures
        signature@ == ed25519_signature(secret@, message@),
        ed25519_accepts(ed25519_public_key(secret@), message@, signature@),
{
    ed25519_dalek::SigningKey::from_bytes(secret).sign(message).to_bytes()
}

/// `VerifyingKey::from_bytes`, then `Verifier::verify`: the outcome is a
/// function of key, message and signature. Bytes that are no point of the
/// curve are no key and accept nothing. Believed of `ed25519-dalek`.
#[verifier::external_body]
pub(crate) fn verify_bytes(public: &[u8; 32], message: &[u8], signature: &[u8; 64]) -> (ok:
    bool)
    ensures
        ok == ed25519_accepts(public@, message@, signature@),
{
    match ed25519_dalek::VerifyingKey::from_bytes(public) {
        Ok(key) => key.verify(message, &ed25519_dalek::Signature::from_bytes(signature)).is_ok(),
        Err(_) => false,
    }
}

/// `Sha256::digest`. Believed of `sha2`.
#[verifier::external_body]
pub(crate) fn sha256_of(data: &[u8]) -> (digest: [u8; 32])
    ensures
        digest@ == sha256(data@),
{
    sha2::Sha256::digest(data).into()
}

/// The identifier of the node that holds the public key `public`.
pub fn node_id_of(public: &[u8; 32]) -> (id: String)
    ensures
        id@ == node_id_text(public@),
{
    let digest = sha256_of(public.as_slice());
    hexfmt::encode(digest.as_slice())
}

} // verus!

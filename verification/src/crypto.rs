//! Ed25519 signatures.
use vstd::prelude::*;
use ed25519_dalek::Signer;
use crate::ids::PublicKey;
use crate::ids::Signature;

verus! {

/// Whether 32 bytes decode as an Ed25519 public key.
pub uninterp spec fn ed25519_key_decodes(key: Seq<u8>) -> bool;

/// Whether a signature verifies strictly under a public key.
pub uninterp spec fn ed25519_verifies(key: Seq<u8>, message: Seq<u8>, signature: Seq<u8>) -> bool;

/// The deterministic Ed25519 signature of a message under a secret seed.
pub uninterp spec fn ed25519_signature(secret: Seq<u8>, message: Seq<u8>) -> Seq<u8>;

/// The public key of a secret seed.
pub uninterp spec fn ed25519_public(secret: Seq<u8>) -> Seq<u8>;

/// `ed25519_dalek::VerifyingKey::from_bytes`: whether the bytes decompress
/// to a curve point. Trusted: the answer depends on the bytes alone, and is
/// named `ed25519_key_decodes`.
#[verifier::external_body]
pub(crate) fn key_decodes(key: &PublicKey) -> (ok: bool)
    ensures
        ok == ed25519_key_decodes(key@),
{
    ed25519_dalek::VerifyingKey::from_bytes(key).is_ok()
}

/// `ed25519_dalek::VerifyingKey::verify_strict`, on a key that decodes;
/// false on one that does not. Trusted: the answer depends on key, message
/// and signature alone and is named `ed25519_verifies`; a key that does not
/// decode verifies nothing.
#[verifier::external_body]
pub(crate) fn verify_strict(key: &PublicKey, message: &[u8], signature: &Signature) -> (ok: bool)
    ensures
        ok == ed25519_verifies(key@, message@, signature@),
        ok ==> ed25519_key_decodes(key@),
{
    match ed25519_dalek::VerifyingKey::from_bytes(key) {
        Ok(k) => k.verify_strict(message, &ed25519_dalek::Signature::from_bytes(signature)).is_ok(),
        Err(_) => false,
    }
}

/// `ed25519_dalek::SigningKey::sign`. Trusted: Ed25519 signing is
/// deterministic, so the bytes depend on seed and message alone; they are
/// named `ed25519_signature`. That the signature verifies is left unsaid:
/// strict verification refuses the signature whose nonce reduces to zero.
#[verifier::external_body]
pub(crate) fn sign_message(secret: &[u8; 32], message: &[u8]) -> (signature: Signature)
    ensures
        signature@ == ed25519_signature(secret@, message@),
{
    ed25519_dalek::SigningKey::from_bytes(secret).sign(message).to_bytes()
}

/// `ed25519_dalek::SigningKey::verifying_key`. Trusted: the key depends on
/// the seed alone, is named `ed25519_public`, and decodes.
#[verifier::external_body]
pub(crate) fn public_of(secret: &[u8; 32]) -> (key: PublicKey)
    ensures
        key@ == ed25519_public(secret@),
        ed25519_key_decodes(key@),
{
    ed25519_dalek::SigningKey::from_bytes(secret).verifying_key().to_bytes()
}

/// A signing key: a 32-byte secret seed.
pub struct SigningKey {
    secret: [u8; 32],
}

impl SigningKey {
    /// The secret seed.
    pub closed spec fn seed(&self) -> Seq<u8> {
        self.secret@
    }

    /// The key of a secret seed.
    pub fn from_bytes(secret: [u8; 32]) -> (key: SigningKey)
        ensures
            key.seed() == secret@,
    {
        SigningKey { secret }
    }

    /// The public key.
    pub fn public_key(&self) -> (key: PublicKey)
        ensures
            key@ == ed25519_public(self.seed()),
            ed25519_key_decodes(key@),
    {
        public_of(&self.secret)
    }

    /// Signs a message.
    pub fn sign(&self, message: &[u8]) -> (signature: Signature)
        ensures
            signature@ == ed25519_signature(self.seed(), message@),
    {
        sign_message(&self.secret, message)
    }
}

} // verus!

//! Signed producer payload of a block.
//!
//! The consensus field of a produced block is a tag, the producer's public
//! key and a signature. The signature covers the tag and the hash of the
//! header with its consensus field emptied.
use vstd::prelude::*;
use vstd::slice::slice_subrange;
use crate::block_hash::encoded_header_hash;
use crate::block_hash::header_digest;
use crate::bytes::digest_at;
use crate::bytes::same_bytes;
use crate::bytes::signature_at;
use crate::crypto::SigningKey;
use crate::crypto::ed25519_key_decodes;
use crate::crypto::ed25519_signature;
use crate::crypto::ed25519_verifies;
use crate::crypto::key_decodes;
use crate::crypto::verify_strict;
use crate::digest::append_bytes;
use crate::ids::Digest;
use crate::ids::PublicKey;
use crate::ids::Signature;
use crate::ids::lemma_same_bytes;
use crate::types::BlockHeader;

verus! {

/// Domain-separation tag of the payload: `SCONE-BLOCK-V2`.
pub const BLOCK_SIGN_TAG: [u8; 14] = [83, 67, 79, 78, 69, 45, 66, 76, 79, 67, 75, 45, 86, 50];

/// Length of the payload: tag, key and signature.
pub const PRODUCER_PAYLOAD_LEN: usize = 110;

/// A decoded producer payload.
#[derive(Clone, Copy, Debug, PartialEq, Eq)]
pub struct ProducerPayload {
    /// The producer's public key.
    pub producer: PublicKey,
    /// Signature over the tag and the signing hash.
    pub signature: Signature,
}

/// Bytes of a payload.
pub open spec fn payload_bytes(producer: PublicKey, signature: Signature) -> Seq<u8> {
    BLOCK_SIGN_TAG@ + producer@ + signature@
}

/// Whether bytes are a payload.
pub open spec fn is_payload(bytes: Seq<u8>) -> bool {
    &&& bytes.len() == PRODUCER_PAYLOAD_LEN
    &&& bytes.subrange(0, 14) == BLOCK_SIGN_TAG@
    &&& ed25519_key_decodes(bytes.subrange(14, 46))
}

/// Message that a producer signs for a signing hash.
pub open spec fn producer_message(signing_hash: Digest) -> Seq<u8> {
    BLOCK_SIGN_TAG@ + signing_hash@
}

/// Builds the payload bytes.
pub fn encode_producer_payload(producer: &PublicKey, signature: &Signature) -> (out: Vec<u8>)
    ensures
        out@ == payload_bytes(*producer, *signature),
        out@.len() == PRODUCER_PAYLOAD_LEN,
{
    let tag: [u8; 14] = BLOCK_SIGN_TAG;
    let mut out: Vec<u8> = Vec::new();
    append_bytes(&mut out, tag.as_slice());
    append_bytes(&mut out, producer.as_slice());
    append_bytes(&mut out, signature.as_slice());
    assert(out@ =~= payload_bytes(*producer, *signature));
    out
}

/// Decodes a payload strictly: exact length, the tag, a key that decodes.
pub fn decode_producer_payload(bytes: &[u8]) -> (payload: Option<ProducerPayload>)
    ensures
        payload is Some == is_payload(bytes@),
        payload matches Some(p) ==> bytes@ == payload_bytes(p.producer, p.signature),
{
    if bytes.len() != PRODUCER_PAYLOAD_LEN {
        return None;
    }
    let tag: [u8; 14] = BLOCK_SIGN_TAG;
    let head = slice_subrange(bytes, 0, 14);
    if !same_bytes(head, tag.as_slice()) {
        return None;
    }
    let producer = digest_at(bytes, 14);
    let signature = signature_at(bytes, 46);
    if !key_decodes(&producer) {
        return None;
    }
    assert(bytes@ =~= payload_bytes(producer, signature)) by {
        assert(bytes@ =~= bytes@.subrange(0, 14) + bytes@.subrange(14, 46) + bytes@.subrange(46, 110));
    }
    Some(ProducerPayload { producer, signature })
}

/// The hash that a producer signs: that of the header with its consensus
/// field emptied. None if that header has no encoding.
pub fn producer_signing_hash(header: &BlockHeader) -> (h: Option<Digest>)
    ensures
        match header_digest(header@.signing_encoding) {
            Ok(d) => h == Some(d),
            Err(_) => h is None,
        },
{
    match encoded_header_hash(&header.signing_encoding) {
        Ok(h) => Some(h),
        Err(_) => None,
    }
}

/// Message that a producer signs for a signing hash.
fn signing_message(signing_hash: &Digest) -> (msg: Vec<u8>)
    ensures
        msg@ == producer_message(*signing_hash),
{
    let tag: [u8; 14] = BLOCK_SIGN_TAG;
    let mut msg: Vec<u8> = Vec::new();
    append_bytes(&mut msg, tag.as_slice());
    append_bytes(&mut msg, signing_hash.as_slice());
    assert(msg@ =~= producer_message(*signing_hash));
    msg
}

/// Signs a signing hash as the producer.
pub fn sign_block_hash(sk: &SigningKey, signing_hash: &Digest) -> (signature: Signature)
    ensures
        signature@ == ed25519_signature(sk.seed(), producer_message(*signing_hash)),
{
    let msg = signing_message(signing_hash);
    sk.sign(msg.as_slice())
}

/// Verifies a payload against a recomputed signing hash.
pub fn verify_block_producer(payload: &ProducerPayload, signing_hash: &Digest) -> (ok: bool)
    ensures
        ok == ed25519_verifies(
            payload.producer@,
            producer_message(*signing_hash),
            payload.signature@,
        ),
{
    let msg = signing_message(signing_hash);
    verify_strict(&payload.producer, msg.as_slice(), &payload.signature)
}

/// Decoding what was encoded gives the key and the signature back, for
/// every key that decodes.
pub proof fn law_payload_roundtrip(producer: PublicKey, signature: Signature, decoded: ProducerPayload)
    requires
        ed25519_key_decodes(producer@),
        payload_bytes(producer, signature) == payload_bytes(decoded.producer, decoded.signature),
    ensures
        is_payload(payload_bytes(producer, signature)),
        decoded.producer == producer,
        decoded.signature == signature,
{
    let b = payload_bytes(producer, signature);
    assert(b.subrange(0, 14) =~= BLOCK_SIGN_TAG@);
    assert(b.subrange(14, 46) =~= producer@);
    assert(b.subrange(46, 110) =~= signature@);
    assert(b.subrange(14, 46) =~= decoded.producer@);
    assert(b.subrange(46, 110) =~= decoded.signature@);
    lemma_same_bytes(decoded.producer, producer);
    assert forall|i: int| 0 <= i < 64 implies decoded.signature[i] == signature[i] by {
        assert(decoded.signature@[i] == signature@[i]);
    }
    assert(decoded.signature =~= signature);
}

} // verus!

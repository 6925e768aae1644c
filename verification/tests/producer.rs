use scone::crypto::SigningKey;
use scone::digest::hash256;
use scone::error::ProducerFault;
use scone::genesis::genesis_of;
use scone::merkle::merkle_root;
use scone::producer::BLOCK_SIGN_TAG;
use scone::producer::PRODUCER_PAYLOAD_LEN;
use scone::producer::ProducerPayload;
use scone::producer::decode_producer_payload;
use scone::producer::encode_producer_payload;
use scone::producer::producer_signing_hash;
use scone::producer::sign_block_hash;
use scone::producer::verify_block_producer;
use scone::types::BlockHeader;
use scone::types::ConsensusParams;
use scone::types::CoreError;
use scone::types::Encoded;
use scone::types::NetworkId;
use scone::types::NetworkParams;
use scone::types::ProtocolError;
use scone::types::ProtocolParams;
use scone::types::Transaction;
use scone::types::TxBody;
use scone::types::TxChecks;

const PROTOCOL_VERSION: u32 = 1;

fn key(seed: u8) -> SigningKey {
    SigningKey::from_bytes([seed; 32])
}

fn digest(parts: &[&[u8]]) -> [u8; 32] {
    hash256(&parts.concat())
}

/// Identity of a public key.
fn owner_of(pk: &[u8; 32]) -> [u8; 32] {
    digest(&[b"own:", pk])
}

/// What the core layer finds wrong with a body.
fn violation(body: &TxBody) -> Option<CoreError> {
    match body {
        TxBody::UpdateDomain { sequence: 0, .. } => Some(CoreError { code: 1 }),
        _ => None,
    }
}

/// A transaction with its encodings, signed by `signer`.
fn encoded_tx(network: NetworkId, owner: [u8; 32], pk: [u8; 32], body: TxBody, extra: &str, signer: &SigningKey) -> Transaction {
    let payload = format!("{network:?}{owner:?}{pk:?}{body:?}{extra}").into_bytes();
    let signature = signer.sign(&payload);
    seal_tx(network, owner, pk, body, extra, signature)
}

/// A transaction with its encodings and a given signature.
fn seal_tx(network: NetworkId, owner: [u8; 32], pk: [u8; 32], body: TxBody, extra: &str, signature: [u8; 64]) -> Transaction {
    let payload = format!("{network:?}{owner:?}{pk:?}{body:?}{extra}").into_bytes();
    let mut whole = payload.clone();
    whole.extend_from_slice(&signature);
    let bad = violation(&body);
    let (encoding, signing_payload) = match bad {
        Some(_) => (Encoded::Failed(ProtocolError { code: 1 }), Encoded::Failed(ProtocolError { code: 1 })),
        None => (Encoded::Bytes(whole), Encoded::Bytes(payload)),
    };
    Transaction {
        network,
        owner,
        public_key: pk,
        signature,
        body,
        checks: TxChecks {
            encoding,
            signing_payload,
            violation: bad,
            key_owner: owner_of(&pk),
            pow_fault: None,
            reserved_tld: false,
        },
    }
}

fn signed(body: TxBody, seed: u8) -> Transaction {
    let sk = key(seed);
    let pk = sk.public_key();
    encoded_tx(NetworkId::Testnet, owner_of(&pk), pk, body, "", &sk)
}

/// Canonical bytes of header fields.
fn header_bytes(version: u32, height: u64, prev: &[u8; 32], root: &[u8; 32], ts: u64, consensus: &[u8]) -> Encoded {
    if version != PROTOCOL_VERSION || consensus.len() > 256 {
        return Encoded::Failed(ProtocolError { code: 2 });
    }
    Encoded::Bytes(
        [&version.to_le_bytes()[..], &height.to_le_bytes(), prev, root, &ts.to_le_bytes(), consensus].concat(),
    )
}

/// Recomputes the encodings of a header from its fields.
fn encode_header(h: &mut BlockHeader) {
    h.encoding = header_bytes(h.version, h.height, &h.prev_hash, &h.tx_root, h.timestamp, &h.consensus);
    h.signing_encoding = header_bytes(h.version, h.height, &h.prev_hash, &h.tx_root, h.timestamp, &[]);
}

fn bytes_of(e: Encoded) -> Vec<u8> {
    match e {
        Encoded::Bytes(b) => b,
        Encoded::Failed(_) => panic!("not encodable"),
    }
}

fn network(network_id: NetworkId) -> NetworkParams {
    let name = network_id.as_bytes();
    let root = merkle_root(&[]);
    NetworkParams {
        network_id,
        tld_pow_difficulty: 8,
        domain_pow_difficulty: 4,
        consensus: ConsensusParams { committee_size: 4, recovery_max_epochs: 3, epoch_secs: 3600, epoch_min_blocks: 4 },
        protocol: ProtocolParams {
            version: PROTOCOL_VERSION,
            max_txs_per_block: 64,
            max_consensus_len: 256,
            min_finality_committee: 4,
        },
        genesis_encoding: bytes_of(header_bytes(PROTOCOL_VERSION, 0, &[0; 32], &root, 0, &name)),
        genesis_signing_encoding: bytes_of(header_bytes(PROTOCOL_VERSION, 0, &[0; 32], &root, 0, &[])),
    }
}

fn testnet() -> NetworkParams {
    network(NetworkId::Testnet)
}

#[test]
fn payload_roundtrip() {
    let sk = key(7);
    let sig = sign_block_hash(&sk, &[9; 32]);
    let bytes = encode_producer_payload(&sk.public_key(), &sig);
    assert_eq!(bytes.len(), PRODUCER_PAYLOAD_LEN);
    let decoded = decode_producer_payload(&bytes).unwrap();
    assert_eq!(decoded.producer, sk.public_key());
    assert_eq!(decoded.signature, sig);
}

#[test]
fn decode_rejects_malformed() {
    assert!(decode_producer_payload(&[]).is_none());
    assert!(decode_producer_payload(&[0; PRODUCER_PAYLOAD_LEN - 1]).is_none());
    assert!(decode_producer_payload(&[0; PRODUCER_PAYLOAD_LEN + 1]).is_none());
    // Wrong tag.
    let sk = key(1);
    let sig = sign_block_hash(&sk, &[0; 32]);
    let mut bad = encode_producer_payload(&sk.public_key(), &sig);
    bad[0] ^= 0x01;
    assert!(decode_producer_payload(&bad).is_none());
    // A changed key either does not decode or does not verify.
    let mut bad_key = encode_producer_payload(&sk.public_key(), &sig);
    bad_key[BLOCK_SIGN_TAG.len()] = 0x02;
    if let Some(p) = decode_producer_payload(&bad_key) {
        assert!(!verify_block_producer(&p, &[1; 32]) || p.producer == sk.public_key());
    }
}

#[test]
fn signature_binds_the_hash() {
    let sk = key(3);
    let sig = sign_block_hash(&sk, &[1; 32]);
    let payload = ProducerPayload { producer: sk.public_key(), signature: sig };
    assert!(verify_block_producer(&payload, &[1; 32]));
    assert!(!verify_block_producer(&payload, &[2; 32]));
    // Signed by another key: embedded key mismatch.
    let other = key(4);
    let forged = ProducerPayload { producer: sk.public_key(), signature: sign_block_hash(&other, &[1; 32]) };
    assert!(!verify_block_producer(&forged, &[1; 32]));
}

#[test]
fn signing_hash_ignores_only_the_consensus_field() {
    // Two headers differing only by consensus share a signing hash; any
    // other difference changes it.
    let mut other = genesis_of(&testnet()).header;
    other.height = 1;
    other.timestamp = 42;
    other.consensus = Vec::new();
    encode_header(&mut other);
    let h1 = producer_signing_hash(&other).unwrap();
    other.consensus = vec![1, 2, 3];
    encode_header(&mut other);
    assert_eq!(producer_signing_hash(&other).unwrap(), h1);
    other.timestamp += 1;
    encode_header(&mut other);
    assert_ne!(producer_signing_hash(&other).unwrap(), h1);
    other.timestamp -= 1;
    other.height += 1;
    encode_header(&mut other);
    assert_ne!(producer_signing_hash(&other).unwrap(), h1);
}

/// A key that is no curve point is refused at decoding.
#[test]
fn a_key_off_the_curve_does_not_decode() {
    let sk = key(1);
    let sig = sign_block_hash(&sk, &[0; 32]);
    let mut off_curve = [0u8; 32];
    off_curve[0] = 2; // y = 2 has no x
    assert!(decode_producer_payload(&encode_producer_payload(&off_curve, &sig)).is_none());
}

/// The first Ed25519 vector of RFC 8032.
#[test]
fn known_public_key_and_signature() {
    let secret: [u8; 32] = [
        0x9d, 0x61, 0xb1, 0x9d, 0xef, 0xfd, 0x5a, 0x60, 0xba, 0x84, 0x4a, 0xf4, 0x92, 0xec, 0x2c, 0xc4, 0x44, 0x49,
        0xc5, 0x69, 0x7b, 0x32, 0x69, 0x19, 0x70, 0x3b, 0xac, 0x03, 0x1c, 0xae, 0x7f, 0x60,
    ];
    let sk = SigningKey::from_bytes(secret);
    let pk = sk.public_key();
    assert_eq!(pk[..4], [0xd7, 0x5a, 0x98, 0x01]);
    assert_eq!(sk.sign(&[])[..4], [0xe5, 0x56, 0x43, 0x00]);
}

#[test]
fn producer_faults_have_texts() {
    assert_eq!(ProducerFault::NotAPayload.message(), "consensus payload is not a signed producer payload");
    assert_eq!(ProducerFault::NotEncodable.message(), "header is not encodable");
    assert_eq!(ProducerFault::BadSignature.message(), "producer signature does not verify over the block hash");
    assert_eq!(
        ProducerFault::NotAllowed.message(),
        "producer is not in the allowed set (not an anchor, not an owner of a live domain)"
    );
}

use scone::crypto::SigningKey;
use scone::digest::hash256;
use scone::error::BlockchainError;
use scone::merkle::merkle_root;
use scone::types::ConsensusParams;
use scone::types::CoreError;
use scone::types::Encoded;
use scone::types::NetworkId;
use scone::types::NetworkParams;
use scone::types::ProtocolError;
use scone::types::ProtocolParams;
use scone::types::Transaction;
use scone::types::TxBody;
use scone::types::TxChecks;
use scone::validate::validate_transaction;

const PROTOCOL_VERSION: u32 = 1;

fn key(seed: u8) -> SigningKey {
    SigningKey::from_bytes([seed; 32])
}

fn digest(parts: &[&[u8]]) -> [u8; 32] {
    hash256(&parts.concat())
}

fn domain_id(name: &str) -> [u8; 32] {
    digest(&[b"dom:", name.as_bytes()])
}

fn tld_id(tld: &str) -> [u8; 32] {
    digest(&[b"tld:", tld.as_bytes()])
}

/// Identity of a public key.
fn owner_of(pk: &[u8; 32]) -> [u8; 32] {
    digest(&[b"own:", pk])
}

/// What the core layer finds wrong with a body.
fn violation(body: &TxBody) -> Option<CoreError> {
    match body {
        TxBody::UpdateDomain { sequence: 0, .. } => Some(CoreError { code: 1 }),
        _ => None,
    }
}

/// A transaction with its encodings, signed by `signer`.
fn encoded_tx(network: NetworkId, owner: [u8; 32], pk: [u8; 32], body: TxBody, extra: &str, signer: &SigningKey) -> Transaction {
    let payload = format!("{network:?}{owner:?}{pk:?}{body:?}{extra}").into_bytes();
    let signature = signer.sign(&payload);
    seal_tx(network, owner, pk, body, extra, signature)
}

/// A transaction with its encodings and a given signature.
fn seal_tx(network: NetworkId, owner: [u8; 32], pk: [u8; 32], body: TxBody, extra: &str, signature: [u8; 64]) -> Transaction {
    let payload = format!("{network:?}{owner:?}{pk:?}{body:?}{extra}").into_bytes();
    let mut whole = payload.clone();
    whole.extend_from_slice(&signature);
    let bad = violation(&body);
    let (encoding, signing_payload) = match bad {
        Some(_) => (Encoded::Failed(ProtocolError { code: 1 }), Encoded::Failed(ProtocolError { code: 1 })),
        None => (Encoded::Bytes(whole), Encoded::Bytes(payload)),
    };
    Transaction {
        network,
        owner,
        public_key: pk,
        signature,
        body,
        checks: TxChecks {
            encoding,
            signing_payload,
            violation: bad,
            key_owner: owner_of(&pk),
            pow_fault: None,
            reserved_tld: false,
        },
    }
}

fn signed(body: TxBody, seed: u8) -> Transaction {
    let sk = key(seed);
    let pk = sk.public_key();
    encoded_tx(NetworkId::Testnet, owner_of(&pk), pk, body, "", &sk)
}

fn parent_of(name: &str) -> [u8; 32] {
    tld_id(name.rsplit('.').next().unwrap())
}

fn register_domain_tx(name: &str, seed: u8) -> Transaction {
    signed(TxBody::RegisterDomain { name: name.to_string(), domain_id: domain_id(name), parent: parent_of(name) }, seed)
}

fn update_domain_tx(name: &str, seed: u8, sequence: u64) -> Transaction {
    signed(TxBody::UpdateDomain { domain_id: domain_id(name), sequence, record_hash: [sequence as u8; 32] }, seed)
}

/// Canonical bytes of header fields.
fn header_bytes(version: u32, height: u64, prev: &[u8; 32], root: &[u8; 32], ts: u64, consensus: &[u8]) -> Encoded {
    if version != PROTOCOL_VERSION || consensus.len() > 256 {
        return Encoded::Failed(ProtocolError { code: 2 });
    }
    Encoded::Bytes(
        [&version.to_le_bytes()[..], &height.to_le_bytes(), prev, root, &ts.to_le_bytes(), consensus].concat(),
    )
}

fn bytes_of(e: Encoded) -> Vec<u8> {
    match e {
        Encoded::Bytes(b) => b,
        Encoded::Failed(_) => panic!("not encodable"),
    }
}

fn network(network_id: NetworkId) -> NetworkParams {
    let name = network_id.as_bytes();
    let root = merkle_root(&[]);
    NetworkParams {
        network_id,
        tld_pow_difficulty: 8,
        domain_pow_difficulty: 4,
        consensus: ConsensusParams { committee_size: 4, recovery_max_epochs: 3, epoch_secs: 3600, epoch_min_blocks: 4 },
        protocol: ProtocolParams {
            version: PROTOCOL_VERSION,
            max_txs_per_block: 64,
            max_consensus_len: 256,
            min_finality_committee: 4,
        },
        genesis_encoding: bytes_of(header_bytes(PROTOCOL_VERSION, 0, &[0; 32], &root, 0, &name)),
        genesis_signing_encoding: bytes_of(header_bytes(PROTOCOL_VERSION, 0, &[0; 32], &root, 0, &[])),
    }
}

fn signed_register(seed: u8) -> Transaction {
    register_domain_tx("example.uip", seed)
}

fn signed_update(seed: u8, sequence: u64) -> Transaction {
    update_domain_tx("example.uip", seed, sequence)
}

#[test]
fn valid_transactions_pass() {
    assert!(validate_transaction(&signed_register(1)).is_ok());
    assert!(validate_transaction(&signed_update(1, 1)).is_ok());
}

#[test]
fn tampered_signature_is_rejected() {
    let mut tx = signed_register(1);
    tx.signature[0] ^= 0x01;
    assert_eq!(validate_transaction(&tx), Err(BlockchainError::InvalidSignature));
}

#[test]
fn signature_from_another_key_is_rejected() {
    let tx = signed_register(1);
    // Sign with another key, keep the original public key and owner.
    let forged = encoded_tx(tx.network, tx.owner, tx.public_key, tx.body, "", &key(2));
    assert_eq!(validate_transaction(&forged), Err(BlockchainError::InvalidSignature));
}

#[test]
fn tampered_payload_is_rejected() {
    // A field protected by the signature is modified after signing: the
    // recomputed payload no longer matches.
    let tx = signed_update(1, 1);
    let body = TxBody::UpdateDomain { domain_id: domain_id("example.uip"), sequence: 1, record_hash: [0xee; 32] };
    let forged = seal_tx(tx.network, tx.owner, tx.public_key, body, "", tx.signature);
    assert_eq!(validate_transaction(&forged), Err(BlockchainError::InvalidSignature));
}

#[test]
fn owner_not_derived_from_key_is_rejected() {
    // The owner stays the one of key 1 while key 2 signs consistently.
    let tx = signed_register(1);
    let forged = encoded_tx(tx.network, tx.owner, key(2).public_key(), tx.body, "", &key(2));
    assert_eq!(validate_transaction(&forged), Err(BlockchainError::OwnerKeyMismatch));
}

#[test]
fn core_violation_and_encoding_failure_are_reported_in_order() {
    let tx = signed_update(1, 0);
    assert_eq!(validate_transaction(&tx), Err(BlockchainError::Core(CoreError { code: 1 })));
    let mut unencodable = signed_update(1, 1);
    unencodable.checks.signing_payload = Encoded::Failed(ProtocolError { code: 7 });
    assert_eq!(validate_transaction(&unencodable), Err(BlockchainError::Protocol(ProtocolError { code: 7 })));
}

use scone::crypto::SigningKey;
use scone::digest::hash256;
use scone::error::BlockchainError;
use scone::merkle::merkle_root;
use scone::txid::TX_ID_VERSION;
use scone::txid::TxId;
use scone::txid::transaction_id;
use scone::types::ConsensusParams;
use scone::types::CoreError;
use scone::types::Encoded;
use scone::types::NetworkId;
use scone::types::NetworkParams;
use scone::types::ProtocolError;
use scone::types::ProtocolParams;
use scone::types::Transaction;
use scone::types::TxBody;
use scone::types::TxChecks;

const PROTOCOL_VERSION: u32 = 1;

fn key(seed: u8) -> SigningKey {
    SigningKey::from_bytes([seed; 32])
}

fn digest(parts: &[&[u8]]) -> [u8; 32] {
    hash256(&parts.concat())
}

fn domain_id(name: &str) -> [u8; 32] {
    digest(&[b"dom:", name.as_bytes()])
}

fn tld_id(tld: &str) -> [u8; 32] {
    digest(&[b"tld:", tld.as_bytes()])
}

/// Identity of a public key.
fn owner_of(pk: &[u8; 32]) -> [u8; 32] {
    digest(&[b"own:", pk])
}

/// What the core layer finds wrong with a body.
fn violation(body: &TxBody) -> Option<CoreError> {
    match body {
        TxBody::UpdateDomain { sequence: 0, .. } => Some(CoreError { code: 1 }),
        _ => None,
    }
}

/// A transaction with its encodings, signed by `signer`.
fn encoded_tx(network: NetworkId, owner: [u8; 32], pk: [u8; 32], body: TxBody, extra: &str, signer: &SigningKey) -> Transaction {
    let payload = format!("{network:?}{owner:?}{pk:?}{body:?}{extra}").into_bytes();
    let signature = signer.sign(&payload);
    seal_tx(network, owner, pk, body, extra, signature)
}

/// A transaction with its encodings and a given signature.
fn seal_tx(network: NetworkId, owner: [u8; 32], pk: [u8; 32], body: TxBody, extra: &str, signature: [u8; 64]) -> Transaction {
    let payload = format!("{network:?}{owner:?}{pk:?}{body:?}{extra}").into_bytes();
    let mut whole = payload.clone();
    whole.extend_from_slice(&signature);
    let bad = violation(&body);
    let (encoding, signing_payload) = match bad {
        Some(_) => (Encoded::Failed(ProtocolError { code: 1 }), Encoded::Failed(ProtocolError { code: 1 })),
        None => (Encoded::Bytes(whole), Encoded::Bytes(payload)),
    };
    Transaction {
        network,
        owner,
        public_key: pk,
        signature,
        body,
        checks: TxChecks {
            encoding,
            signing_payload,
            violation: bad,
            key_owner: owner_of(&pk),
            pow_fault: None,
            reserved_tld: false,
        },
    }
}

fn signed(body: TxBody, seed: u8) -> Transaction {
    let sk = key(seed);
    let pk = sk.public_key();
    encoded_tx(NetworkId::Testnet, owner_of(&pk), pk, body, "", &sk)
}

fn parent_of(name: &str) -> [u8; 32] {
    tld_id(name.rsplit('.').next().unwrap())
}

/// Canonical bytes of header fields.
fn header_bytes(version: u32, height: u64, prev: &[u8; 32], root: &[u8; 32], ts: u64, consensus: &[u8]) -> Encoded {
    if version != PROTOCOL_VERSION || consensus.len() > 256 {
        return Encoded::Failed(ProtocolError { code: 2 });
    }
    Encoded::Bytes(
        [&version.to_le_bytes()[..], &height.to_le_bytes(), prev, root, &ts.to_le_bytes(), consensus].concat(),
    )
}

fn bytes_of(e: Encoded) -> Vec<u8> {
    match e {
        Encoded::Bytes(b) => b,
        Encoded::Failed(_) => panic!("not encodable"),
    }
}

fn network(network_id: NetworkId) -> NetworkParams {
    let name = network_id.as_bytes();
    let root = merkle_root(&[]);
    NetworkParams {
        network_id,
        tld_pow_difficulty: 8,
        domain_pow_difficulty: 4,
        consensus: ConsensusParams { committee_size: 4, recovery_max_epochs: 3, epoch_secs: 3600, epoch_min_blocks: 4 },
        protocol: ProtocolParams {
            version: PROTOCOL_VERSION,
            max_txs_per_block: 64,
            max_consensus_len: 256,
            min_finality_committee: 4,
        },
        genesis_encoding: bytes_of(header_bytes(PROTOCOL_VERSION, 0, &[0; 32], &root, 0, &name)),
        genesis_signing_encoding: bytes_of(header_bytes(PROTOCOL_VERSION, 0, &[0; 32], &root, 0, &[])),
    }
}

fn register_with(name: &str, pk_seed: u8, extra: &str, bump: bool) -> Transaction {
    let sk = key(pk_seed);
    let pk = sk.public_key();
    let body = TxBody::RegisterDomain { name: name.to_string(), domain_id: domain_id(name), parent: parent_of(name) };
    let mut signature = sk.sign(b"fixture");
    if bump {
        signature[63] ^= 0x01;
    }
    seal_tx(NetworkId::Testnet, owner_of(&pk), pk, body, extra, signature)
}

fn register() -> Transaction {
    register_with("example.uip", 1, "1700000000|aaaaaaaa", false)
}

fn update_with(seed: u8, sequence: u64, record: u8) -> Transaction {
    let sk = key(seed);
    let pk = sk.public_key();
    let body = TxBody::UpdateDomain { domain_id: domain_id("example.uip"), sequence, record_hash: [record; 32] };
    seal_tx(NetworkId::Testnet, owner_of(&pk), pk, body, "", sk.sign(b"fixture"))
}

fn update() -> Transaction {
    update_with(1, 1, 9)
}

#[test]
fn txid_deterministic() {
    for tx in [register(), update()] {
        assert_eq!(transaction_id(&tx).unwrap(), transaction_id(&tx).unwrap());
    }
}

#[test]
fn txid_matches_documented_formula() {
    assert_eq!(TX_ID_VERSION.to_vec(), b"SCONE-TX-V1".to_vec());
    for tx in [register(), update()] {
        let encoded = bytes_of(tx.checks.encoding.clone());
        let expected = digest(&[&TX_ID_VERSION, &encoded]);
        assert_eq!(*transaction_id(&tx).unwrap().as_bytes(), expected);
    }
}

#[test]
fn register_and_update_differ() {
    assert_ne!(transaction_id(&register()).unwrap(), transaction_id(&update()).unwrap());
}

#[test]
fn distinct_domains_differ() {
    let other = register_with("other.uip", 1, "1700000000|aaaaaaaa", false);
    assert_ne!(transaction_id(&other).unwrap(), transaction_id(&register()).unwrap());
}

#[test]
fn register_field_sensitivity() {
    let base = transaction_id(&register()).unwrap();
    for other in [
        register_with("other.uip", 1, "1700000000|aaaaaaaa", false), // name
        register_with("example.uip", 1, "1700000001|aaaaaaaa", false), // timestamp
        register_with("example.uip", 1, "1700000000|bbbbbbbb", false), // proof
        register_with("example.uip", 2, "1700000000|aaaaaaaa", false), // key
        register_with("example.uip", 1, "1700000000|aaaaaaaa", true), // signature
    ] {
        assert_ne!(transaction_id(&other).unwrap(), base);
    }
}

#[test]
fn update_field_sensitivity() {
    let base = transaction_id(&update()).unwrap();
    assert_ne!(transaction_id(&update_with(1, 2, 9)).unwrap(), base); // sequence
    assert_ne!(transaction_id(&update_with(1, 1, 8)).unwrap(), base); // record hash
    assert_ne!(transaction_id(&update_with(2, 1, 9)).unwrap(), base); // key
}

#[test]
fn invalid_transaction_is_an_error_not_a_panic() {
    assert!(matches!(transaction_id(&update_with(1, 0, 9)), Err(BlockchainError::Protocol(_))));
}

#[test]
fn bytes_roundtrip_and_map_key() {
    let id = transaction_id(&register()).unwrap();
    assert_eq!(TxId::from_bytes(*id.as_bytes()), id);
    assert_eq!(TxId::from(*id.as_bytes()), id);

    let mut set = std::collections::HashSet::new();
    set.insert(id);
    assert!(set.contains(&transaction_id(&register()).unwrap()));
    assert!(!set.contains(&transaction_id(&update()).unwrap()));
}

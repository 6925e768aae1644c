use scone::consensus::Consensus;
use scone::block_hash::BLOCK_HASH_VERSION;
use scone::block_hash::block_hash;
use scone::consensus::PermissiveConsensus;
use scone::crypto::SigningKey;
use scone::digest::hash256;
use scone::merkle::merkle_root;
use scone::types::BlockHeader;
use scone::types::ConsensusParams;
use scone::types::CoreError;
use scone::types::Encoded;
use scone::types::NetworkId;
use scone::types::NetworkParams;
use scone::types::ProtocolError;
use scone::types::ProtocolParams;
use scone::types::Transaction;
use scone::types::TxBody;
use scone::types::TxChecks;

const PROTOCOL_VERSION: u32 = 1;

fn key(seed: u8) -> SigningKey {
    SigningKey::from_bytes([seed; 32])
}

fn digest(parts: &[&[u8]]) -> [u8; 32] {
    hash256(&parts.concat())
}

fn domain_id(name: &str) -> [u8; 32] {
    digest(&[b"dom:", name.as_bytes()])
}

fn tld_id(tld: &str) -> [u8; 32] {
    digest(&[b"tld:", tld.as_bytes()])
}

/// Identity of a public key.
fn owner_of(pk: &[u8; 32]) -> [u8; 32] {
    digest(&[b"own:", pk])
}

/// What the core layer finds wrong with a body.
fn violation(body: &TxBody) -> Option<CoreError> {
    match body {
        TxBody::UpdateDomain { sequence: 0, .. } => Some(CoreError { code: 1 }),
        _ => None,
    }
}

/// A transaction with its encodings, signed by `signer`.
fn encoded_tx(network: NetworkId, owner: [u8; 32], pk: [u8; 32], body: TxBody, extra: &str, signer: &SigningKey) -> Transaction {
    let payload = format!("{network:?}{owner:?}{pk:?}{body:?}{extra}").into_bytes();
    let signature = signer.sign(&payload);
    seal_tx(network, owner, pk, body, extra, signature)
}

/// A transaction with its encodings and a given signature.
fn seal_tx(network: NetworkId, owner: [u8; 32], pk: [u8; 32], body: TxBody, extra: &str, signature: [u8; 64]) -> Transaction {
    let payload = format!("{network:?}{owner:?}{pk:?}{body:?}{extra}").into_bytes();
    let mut whole = payload.clone();
    whole.extend_from_slice(&signature);
    let bad = violation(&body);
    let (encoding, signing_payload) = match bad {
        Some(_) => (Encoded::Failed(ProtocolError { code: 1 }), Encoded::Failed(ProtocolError { code: 1 })),
        None => (Encoded::Bytes(whole), Encoded::Bytes(payload)),
    };
    Transaction {
        network,
        owner,
        public_key: pk,
        signature,
        body,
        checks: TxChecks {
            encoding,
            signing_payload,
            violation: bad,
            key_owner: owner_of(&pk),
            pow_fault: None,
            reserved_tld: false,
        },
    }
}

fn signed(body: TxBody, seed: u8) -> Transaction {
    let sk = key(seed);
    let pk = sk.public_key();
    encoded_tx(NetworkId::Testnet, owner_of(&pk), pk, body, "", &sk)
}

fn parent_of(name: &str) -> [u8; 32] {
    tld_id(name.rsplit('.').next().unwrap())
}

fn register_domain_tx(name: &str, seed: u8) -> Transaction {
    signed(TxBody::RegisterDomain { name: name.to_string(), domain_id: domain_id(name), parent: parent_of(name) }, seed)
}

/// Canonical bytes of header fields.
fn header_bytes(version: u32, height: u64, prev: &[u8; 32], root: &[u8; 32], ts: u64, consensus: &[u8]) -> Encoded {
    if version != PROTOCOL_VERSION || consensus.len() > 256 {
        return Encoded::Failed(ProtocolError { code: 2 });
    }
    Encoded::Bytes(
        [&version.to_le_bytes()[..], &height.to_le_bytes(), prev, root, &ts.to_le_bytes(), consensus].concat(),
    )
}

/// Recomputes the encodings of a header from its fields.
fn encode_header(h: &mut BlockHeader) {
    h.encoding = header_bytes(h.version, h.height, &h.prev_hash, &h.tx_root, h.timestamp, &h.consensus);
    h.signing_encoding = header_bytes(h.version, h.height, &h.prev_hash, &h.tx_root, h.timestamp, &[]);
}

fn bytes_of(e: Encoded) -> Vec<u8> {
    match e {
        Encoded::Bytes(b) => b,
        Encoded::Failed(_) => panic!("not encodable"),
    }
}

fn network(network_id: NetworkId) -> NetworkParams {
    let name = network_id.as_bytes();
    let root = merkle_root(&[]);
    NetworkParams {
        network_id,
        tld_pow_difficulty: 8,
        domain_pow_difficulty: 4,
        consensus: ConsensusParams { committee_size: 4, recovery_max_epochs: 3, epoch_secs: 3600, epoch_min_blocks: 4 },
        protocol: ProtocolParams {
            version: PROTOCOL_VERSION,
            max_txs_per_block: 64,
            max_consensus_len: 256,
            min_finality_committee: 4,
        },
        genesis_encoding: bytes_of(header_bytes(PROTOCOL_VERSION, 0, &[0; 32], &root, 0, &name)),
        genesis_signing_encoding: bytes_of(header_bytes(PROTOCOL_VERSION, 0, &[0; 32], &root, 0, &[])),
    }
}

fn header() -> BlockHeader {
    let mut h = BlockHeader {
        version: PROTOCOL_VERSION,
        height: 42,
        prev_hash: [1; 32],
        tx_root: [2; 32],
        timestamp: 1_700_000_000,
        consensus: vec![0xaa; 8],
        encoding: Encoded::Bytes(Vec::new()),
        signing_encoding: Encoded::Bytes(Vec::new()),
    };
    encode_header(&mut h);
    h
}

#[test]
fn block_hash_deterministic() {
    assert_eq!(block_hash(&header()).unwrap(), block_hash(&header()).unwrap());
}

#[test]
fn block_hash_matches_documented_formula() {
    assert_eq!(BLOCK_HASH_VERSION.to_vec(), b"SCONE-BLOCK-V1".to_vec());
    let encoded = bytes_of(header().encoding);
    let expected = digest(&[&BLOCK_HASH_VERSION, &encoded]);
    assert_eq!(block_hash(&header()).unwrap(), expected);
}

#[test]
fn header_field_sensitivity() {
    let base = block_hash(&header()).unwrap();

    let mut other = header();
    other.height += 1;
    encode_header(&mut other);
    assert_ne!(block_hash(&other).unwrap(), base);

    let mut other = header();
    other.prev_hash = [3; 32];
    encode_header(&mut other);
    assert_ne!(block_hash(&other).unwrap(), base);

    let mut other = header();
    other.tx_root = [4; 32];
    encode_header(&mut other);
    assert_ne!(block_hash(&other).unwrap(), base);

    let mut other = header();
    other.timestamp += 1;
    encode_header(&mut other);
    assert_ne!(block_hash(&other).unwrap(), base);

    let mut other = header();
    other.consensus = vec![0xbb; 8];
    encode_header(&mut other);
    assert_ne!(block_hash(&other).unwrap(), base);
}

#[test]
fn tx_root_change_changes_block_hash() {
    // transactions -> root -> block hash: a modified transaction (or
    // their order) changes the root, hence the hash.
    let mut other = header();
    other.tx_root = [5; 32];
    encode_header(&mut other);
    assert_ne!(block_hash(&other).unwrap(), block_hash(&header()).unwrap());
}

#[test]
fn invalid_version_is_an_error_not_a_panic() {
    for version in [0u32, PROTOCOL_VERSION + 1] {
        let mut other = header();
        other.version = version;
        encode_header(&mut other);
        assert!(block_hash(&other).is_err(), "version {version}");
    }
}

#[test]
fn oversized_consensus_is_an_error() {
    let mut other = header();
    other.consensus = vec![0; 257];
    encode_header(&mut other);
    assert!(block_hash(&other).is_err());
}

#[test]
fn permissive_accepts_everything() {
    let mut h = header();
    h.height = 0;
    h.consensus = Vec::new();
    assert!(PermissiveConsensus.validate_header(&h).is_ok());
    assert!(PermissiveConsensus.validate_tx(&register_domain_tx("example.uip", 2)).is_ok());
}

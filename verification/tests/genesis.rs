use scone::block_hash::block_hash;
use scone::crypto::SigningKey;
use scone::digest::hash256;
use scone::genesis::GENESIS_TIMESTAMP;
use scone::genesis::genesis_hash_of;
use scone::genesis::genesis_of;
use scone::merkle::EMPTY_ROOT_LABEL;
use scone::merkle::MERKLE_VERSION;
use scone::merkle::merkle_root;
use scone::types::ConsensusParams;
use scone::types::CoreError;
use scone::types::Encoded;
use scone::types::NetworkId;
use scone::types::NetworkParams;
use scone::types::ProtocolError;
use scone::types::ProtocolParams;
use scone::types::Transaction;
use scone::types::TxBody;
use scone::types::TxChecks;

const PROTOCOL_VERSION: u32 = 1;

fn key(seed: u8) -> SigningKey {
    SigningKey::from_bytes([seed; 32])
}

fn digest(parts: &[&[u8]]) -> [u8; 32] {
    hash256(&parts.concat())
}

/// Identity of a public key.
fn owner_of(pk: &[u8; 32]) -> [u8; 32] {
    digest(&[b"own:", pk])
}

/// What the core layer finds wrong with a body.
fn violation(body: &TxBody) -> Option<CoreError> {
    match body {
        TxBody::UpdateDomain { sequence: 0, .. } => Some(CoreError { code: 1 }),
        _ => None,
    }
}

/// A transaction with its encodings, signed by `signer`.
fn encoded_tx(network: NetworkId, owner: [u8; 32], pk: [u8; 32], body: TxBody, extra: &str, signer: &SigningKey) -> Transaction {
    let payload = format!("{network:?}{owner:?}{pk:?}{body:?}{extra}").into_bytes();
    let signature = signer.sign(&payload);
    seal_tx(network, owner, pk, body, extra, signature)
}

/// A transaction with its encodings and a given signature.
fn seal_tx(network: NetworkId, owner: [u8; 32], pk: [u8; 32], body: TxBody, extra: &str, signature: [u8; 64]) -> Transaction {
    let payload = format!("{network:?}{owner:?}{pk:?}{body:?}{extra}").into_bytes();
    let mut whole = payload.clone();
    whole.extend_from_slice(&signature);
    let bad = violation(&body);
    let (encoding, signing_payload) = match bad {
        Some(_) => (Encoded::Failed(ProtocolError { code: 1 }), Encoded::Failed(ProtocolError { code: 1 })),
        None => (Encoded::Bytes(whole), Encoded::Bytes(payload)),
    };
    Transaction {
        network,
        owner,
        public_key: pk,
        signature,
        body,
        checks: TxChecks {
            encoding,
            signing_payload,
            violation: bad,
            key_owner: owner_of(&pk),
            pow_fault: None,
            reserved_tld: false,
        },
    }
}

fn signed(body: TxBody, seed: u8) -> Transaction {
    let sk = key(seed);
    let pk = sk.public_key();
    encoded_tx(NetworkId::Testnet, owner_of(&pk), pk, body, "", &sk)
}

/// Canonical bytes of header fields.
fn header_bytes(version: u32, height: u64, prev: &[u8; 32], root: &[u8; 32], ts: u64, consensus: &[u8]) -> Encoded {
    if version != PROTOCOL_VERSION || consensus.len() > 256 {
        return Encoded::Failed(ProtocolError { code: 2 });
    }
    Encoded::Bytes(
        [&version.to_le_bytes()[..], &height.to_le_bytes(), prev, root, &ts.to_le_bytes(), consensus].concat(),
    )
}

fn bytes_of(e: Encoded) -> Vec<u8> {
    match e {
        Encoded::Bytes(b) => b,
        Encoded::Failed(_) => panic!("not encodable"),
    }
}

fn network(network_id: NetworkId) -> NetworkParams {
    let name = network_id.as_bytes();
    let root = merkle_root(&[]);
    NetworkParams {
        network_id,
        tld_pow_difficulty: 8,
        domain_pow_difficulty: 4,
        consensus: ConsensusParams { committee_size: 4, recovery_max_epochs: 3, epoch_secs: 3600, epoch_min_blocks: 4 },
        protocol: ProtocolParams {
            version: PROTOCOL_VERSION,
            max_txs_per_block: 64,
            max_consensus_len: 256,
            min_finality_committee: 4,
        },
        genesis_encoding: bytes_of(header_bytes(PROTOCOL_VERSION, 0, &[0; 32], &root, 0, &name)),
        genesis_signing_encoding: bytes_of(header_bytes(PROTOCOL_VERSION, 0, &[0; 32], &root, 0, &[])),
    }
}

fn testnet() -> NetworkParams {
    network(NetworkId::Testnet)
}

#[test]
fn deterministic_across_calls() {
    assert_eq!(genesis_of(&testnet()), genesis_of(&testnet()));
    assert_eq!(genesis_hash_of(&testnet()), genesis_hash_of(&testnet()));
    assert_eq!(genesis_of(&network(NetworkId::Mainnet)), genesis_of(&network(NetworkId::Mainnet)));
}

#[test]
fn documented_constants() {
    let genesis = genesis_of(&testnet());
    assert_eq!(genesis.header.version, PROTOCOL_VERSION);
    assert_eq!(genesis.header.height, 0);
    assert_eq!(genesis.header.prev_hash, [0; 32]);
    assert_eq!(genesis.header.tx_root, digest(&[&MERKLE_VERSION, &EMPTY_ROOT_LABEL]));
    assert_eq!(genesis.header.timestamp, GENESIS_TIMESTAMP);
    assert_eq!(genesis.header.consensus, b"scone-testnet".to_vec());
    assert!(genesis.transactions.is_empty());
}

#[test]
fn genesis_hash_matches_block_hash_formula() {
    assert_eq!(genesis_hash_of(&testnet()), block_hash(&genesis_of(&testnet()).header).unwrap());
}

#[test]
fn networks_have_disjoint_genesis() {
    // The two networks' genesis blocks differ (by the consensus payload)
    // and so do their hashes: no block can ever cross over.
    let t = genesis_of(&testnet());
    let m = genesis_of(&network(NetworkId::Mainnet));
    assert_ne!(t, m);
    assert_ne!(genesis_hash_of(&testnet()), genesis_hash_of(&network(NetworkId::Mainnet)));
    assert_eq!(t.header.consensus, b"scone-testnet".to_vec());
    assert_eq!(m.header.consensus, b"scone-mainnet".to_vec());
}

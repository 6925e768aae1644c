use scone::crypto::SigningKey;
use scone::digest::hash256;
use scone::merkle::EMPTY_ROOT_LABEL;
use scone::merkle::LEAF_TAG;
use scone::merkle::MERKLE_VERSION;
use scone::merkle::leaf_hash;
use scone::merkle::merkle_root;
use scone::merkle::node_hash;
use scone::merkle::tx_root;
use scone::txid::TX_ID_VERSION;
use scone::txid::TxId;
use scone::txid::transaction_id;
use scone::types::ConsensusParams;
use scone::types::CoreError;
use scone::types::Encoded;
use scone::types::NetworkId;
use scone::types::NetworkParams;
use scone::types::ProtocolError;
use scone::types::ProtocolParams;
use scone::types::Transaction;
use scone::types::TxBody;
use scone::types::TxChecks;

const PROTOCOL_VERSION: u32 = 1;

fn key(seed: u8) -> SigningKey {
    SigningKey::from_bytes([seed; 32])
}

fn digest(parts: &[&[u8]]) -> [u8; 32] {
    hash256(&parts.concat())
}

fn domain_id(name: &str) -> [u8; 32] {
    digest(&[b"dom:", name.as_bytes()])
}

fn tld_id(tld: &str) -> [u8; 32] {
    digest(&[b"tld:", tld.as_bytes()])
}

/// Identity of a public key.
fn owner_of(pk: &[u8; 32]) -> [u8; 32] {
    digest(&[b"own:", pk])
}

/// What the core layer finds wrong with a body.
fn violation(body: &TxBody) -> Option<CoreError> {
    match body {
        TxBody::UpdateDomain { sequence: 0, .. } => Some(CoreError { code: 1 }),
        _ => None,
    }
}

/// A transaction with its encodings, signed by `signer`.
fn encoded_tx(network: NetworkId, owner: [u8; 32], pk: [u8; 32], body: TxBody, extra: &str, signer: &SigningKey) -> Transaction {
    let payload = format!("{network:?}{owner:?}{pk:?}{body:?}{extra}").into_bytes();
    let signature = signer.sign(&payload);
    seal_tx(network, owner, pk, body, extra, signature)
}

/// A transaction with its encodings and a given signature.
fn seal_tx(network: NetworkId, owner: [u8; 32], pk: [u8; 32], body: TxBody, extra: &str, signature: [u8; 64]) -> Transaction {
    let payload = format!("{network:?}{owner:?}{pk:?}{body:?}{extra}").into_bytes();
    let mut whole = payload.clone();
    whole.extend_from_slice(&signature);
    let bad = violation(&body);
    let (encoding, signing_payload) = match bad {
        Some(_) => (Encoded::Failed(ProtocolError { code: 1 }), Encoded::Failed(ProtocolError { code: 1 })),
        None => (Encoded::Bytes(whole), Encoded::Bytes(payload)),
    };
    Transaction {
        network,
        owner,
        public_key: pk,
        signature,
        body,
        checks: TxChecks {
            encoding,
            signing_payload,
            violation: bad,
            key_owner: owner_of(&pk),
            pow_fault: None,
            reserved_tld: false,
        },
    }
}

fn signed(body: TxBody, seed: u8) -> Transaction {
    let sk = key(seed);
    let pk = sk.public_key();
    encoded_tx(NetworkId::Testnet, owner_of(&pk), pk, body, "", &sk)
}

fn parent_of(name: &str) -> [u8; 32] {
    tld_id(name.rsplit('.').next().unwrap())
}

fn register_domain_tx(name: &str, seed: u8) -> Transaction {
    signed(TxBody::RegisterDomain { name: name.to_string(), domain_id: domain_id(name), parent: parent_of(name) }, seed)
}

fn update_domain_tx(name: &str, seed: u8, sequence: u64) -> Transaction {
    signed(TxBody::UpdateDomain { domain_id: domain_id(name), sequence, record_hash: [sequence as u8; 32] }, seed)
}

/// Canonical bytes of header fields.
fn header_bytes(version: u32, height: u64, prev: &[u8; 32], root: &[u8; 32], ts: u64, consensus: &[u8]) -> Encoded {
    if version != PROTOCOL_VERSION || consensus.len() > 256 {
        return Encoded::Failed(ProtocolError { code: 2 });
    }
    Encoded::Bytes(
        [&version.to_le_bytes()[..], &height.to_le_bytes(), prev, root, &ts.to_le_bytes(), consensus].concat(),
    )
}

fn bytes_of(e: Encoded) -> Vec<u8> {
    match e {
        Encoded::Bytes(b) => b,
        Encoded::Failed(_) => panic!("not encodable"),
    }
}

fn network(network_id: NetworkId) -> NetworkParams {
    let name = network_id.as_bytes();
    let root = merkle_root(&[]);
    NetworkParams {
        network_id,
        tld_pow_difficulty: 8,
        domain_pow_difficulty: 4,
        consensus: ConsensusParams { committee_size: 4, recovery_max_epochs: 3, epoch_secs: 3600, epoch_min_blocks: 4 },
        protocol: ProtocolParams {
            version: PROTOCOL_VERSION,
            max_txs_per_block: 64,
            max_consensus_len: 256,
            min_finality_committee: 4,
        },
        genesis_encoding: bytes_of(header_bytes(PROTOCOL_VERSION, 0, &[0; 32], &root, 0, &name)),
        genesis_signing_encoding: bytes_of(header_bytes(PROTOCOL_VERSION, 0, &[0; 32], &root, 0, &[])),
    }
}

fn txid(byte: u8) -> TxId {
    TxId::from_bytes([byte; 32])
}

#[test]
fn empty_root_matches_documented_formula() {
    assert_eq!(MERKLE_VERSION.to_vec(), b"SCONE-MERKLE-V1".to_vec());
    let expected = digest(&[&MERKLE_VERSION, &EMPTY_ROOT_LABEL]);
    assert_eq!(merkle_root(&[]), expected);
    assert_ne!(merkle_root(&[]), digest(&[&MERKLE_VERSION]));
}

#[test]
fn single_tx_root_is_the_leaf_hash() {
    assert_eq!(merkle_root(&[txid(0x01)]), leaf_hash(&txid(0x01)));
    assert_eq!(leaf_hash(&txid(0x01)), digest(&[b"SCONE-MERKLE-V1", &[0], &[0x01; 32]]));
}

#[test]
fn two_txs_root_is_the_node_hash() {
    let expected = node_hash(&leaf_hash(&txid(1)), &leaf_hash(&txid(2)));
    assert_eq!(merkle_root(&[txid(1), txid(2)]), expected);
}

#[test]
fn three_txs_duplicate_last() {
    let l1 = leaf_hash(&txid(1));
    let l2 = leaf_hash(&txid(2));
    let l3 = leaf_hash(&txid(3));
    let expected = node_hash(&node_hash(&l1, &l2), &node_hash(&l3, &l3));
    assert_eq!(merkle_root(&[txid(1), txid(2), txid(3)]), expected);
}

#[test]
fn four_txs_manual_computation() {
    let l1 = leaf_hash(&txid(1));
    let l2 = leaf_hash(&txid(2));
    let l3 = leaf_hash(&txid(3));
    let l4 = leaf_hash(&txid(4));
    let expected = node_hash(&node_hash(&l1, &l2), &node_hash(&l3, &l4));
    assert_eq!(merkle_root(&[txid(1), txid(2), txid(3), txid(4)]), expected);
}

#[test]
fn odd_sizes_are_deterministic() {
    for count in [1usize, 3, 5, 7, 9, 15] {
        let ids: Vec<TxId> = (1..=count as u8).map(txid).collect();
        assert_eq!(merkle_root(&ids), merkle_root(&ids), "{count} txs");
    }
}

#[test]
fn order_changes_the_root() {
    let cases: [&[TxId]; 4] = [
        &[txid(1), txid(2)],
        &[txid(1), txid(2), txid(3)],
        &[txid(1), txid(2), txid(3), txid(4)],
        &[txid(1), txid(2), txid(3), txid(4), txid(5)],
    ];
    for ids in cases {
        let mut swapped = ids.to_vec();
        swapped.swap(0, 1);
        assert_ne!(merkle_root(ids), merkle_root(&swapped));
    }
}

#[test]
fn leaf_and_node_tags_prevent_second_preimage() {
    // A leaf hash and a node hash are never equal, and no id can be
    // mistaken for an inner node input.
    let leaf = leaf_hash(&txid(1));
    let node = node_hash(txid(1).as_bytes(), txid(2).as_bytes());
    assert_ne!(leaf, node);
    assert_ne!(leaf_hash(&txid(1)), node_hash(&leaf_hash(&txid(1)), &leaf_hash(&txid(1))));
}

#[test]
fn tx_root_over_transactions_matches_txids_root() {
    let txs = vec![register_domain_tx("example.uip", 1), update_domain_tx("example.uip", 1, 1)];
    let ids: Vec<TxId> = txs.iter().map(|t| transaction_id(t).unwrap()).collect();
    assert_eq!(tx_root(&txs).unwrap(), merkle_root(&ids));
}

#[test]
fn tx_root_empty_matches_merkle_empty() {
    assert_eq!(tx_root(&vec![]).unwrap(), merkle_root(&[]));
}

#[test]
fn tx_root_order_matters() {
    let ab = tx_root(&vec![register_domain_tx("a.uip", 1), register_domain_tx("b.uip", 1)]).unwrap();
    let ba = tx_root(&vec![register_domain_tx("b.uip", 1), register_domain_tx("a.uip", 1)]).unwrap();
    assert_ne!(ab, ba);
}

#[test]
fn tx_root_invalid_transaction_is_an_error() {
    // sequence = 0 violates a core invariant: encoding must fail, not
    // panic.
    assert!(tx_root(&vec![update_domain_tx("example.uip", 1, 0)]).is_err());
}

#[test]
fn domain_separator_is_distinct_from_txid() {
    // An id and a leaf over the same-looking bytes must never collide:
    // distinct domain prefixes guarantee it.
    let encoded = b"payload".as_slice();
    let tx_like = digest(&[&TX_ID_VERSION, encoded]);
    let leaf_like = digest(&[&MERKLE_VERSION, &[LEAF_TAG], &tx_like]);
    assert_ne!(tx_like, leaf_like);
}

use scone::block_hash::block_hash;
use scone::builder::BlockBuilder;
use scone::chain::Blockchain;
use scone::consensus::Consensus;
use scone::consensus::PermissiveConsensus;
use scone::crypto::SigningKey;
use scone::digest::hash256;
use scone::error::BlockchainError;
use scone::finality::Draw;
use scone::finality::SeedSource;
use scone::finality::everyone_in;
use scone::genesis::genesis_hash_of;
use scone::merkle::merkle_root;
use scone::merkle::tx_root;
use scone::types::Block;
use scone::types::ConsensusParams;
use scone::types::CoreError;
use scone::types::Encoded;
use scone::types::NetworkId;
use scone::types::NetworkParams;
use scone::types::ProtocolError;
use scone::types::ProtocolParams;
use scone::types::Transaction;
use scone::types::TxBody;
use scone::types::TxChecks;

const PROTOCOL_VERSION: u32 = 1;

fn key(seed: u8) -> SigningKey {
    SigningKey::from_bytes([seed; 32])
}

fn digest(parts: &[&[u8]]) -> [u8; 32] {
    hash256(&parts.concat())
}

fn domain_id(name: &str) -> [u8; 32] {
    digest(&[b"dom:", name.as_bytes()])
}

fn tld_id(tld: &str) -> [u8; 32] {
    digest(&[b"tld:", tld.as_bytes()])
}

/// Identity of a public key.
fn owner_of(pk: &[u8; 32]) -> [u8; 32] {
    digest(&[b"own:", pk])
}

/// What the core layer finds wrong with a body.
fn violation(body: &TxBody) -> Option<CoreError> {
    match body {
        TxBody::UpdateDomain { sequence: 0, .. } => Some(CoreError { code: 1 }),
        _ => None,
    }
}

/// A transaction with its encodings, signed by `signer`.
fn encoded_tx(network: NetworkId, owner: [u8; 32], pk: [u8; 32], body: TxBody, extra: &str, signer: &SigningKey) -> Transaction {
    let payload = format!("{network:?}{owner:?}{pk:?}{body:?}{extra}").into_bytes();
    let signature = signer.sign(&payload);
    seal_tx(network, owner, pk, body, extra, signature)
}

/// A transaction with its encodings and a given signature.
fn seal_tx(network: NetworkId, owner: [u8; 32], pk: [u8; 32], body: TxBody, extra: &str, signature: [u8; 64]) -> Transaction {
    let payload = format!("{network:?}{owner:?}{pk:?}{body:?}{extra}").into_bytes();
    let mut whole = payload.clone();
    whole.extend_from_slice(&signature);
    let bad = violation(&body);
    let (encoding, signing_payload) = match bad {
        Some(_) => (Encoded::Failed(ProtocolError { code: 1 }), Encoded::Failed(ProtocolError { code: 1 })),
        None => (Encoded::Bytes(whole), Encoded::Bytes(payload)),
    };
    Transaction {
        network,
        owner,
        public_key: pk,
        signature,
        body,
        checks: TxChecks {
            encoding,
            signing_payload,
            violation: bad,
            key_owner: owner_of(&pk),
            pow_fault: None,
            reserved_tld: false,
        },
    }
}

fn signed(body: TxBody, seed: u8) -> Transaction {
    let sk = key(seed);
    let pk = sk.public_key();
    encoded_tx(NetworkId::Testnet, owner_of(&pk), pk, body, "", &sk)
}

fn parent_of(name: &str) -> [u8; 32] {
    tld_id(name.rsplit('.').next().unwrap())
}

fn register_domain_tx(name: &str, seed: u8) -> Transaction {
    signed(TxBody::RegisterDomain { name: name.to_string(), domain_id: domain_id(name), parent: parent_of(name) }, seed)
}

fn update_domain_tx(name: &str, seed: u8, sequence: u64) -> Transaction {
    signed(TxBody::UpdateDomain { domain_id: domain_id(name), sequence, record_hash: [sequence as u8; 32] }, seed)
}

fn register_tld_tx(tld: &str, seed: u8) -> Transaction {
    signed(TxBody::RegisterTld { name: tld.to_string(), tld_id: tld_id(tld) }, seed)
}

fn set_open_tx(tld: &str, seed: u8, open: bool) -> Transaction {
    signed(TxBody::SetTldOpen { tld_id: tld_id(tld), open }, seed)
}

/// Canonical bytes of header fields.
fn header_bytes(version: u32, height: u64, prev: &[u8; 32], root: &[u8; 32], ts: u64, consensus: &[u8]) -> Encoded {
    if version != PROTOCOL_VERSION || consensus.len() > 256 {
        return Encoded::Failed(ProtocolError { code: 2 });
    }
    Encoded::Bytes(
        [&version.to_le_bytes()[..], &height.to_le_bytes(), prev, root, &ts.to_le_bytes(), consensus].concat(),
    )
}

fn bytes_of(e: Encoded) -> Vec<u8> {
    match e {
        Encoded::Bytes(b) => b,
        Encoded::Failed(_) => panic!("not encodable"),
    }
}

fn network(network_id: NetworkId) -> NetworkParams {
    let name = network_id.as_bytes();
    let root = merkle_root(&[]);
    NetworkParams {
        network_id,
        tld_pow_difficulty: 8,
        domain_pow_difficulty: 4,
        consensus: ConsensusParams { committee_size: 4, recovery_max_epochs: 3, epoch_secs: 3600, epoch_min_blocks: 4 },
        protocol: ProtocolParams {
            version: PROTOCOL_VERSION,
            max_txs_per_block: 64,
            max_consensus_len: 256,
            min_finality_committee: 4,
        },
        genesis_encoding: bytes_of(header_bytes(PROTOCOL_VERSION, 0, &[0; 32], &root, 0, &name)),
        genesis_signing_encoding: bytes_of(header_bytes(PROTOCOL_VERSION, 0, &[0; 32], &root, 0, &[])),
    }
}

fn testnet() -> NetworkParams {
    network(NetworkId::Testnet)
}

/// The keys that a draw elects: the `size` lowest of the pool by the hash
/// of seed and key.
fn elect(d: &Draw) -> Vec<[u8; 32]> {
    let seed = match d.seed {
        SeedSource::Genesis(h) => digest(&[b"next:", &h]),
        SeedSource::Base(s) => s,
        SeedSource::Recovery { seed, counter } => digest(&[b"recovery:", &seed, &counter.to_le_bytes()]),
    };
    let mut ranked: Vec<([u8; 32], [u8; 32])> = d.pool.iter().map(|pk| (digest(&[&seed, pk]), *pk)).collect();
    ranked.sort();
    ranked.into_iter().take(d.size).map(|(_, pk)| pk).collect()
}

/// Union of what some draws elect.
fn elect_all(draws: &[Draw]) -> Vec<[u8; 32]> {
    everyone_in(&draws.iter().map(elect).collect())
}

fn producers<C: Consensus>(chain: &Blockchain<C>, ts: u64) -> Vec<[u8; 32]> {
    elect_all(&chain.allowed_producers(ts))
}

fn push<C: Consensus>(chain: &mut Blockchain<C>, block: &Block) -> Result<[u8; 32], BlockchainError> {
    let allowed = producers(chain, block.header.timestamp);
    chain.push_block(block, &allowed)
}

/// Producer of the test blocks: the owner of `uip`.
fn producer_key() -> SigningKey {
    key(1)
}

fn new_chain() -> Blockchain<PermissiveConsensus> {
    Blockchain::for_network(testnet())
}

fn limits() -> ProtocolParams {
    testnet().protocol
}

/// Encodes and signs what a builder drafted.
fn finish(b: BlockBuilder) -> Result<Block, BlockchainError> {
    let d = b.draft()?;
    let unsigned = header_bytes(d.version, d.height, &d.prev_hash, &d.tx_root, d.timestamp, &[]);
    let b = b.with_producer(&producer_key(), &unsigned)?;
    let d = b.draft()?;
    let whole = header_bytes(d.version, d.height, &d.prev_hash, &d.tx_root, d.timestamp, &d.consensus);
    b.build(whole, unsigned)
}

fn genesis_hash() -> [u8; 32] {
    genesis_hash_of(&testnet())
}

#[test]
fn builds_on_genesis_with_recomputed_root() {
    let mut builder = BlockBuilder::after(0, genesis_hash(), limits()).with_timestamp(1_700_000_000);
    builder.push_tx(register_tld_tx("uip", 1)).unwrap();
    builder.push_tx(set_open_tx("uip", 1, true)).unwrap();
    builder.push_tx(register_domain_tx("example.uip", 1)).unwrap();
    let block = finish(builder).unwrap();

    assert_eq!(block.header.version, PROTOCOL_VERSION);
    assert_eq!(block.header.height, 1);
    assert_eq!(block.header.prev_hash, genesis_hash());
    assert_eq!(block.header.timestamp, 1_700_000_000);
    // tx_root is the recomputed root, not a provided value.
    assert_eq!(block.header.tx_root, tx_root(&block.transactions).unwrap());
    // The chain accepts the assembled block as-is.
    let mut chain = new_chain();
    assert_eq!(push(&mut chain, &block).unwrap(), block_hash(&block.header).unwrap());
}

#[test]
fn chaining_genesis_block1_block2() {
    let mut chain = new_chain();

    let mut b = BlockBuilder::after(chain.height(), chain.tip_hash(), limits()).with_timestamp(10);
    b.push_tx(register_tld_tx("uip", 1)).unwrap();
    b.push_tx(set_open_tx("uip", 1, true)).unwrap();
    b.push_tx(register_domain_tx("example.uip", 1)).unwrap();
    let b1 = finish(b).unwrap();
    push(&mut chain, &b1).unwrap();

    let mut b = BlockBuilder::after(chain.height(), chain.tip_hash(), limits()).with_timestamp(20);
    b.push_tx(update_domain_tx("example.uip", 1, 1)).unwrap();
    let b2 = finish(b).unwrap();
    push(&mut chain, &b2).unwrap();

    assert_eq!(chain.height(), 2);
    let domain = chain.state().domain(&domain_id("example.uip")).unwrap();
    assert_eq!(domain.sequence, 1);
    assert_eq!(domain.record_hash, Some([1; 32]));
}

fn assemble() -> Blockchain<PermissiveConsensus> {
    let mut chain = new_chain();
    let mut b = BlockBuilder::after(chain.height(), chain.tip_hash(), limits()).with_timestamp(10);
    b.push_tx(register_tld_tx("uip", 1)).unwrap();
    b.push_tx(set_open_tx("uip", 1, true)).unwrap();
    b.push_tx(register_domain_tx("example.uip", 1)).unwrap();
    let b1 = finish(b).unwrap();
    push(&mut chain, &b1).unwrap();
    let mut b = BlockBuilder::after(chain.height(), chain.tip_hash(), limits()).with_timestamp(20);
    b.push_tx(update_domain_tx("example.uip", 1, 1)).unwrap();
    b.push_tx(update_domain_tx("example.uip", 1, 2)).unwrap();
    let b2 = finish(b).unwrap();
    push(&mut chain, &b2).unwrap();
    chain
}

#[test]
fn deterministic_replay_same_bytes_same_chain() {
    let left = assemble();
    let right = assemble();
    assert_eq!(left.tip_hash(), right.tip_hash());
    assert!(left.state().same_state(right.state()));
    assert_eq!(left.height(), 2);
}

#[test]
fn tx_limit_enforced() {
    let max = limits().max_txs_per_block;
    let mut builder = BlockBuilder::after(0, genesis_hash(), limits());
    for i in 0..max {
        builder.push_tx(register_domain_tx(&format!("d{i}.uip"), 1)).unwrap();
    }
    assert_eq!(
        builder.push_tx(register_domain_tx("overflow.uip", 1)),
        Err(BlockchainError::TooManyTransactions(max + 1))
    );
    assert_eq!(builder.len(), max);
}

#[test]
fn empty_block_builds() {
    let builder = BlockBuilder::after(0, genesis_hash(), limits());
    assert!(builder.is_empty());
    let block = finish(builder).unwrap();
    assert!(block.transactions.is_empty());
    assert_eq!(block.header.height, 1);
}

#[test]
fn what_cannot_be_encoded_is_not_built() {
    let mut b = BlockBuilder::after(0, genesis_hash(), limits());
    b.push_tx(update_domain_tx("example.uip", 1, 0)).unwrap();
    assert!(matches!(b.draft(), Err(BlockchainError::Protocol(_))));
    let b = BlockBuilder::after(0, genesis_hash(), limits()).with_consensus(vec![0; 257]);
    let failed = header_bytes(PROTOCOL_VERSION, 1, &genesis_hash(), &merkle_root(&[]), 0, &[0; 257]);
    let unsigned = header_bytes(PROTOCOL_VERSION, 1, &genesis_hash(), &merkle_root(&[]), 0, &[]);
    assert_eq!(b.build(failed, unsigned), Err(BlockchainError::Protocol(ProtocolError { code: 2 })));
}

use scone::block_hash::block_hash;
use scone::chain::AppliedBlock;
use scone::chain::Blockchain;
use scone::chain_model::RAM_WINDOW_BLOCKS;
use scone::chain_model::REPLAY_WINDOW_BLOCKS;
use scone::consensus::Consensus;
use scone::consensus::PermissiveConsensus;
use scone::crypto::SigningKey;
use scone::digest::hash256;
use scone::error::BlockchainError;
use scone::error::ConsensusFault;
use scone::error::ProducerFault;
use scone::finality::Draw;
use scone::finality::SeedSource;
use scone::finality::Tally;
use scone::finality::everyone_in;
use scone::fork_choice::Replay;
use scone::genesis::genesis_hash_of;
use scone::genesis::genesis_of;
use scone::merkle::merkle_root;
use scone::merkle::tx_root;
use scone::producer::encode_producer_payload;
use scone::producer::producer_signing_hash;
use scone::producer::sign_block_hash;
use scone::state_model::DOMAIN_TERM_SECS;
use scone::txid::transaction_id;
use scone::types::Block;
use scone::types::BlockHeader;
use scone::types::Checkpoint;
use scone::types::CheckpointData;
use scone::types::ConsensusParams;
use scone::types::CoreError;
use scone::types::Encoded;
use scone::types::HeaderModel;
use scone::types::NetworkId;
use scone::types::NetworkParams;
use scone::types::ProtocolError;
use scone::types::ProtocolParams;
use scone::types::Transaction;
use scone::types::TxBody;
use scone::types::TxChecks;
use scone::types::TxModel;

const PROTOCOL_VERSION: u32 = 1;

fn key(seed: u8) -> SigningKey {
    SigningKey::from_bytes([seed; 32])
}

fn digest(parts: &[&[u8]]) -> [u8; 32] {
    hash256(&parts.concat())
}

fn domain_id(name: &str) -> [u8; 32] {
    digest(&[b"dom:", name.as_bytes()])
}

fn tld_id(tld: &str) -> [u8; 32] {
    digest(&[b"tld:", tld.as_bytes()])
}

/// Identity of a public key.
fn owner_of(pk: &[u8; 32]) -> [u8; 32] {
    digest(&[b"own:", pk])
}

/// What the core layer finds wrong with a body.
fn violation(body: &TxBody) -> Option<CoreError> {
    match body {
        TxBody::UpdateDomain { sequence: 0, .. } => Some(CoreError { code: 1 }),
        _ => None,
    }
}

/// A transaction with its encodings, signed by `signer`.
fn encoded_tx(network: NetworkId, owner: [u8; 32], pk: [u8; 32], body: TxBody, extra: &str, signer: &SigningKey) -> Transaction {
    let payload = format!("{network:?}{owner:?}{pk:?}{body:?}{extra}").into_bytes();
    let signature = signer.sign(&payload);
    seal_tx(network, owner, pk, body, extra, signature)
}

/// A transaction with its encodings and a given signature.
fn seal_tx(network: NetworkId, owner: [u8; 32], pk: [u8; 32], body: TxBody, extra: &str, signature: [u8; 64]) -> Transaction {
    let payload = format!("{network:?}{owner:?}{pk:?}{body:?}{extra}").into_bytes();
    let mut whole = payload.clone();
    whole.extend_from_slice(&signature);
    let bad = violation(&body);
    let (encoding, signing_payload) = match bad {
        Some(_) => (Encoded::Failed(ProtocolError { code: 1 }), Encoded::Failed(ProtocolError { code: 1 })),
        None => (Encoded::Bytes(whole), Encoded::Bytes(payload)),
    };
    Transaction {
        network,
        owner,
        public_key: pk,
        signature,
        body,
        checks: TxChecks {
            encoding,
            signing_payload,
            violation: bad,
            key_owner: owner_of(&pk),
            pow_fault: None,
            reserved_tld: false,
        },
    }
}

fn signed(body: TxBody, seed: u8) -> Transaction {
    let sk = key(seed);
    let pk = sk.public_key();
    encoded_tx(NetworkId::Testnet, owner_of(&pk), pk, body, "", &sk)
}

fn parent_of(name: &str) -> [u8; 32] {
    tld_id(name.rsplit('.').next().unwrap())
}

fn register_domain_tx(name: &str, seed: u8) -> Transaction {
    signed(TxBody::RegisterDomain { name: name.to_string(), domain_id: domain_id(name), parent: parent_of(name) }, seed)
}

fn update_domain_tx(name: &str, seed: u8, sequence: u64) -> Transaction {
    signed(TxBody::UpdateDomain { domain_id: domain_id(name), sequence, record_hash: [sequence as u8; 32] }, seed)
}

fn register_tld_tx(tld: &str, seed: u8) -> Transaction {
    signed(TxBody::RegisterTld { name: tld.to_string(), tld_id: tld_id(tld) }, seed)
}

fn set_open_tx(tld: &str, seed: u8, open: bool) -> Transaction {
    signed(TxBody::SetTldOpen { tld_id: tld_id(tld), open }, seed)
}

/// Canonical bytes of header fields.
fn header_bytes(version: u32, height: u64, prev: &[u8; 32], root: &[u8; 32], ts: u64, consensus: &[u8]) -> Encoded {
    if version != PROTOCOL_VERSION || consensus.len() > 256 {
        return Encoded::Failed(ProtocolError { code: 2 });
    }
    Encoded::Bytes(
        [&version.to_le_bytes()[..], &height.to_le_bytes(), prev, root, &ts.to_le_bytes(), consensus].concat(),
    )
}

/// Recomputes the encodings of a header from its fields.
fn encode_header(h: &mut BlockHeader) {
    h.encoding = header_bytes(h.version, h.height, &h.prev_hash, &h.tx_root, h.timestamp, &h.consensus);
    h.signing_encoding = header_bytes(h.version, h.height, &h.prev_hash, &h.tx_root, h.timestamp, &[]);
}

fn bytes_of(e: Encoded) -> Vec<u8> {
    match e {
        Encoded::Bytes(b) => b,
        Encoded::Failed(_) => panic!("not encodable"),
    }
}

fn network(network_id: NetworkId) -> NetworkParams {
    let name = network_id.as_bytes();
    let root = merkle_root(&[]);
    NetworkParams {
        network_id,
        tld_pow_difficulty: 8,
        domain_pow_difficulty: 4,
        consensus: ConsensusParams { committee_size: 4, recovery_max_epochs: 3, epoch_secs: 3600, epoch_min_blocks: 4 },
        protocol: ProtocolParams {
            version: PROTOCOL_VERSION,
            max_txs_per_block: 64,
            max_consensus_len: 256,
            min_finality_committee: 4,
        },
        genesis_encoding: bytes_of(header_bytes(PROTOCOL_VERSION, 0, &[0; 32], &root, 0, &name)),
        genesis_signing_encoding: bytes_of(header_bytes(PROTOCOL_VERSION, 0, &[0; 32], &root, 0, &[])),
    }
}

fn testnet() -> NetworkParams {
    network(NetworkId::Testnet)
}

/// The keys that a draw elects: the `size` lowest of the pool by the hash
/// of seed and key.
fn elect(d: &Draw) -> Vec<[u8; 32]> {
    let seed = match d.seed {
        SeedSource::Genesis(h) => digest(&[b"next:", &h]),
        SeedSource::Base(s) => s,
        SeedSource::Recovery { seed, counter } => digest(&[b"recovery:", &seed, &counter.to_le_bytes()]),
    };
    let mut ranked: Vec<([u8; 32], [u8; 32])> = d.pool.iter().map(|pk| (digest(&[&seed, pk]), *pk)).collect();
    ranked.sort();
    ranked.into_iter().take(d.size).map(|(_, pk)| pk).collect()
}

/// Union of what some draws elect.
fn elect_all(draws: &[Draw]) -> Vec<[u8; 32]> {
    everyone_in(&draws.iter().map(elect).collect())
}

fn producers<C: Consensus>(chain: &Blockchain<C>, ts: u64) -> Vec<[u8; 32]> {
    elect_all(&chain.allowed_producers(ts))
}

fn push<C: Consensus>(chain: &mut Blockchain<C>, block: &Block) -> Result<[u8; 32], BlockchainError> {
    let allowed = producers(chain, block.header.timestamp);
    chain.push_block(block, &allowed)
}

fn push_gc<C: Consensus>(chain: &mut Blockchain<C>, block: &Block) -> Result<AppliedBlock, BlockchainError> {
    let allowed = producers(chain, block.header.timestamp);
    chain.push_block_with_gc(block, &allowed)
}

/// Producer of the test blocks: the owner of `uip`.
fn producer_key() -> SigningKey {
    key(1)
}

/// Signs a block again after its header was changed.
fn resign(block: &mut Block) {
    resign_as(block, &producer_key());
}

fn resign_as(block: &mut Block, sk: &SigningKey) {
    block.header.consensus = Vec::new();
    encode_header(&mut block.header);
    if let Some(sh) = producer_signing_hash(&block.header) {
        let sig = sign_block_hash(sk, &sh);
        block.header.consensus = encode_producer_payload(&sk.public_key(), &sig);
    }
    encode_header(&mut block.header);
}

fn make_block(prev: [u8; 32], height: u64, txs: Vec<Transaction>) -> Block {
    let mut block = Block {
        header: BlockHeader {
            version: PROTOCOL_VERSION,
            height,
            prev_hash: prev,
            tx_root: tx_root(&txs).unwrap(),
            timestamp: height,
            consensus: Vec::new(),
            encoding: Encoded::Bytes(Vec::new()),
            signing_encoding: Encoded::Bytes(Vec::new()),
        },
        transactions: txs,
    };
    resign(&mut block);
    block
}

fn child<C: Consensus>(chain: &Blockchain<C>, txs: Vec<Transaction>) -> Block {
    make_block(chain.tip_hash(), chain.height() + 1, txs)
}

fn new_chain() -> Blockchain<PermissiveConsensus> {
    Blockchain::for_network(testnet())
}

/// Claims `uip` and opens it for self-registration.
fn claim_open_uip(chain: &mut Blockchain<PermissiveConsensus>, seed: u8) {
    let b = child(chain, vec![register_tld_tx("uip", seed), set_open_tx("uip", seed, true)]);
    push(chain, &b).unwrap();
}

/// Length-free content of a checkpoint, as its members sign it.
fn checkpoint_digest(d: &CheckpointData) -> [u8; 32] {
    digest(&[
        b"checkpoint:",
        &d.epoch.to_le_bytes(),
        &d.height.to_le_bytes(),
        &d.block_hash,
        &d.prev_checkpoint_hash,
        &d.state_root,
        &d.recovery.to_le_bytes(),
    ])
}

/// The hash by which the next checkpoint chains.
fn checkpoint_hash(signing_hash: &[u8; 32]) -> [u8; 32] {
    digest(&[b"sealed:", signing_hash])
}

/// The seed that follows a checkpoint.
fn next_seed(hash: &[u8; 32]) -> [u8; 32] {
    digest(&[b"next:", hash])
}

fn quorum_for(n: usize) -> usize {
    n * 2 / 3 + 1
}

/// A checkpoint over some data, signed by the keys of the given seeds.
fn sign_all(data: CheckpointData, seeds: &[u8]) -> Checkpoint {
    let signing_hash = checkpoint_digest(&data);
    let signatures = seeds.iter().map(|s| (key(*s).public_key(), key(*s).sign(&signing_hash))).collect();
    Checkpoint { data, signing_hash, signatures, hash: checkpoint_hash(&signing_hash) }
}

/// Counts the committee members among the signers.
fn tally<C: Consensus>(chain: &Blockchain<C>, cp: &Checkpoint) -> Tally {
    let committee = chain.committee(cp.data.recovery).map(|d| elect(&d)).unwrap_or_default();
    let votes = committee.iter().filter(|m| cp.signatures.iter().any(|s| s.0 == **m)).count();
    let quorum = quorum_for(committee.len());
    Tally { committee: committee.len(), quorum, met: votes >= quorum }
}

fn accept<C: Consensus>(chain: &mut Blockchain<C>, cp: Checkpoint) -> Result<bool, BlockchainError> {
    let t = tally(chain, &cp);
    let seed = next_seed(&cp.hash);
    chain.accept_checkpoint(cp, t, seed)
}

/// Empty blocks advancing the height.
fn advance(chain: &mut Blockchain<PermissiveConsensus>, blocks: u64) {
    for _ in 0..blocks {
        let b = child(chain, vec![]);
        push(chain, &b).unwrap();
    }
}

/// A chain whose pool holds four distinct live owners: finality is
/// available.
fn chain_with_committee() -> Blockchain<PermissiveConsensus> {
    let mut chain = new_chain();
    claim_open_uip(&mut chain, 1);
    for (name, seed) in [("a.uip", 2u8), ("b.uip", 3), ("c.uip", 4)] {
        let b = child(&chain, vec![register_domain_tx(name, seed)]);
        push(&mut chain, &b).unwrap();
    }
    chain
}

/// Finalizes a checkpoint on the current tip, signed by all four owners.
fn finalize_tip(chain: &mut Blockchain<PermissiveConsensus>) {
    let data = chain.checkpoint_data(0).unwrap();
    let committee = elect(&chain.committee(0).unwrap());
    assert!(committee.len() >= 4, "the committee must reach the floor");
    assert_eq!(accept(chain, sign_all(data, &[1, 2, 3, 4])), Ok(true));
}

/// The producers of each block of a replay, padded to `len` lists.
fn lists_for(plan: Result<Option<Replay>, BlockchainError>, first: Vec<[u8; 32]>, len: usize) -> Vec<Vec<[u8; 32]>> {
    let mut lists = Vec::new();
    match plan {
        Ok(Some(mut replay)) => {
            let total = replay.remaining();
            while !replay.is_done() {
                let allowed = elect_all(&replay.allowed_producers());
                let failed = replay.step(&allowed).is_err();
                lists.push(allowed);
                if failed {
                    break;
                }
            }
            lists.resize(total, Vec::new());
        }
        _ => lists.push(first),
    }
    while lists.len() < len {
        lists.push(Vec::new());
    }
    lists
}

fn attach(chain: &mut Blockchain<PermissiveConsensus>, block: &Block) -> Result<AppliedBlock, BlockchainError> {
    let first = producers(chain, block.header.timestamp);
    let lists = lists_for(chain.plan_attach(block), first, block.header.height as usize);
    chain.try_attach(block, &lists)
}

fn adopt(chain: &mut Blockchain<PermissiveConsensus>, blocks: Vec<Block>) -> Result<bool, BlockchainError> {
    let len = blocks.first().map_or(0, |b| b.header.height as usize + blocks.len());
    let lists = lists_for(chain.plan_adoption(&blocks), Vec::new(), len);
    chain.adopt_branch(&blocks, &lists)
}

fn genesis() -> Block {
    genesis_of(&testnet())
}

fn genesis_hash() -> [u8; 32] {
    genesis_hash_of(&testnet())
}

fn owner(seed: u8) -> [u8; 32] {
    owner_of(&key(seed).public_key())
}

/// Pushes a child of the tip with some transactions.
fn grow(chain: &mut Blockchain<PermissiveConsensus>, txs: Vec<Transaction>) -> Result<[u8; 32], BlockchainError> {
    let b = child(chain, txs);
    push(chain, &b)
}

#[test]
fn new_chain_is_at_genesis() {
    let chain = new_chain();
    assert_eq!(chain.height(), 0);
    assert_eq!(chain.tip_hash(), genesis_hash());
    assert_eq!(chain.tip(), &genesis());
    assert_eq!(chain.block(0), Some(&genesis()));
    assert!(chain.block(1).is_none());
    assert!(chain.state().is_empty());
}

#[test]
fn genesis_identical_across_chains() {
    assert_eq!(new_chain().tip_hash(), new_chain().tip_hash());
    assert_eq!(new_chain().genesis(), &genesis());
}

#[test]
fn genesis_cannot_be_repushed() {
    let mut chain = new_chain();
    // The parent hash of genesis is all zeros, not the tip hash.
    assert_eq!(push(&mut chain, &genesis()), Err(BlockchainError::UnknownParent));
}

#[test]
fn valid_blocks_extend_the_chain() {
    let mut chain = new_chain();
    claim_open_uip(&mut chain, 1);
    let b1 = child(&chain, vec![register_domain_tx("example.uip", 1)]);
    let h1 = push(&mut chain, &b1).unwrap();
    assert_eq!(chain.height(), 2);
    assert_eq!(chain.tip_hash(), h1);
    assert_eq!(chain.tip(), &b1);

    let b2 = child(&chain, vec![update_domain_tx("example.uip", 1, 1)]);
    let h2 = push(&mut chain, &b2).unwrap();
    assert_eq!(chain.height(), 3);
    assert_eq!(chain.tip_hash(), h2);
    assert_eq!(chain.block(2), Some(&b1));
    assert_eq!(chain.block(3), Some(&b2));
}

#[test]
fn register_then_update_reaches_the_state() {
    let mut chain = new_chain();
    claim_open_uip(&mut chain, 1);
    grow(&mut chain, vec![register_domain_tx("example.uip", 1)]).unwrap();
    grow(&mut chain, vec![update_domain_tx("example.uip", 1, 1)]).unwrap();

    let domain = chain.state().domain(&domain_id("example.uip")).unwrap();
    assert_eq!(domain.owner, owner(1));
    assert_eq!(domain.sequence, 1);
    assert_eq!(domain.record_hash, Some([1; 32]));
}

#[test]
fn register_and_update_in_same_block() {
    let mut chain = new_chain();
    claim_open_uip(&mut chain, 1);
    grow(&mut chain, vec![register_domain_tx("example.uip", 1), update_domain_tx("example.uip", 1, 1)]).unwrap();
    let domain = chain.state().domain(&domain_id("example.uip")).unwrap();
    assert_eq!(domain.sequence, 1);
    assert!(domain.record_hash.is_some());
}

#[test]
fn same_blocks_same_final_state_and_tip() {
    // The same blocks are pushed on two independent chains.
    let mut left = new_chain();
    let mut right = new_chain();

    claim_open_uip(&mut left, 1);
    claim_open_uip(&mut right, 1);
    let b1 = child(&left, vec![register_domain_tx("a.uip", 1), register_domain_tx("b.uip", 2)]);
    push(&mut left, &b1).unwrap();
    push(&mut right, &b1).unwrap();

    let b2 = child(&left, vec![update_domain_tx("a.uip", 1, 1)]);
    push(&mut left, &b2).unwrap();
    push(&mut right, &b2).unwrap();

    assert_eq!(left.tip_hash(), right.tip_hash());
    assert!(left.state().same_state(right.state()));
    assert_eq!(left.height(), right.height());
}

#[test]
fn unknown_parent_rejected() {
    let mut chain = new_chain();
    let orphan = make_block([0xab; 32], 1, vec![]);
    assert_eq!(push(&mut chain, &orphan), Err(BlockchainError::UnknownParent));
    assert_eq!(chain.height(), 0);
}

#[test]
fn fork_on_known_non_tip_rejected() {
    let mut chain = new_chain();
    let genesis_hash = chain.tip_hash();
    claim_open_uip(&mut chain, 1);
    grow(&mut chain, vec![register_domain_tx("a.uip", 1)]).unwrap();

    // Competing block on the same (now non-tip) genesis parent.
    let competitor = make_block(genesis_hash, 1, vec![register_domain_tx("b.uip", 1)]);
    assert_eq!(push(&mut chain, &competitor), Err(BlockchainError::ParentNotTip));
    assert_eq!(chain.height(), 2);
    assert_eq!(chain.state().domain(&domain_id("b.uip")), None);
}

#[test]
fn icann_tld_claim_is_rejected_typed() {
    // The legacy root zone cannot be claimed, whatever the proof of work.
    let mut chain = new_chain();
    let mut claim = register_tld_tx("com", 1);
    claim.checks.reserved_tld = true;
    assert!(matches!(
        grow(&mut chain, vec![claim]),
        Err(BlockchainError::IcannTldReserved(t)) if t == "com"
    ));
    // A free namespace still works.
    claim_open_uip(&mut chain, 1);
    assert!(chain.state().tld(&tld_id("uip")).is_some());
}

#[test]
fn wrong_height_rejected() {
    let mut chain = new_chain();
    for bad_height in [0u64, 2, 3, u64::MAX] {
        let block = make_block(chain.tip_hash(), bad_height, vec![]);
        assert_eq!(
            push(&mut chain, &block),
            Err(BlockchainError::InvalidHeight { expected: 1, got: bad_height }),
            "height {bad_height}"
        );
    }
    assert_eq!(chain.height(), 0);
}

#[test]
fn invalid_version_rejected() {
    let mut chain = new_chain();
    // 0 and future versions are both rejected: there is exactly one block
    // format.
    for version in [0u32, PROTOCOL_VERSION + 1] {
        let mut block = child(&chain, vec![]);
        block.header.version = version;
        assert_eq!(push(&mut chain, &block), Err(BlockchainError::InvalidVersion(version)), "version {version}");
    }
}

#[test]
fn too_many_transactions_rejected() {
    let mut chain = new_chain();
    let max = testnet().protocol.max_txs_per_block;
    let txs: Vec<Transaction> = (0..=max).map(|i| register_domain_tx(&format!("d{i}.uip"), 1)).collect();
    let mut block = child(&chain, txs);
    block.header.tx_root = tx_root(&block.transactions).unwrap();
    assert_eq!(push(&mut chain, &block), Err(BlockchainError::TooManyTransactions(max + 1)));
}

#[test]
fn merkle_mismatch_rejected() {
    let mut chain = new_chain();
    let mut block = child(&chain, vec![register_domain_tx("example.uip", 1)]);
    block.header.tx_root = [0xcd; 32];
    assert_eq!(push(&mut chain, &block), Err(BlockchainError::MerkleMismatch));
    assert_eq!(chain.height(), 0);
    assert!(chain.state().is_empty());
}

#[test]
fn merkle_must_cover_block_order() {
    // Same transactions, but the header claims the root of the reversed
    // list.
    let mut chain = new_chain();
    let txs = vec![register_domain_tx("a.uip", 1), register_domain_tx("b.uip", 1)];
    let mut block = child(&chain, txs.clone());
    block.header.tx_root = tx_root(&txs.iter().rev().cloned().collect::<Vec<_>>()).unwrap();
    assert_eq!(push(&mut chain, &block), Err(BlockchainError::MerkleMismatch));
}

#[test]
fn invalid_transaction_rejected_chain_unchanged() {
    let mut chain = new_chain();
    // An update of an unregistered domain.
    assert_eq!(
        grow(&mut chain, vec![update_domain_tx("example.uip", 1, 1)]),
        Err(BlockchainError::UnknownDomain)
    );
    assert_eq!(chain.height(), 0);
    assert!(chain.state().is_empty());
}

#[test]
fn push_is_atomic_per_block() {
    let mut chain = new_chain();
    claim_open_uip(&mut chain, 1);
    let snapshot_state = chain.state().clone();
    let tip = chain.tip_hash();

    let txs = vec![
        register_domain_tx("a.uip", 1),
        register_domain_tx("b.uip", 2),
        register_domain_tx("a.uip", 3), // double register: fails
    ];
    assert_eq!(grow(&mut chain, txs), Err(BlockchainError::DomainAlreadyRegistered));
    assert_eq!(chain.height(), 1);
    assert_eq!(chain.tip_hash(), tip);
    assert!(chain.state().same_state(&snapshot_state));
}

#[test]
fn transaction_order_is_significant() {
    // [tld, register, update] applies; [update, register] does not.
    let mut chain = new_chain();
    claim_open_uip(&mut chain, 1);
    grow(&mut chain, vec![register_domain_tx("example.uip", 1), update_domain_tx("example.uip", 1, 1)]).unwrap();

    let mut chain2 = new_chain();
    assert_eq!(
        grow(&mut chain2, vec![update_domain_tx("example.uip", 1, 1), register_domain_tx("example.uip", 1)]),
        Err(BlockchainError::UnknownDomain)
    );
}

#[test]
fn tld_then_domain_in_same_block_applies_but_not_the_reverse() {
    // The namespace exists when the domain claim applies: transactions
    // apply strictly in block order.
    let mut chain = new_chain();
    grow(
        &mut chain,
        vec![register_tld_tx("uip", 1), set_open_tx("uip", 1, true), register_domain_tx("example.uip", 2)],
    )
    .unwrap();
    assert_eq!(chain.height(), 1);
    assert!(chain.state().domain(&domain_id("example.uip")).is_some());
    assert!(chain.state().tld(&tld_id("uip")).is_some());

    // The other order is rejected whole, and the block is rolled back.
    let mut other = new_chain();
    assert_eq!(
        grow(&mut other, vec![register_domain_tx("example.uip", 2), register_tld_tx("uip", 1)]),
        Err(BlockchainError::UnknownTld)
    );
    assert_eq!(other.height(), 0);
    assert!(other.state().is_empty());
    assert!(other.state().tld_is_empty());
}

#[test]
fn reversed_transactions_different_block_hash() {
    let mut chain = new_chain();
    claim_open_uip(&mut chain, 1);
    let ab = child(&chain, vec![register_domain_tx("a.uip", 1), register_domain_tx("b.uip", 1)]);
    let ba = child(&chain, vec![register_domain_tx("b.uip", 1), register_domain_tx("a.uip", 1)]);
    let hash_ab = push(&mut chain, &ab).unwrap();
    let mut other = new_chain();
    claim_open_uip(&mut other, 1);
    push(&mut other, &ba).unwrap();
    assert_ne!(hash_ab, other.tip_hash());
}

#[test]
fn long_update_chain() {
    let mut chain = new_chain();
    claim_open_uip(&mut chain, 1);
    grow(&mut chain, vec![register_domain_tx("example.uip", 1)]).unwrap();
    for sequence in 1..=50 {
        grow(&mut chain, vec![update_domain_tx("example.uip", 1, sequence)]).unwrap();
    }
    let domain = chain.state().domain(&domain_id("example.uip")).unwrap();
    assert_eq!(domain.sequence, 50);
    assert_eq!(chain.height(), 52);
}

#[test]
fn update_from_previous_block_owner_rules_hold() {
    let mut chain = new_chain();
    claim_open_uip(&mut chain, 1);
    grow(&mut chain, vec![register_domain_tx("example.uip", 1)]).unwrap();
    // Wrong owner, correct sequence.
    assert_eq!(grow(&mut chain, vec![update_domain_tx("example.uip", 2, 1)]), Err(BlockchainError::NotOwner));
    // Wrong owner and wrong sequence: the owner is checked first.
    assert_eq!(grow(&mut chain, vec![update_domain_tx("example.uip", 2, 5)]), Err(BlockchainError::NotOwner));
}

struct RejectHeaders;

impl Consensus for RejectHeaders {
    fn header_fault(&self, _header: HeaderModel) -> Option<BlockchainError> {
        unreachable!("a specification, never run")
    }
    fn tx_hook_fault(&self, _tx: TxModel) -> Option<BlockchainError> {
        unreachable!("a specification, never run")
    }
    fn validate_header(&self, _header: &BlockHeader) -> Result<(), BlockchainError> {
        Err(BlockchainError::Consensus(ConsensusFault::Rule("header rejected".to_string())))
    }
    fn validate_tx(&self, _tx: &Transaction) -> Result<(), BlockchainError> {
        Ok(())
    }
}

struct RejectTx(String);

impl Consensus for RejectTx {
    fn header_fault(&self, _header: HeaderModel) -> Option<BlockchainError> {
        unreachable!("a specification, never run")
    }
    fn tx_hook_fault(&self, _tx: TxModel) -> Option<BlockchainError> {
        unreachable!("a specification, never run")
    }
    fn validate_header(&self, _header: &BlockHeader) -> Result<(), BlockchainError> {
        Ok(())
    }
    fn validate_tx(&self, tx: &Transaction) -> Result<(), BlockchainError> {
        match &tx.body {
            TxBody::RegisterDomain { domain_id: id, .. } if *id == domain_id("pow.uip") => {
                Err(BlockchainError::Consensus(ConsensusFault::Rule(self.0.clone())))
            }
            _ => Ok(()),
        }
    }
}

#[test]
fn consensus_header_hook_can_reject() {
    let mut chain = Blockchain::with_consensus_for_network(RejectHeaders, testnet());
    let block = child(&chain, vec![]);
    assert!(matches!(push(&mut chain, &block), Err(BlockchainError::Consensus(_))));
}

#[test]
fn consensus_tx_hook_can_reject() {
    let mut chain = Blockchain::with_consensus_for_network(RejectTx("pow missing".to_string()), testnet());
    let block = child(&chain, vec![register_domain_tx("pow.uip", 1), register_domain_tx("other.uip", 1)]);
    assert!(matches!(
        push(&mut chain, &block),
        Err(BlockchainError::Consensus(f)) if f.message() == "pow missing"
    ));
    // The chain still accepts blocks without a `pow.uip` register.
    let block = child(
        &chain,
        vec![register_tld_tx("uip", 1), set_open_tx("uip", 1, true), register_domain_tx("other.uip", 1)],
    );
    push(&mut chain, &block).unwrap();
}

#[test]
fn chain_unchanged_after_every_rejection_kind() {
    let mut chain = new_chain();
    claim_open_uip(&mut chain, 1);
    grow(&mut chain, vec![register_domain_tx("example.uip", 1)]).unwrap();
    let (height, tip, state) = (chain.height(), chain.tip_hash(), chain.state().clone());

    let cases: Vec<Block> = vec![
        make_block([9; 32], 1, vec![]),          // unknown parent
        make_block(chain.tip_hash(), 7, vec![]), // bad height
        make_block(chain.tip_hash(), 2, vec![update_domain_tx("no.uip", 1, 1)]), // bad tx
    ];
    for block in cases {
        assert!(push(&mut chain, &block).is_err());
        assert_eq!(chain.height(), height);
        assert_eq!(chain.tip_hash(), tip);
        assert!(chain.state().same_state(&state));
    }

    let mut bad_root = child(&chain, vec![register_domain_tx("z.uip", 1)]);
    bad_root.header.tx_root = [1; 32];
    assert!(push(&mut chain, &bad_root).is_err());
    assert_eq!(chain.height(), height);
}

/// Whatever is flipped in a block, a push returns.
#[test]
fn corrupted_encoded_blocks_never_panic() {
    let mut chain = new_chain();
    claim_open_uip(&mut chain, 1);
    let block = child(&chain, vec![register_domain_tx("example.uip", 1)]);
    push(&mut chain, &block).unwrap();

    for i in 0..32usize {
        for mask in [0x01u8, 0x80, 0xff] {
            let wide = u64::from(mask) << (8 * (i % 8));
            let mut cases: Vec<Block> = (0..8).map(|_| block.clone()).collect();
            cases[0].header.prev_hash[i] ^= mask;
            cases[1].header.tx_root[i] ^= mask;
            cases[2].header.height ^= wide;
            cases[3].header.timestamp ^= wide;
            cases[4].header.version ^= wide as u32;
            cases[5].header.consensus[i] ^= mask;
            cases[6].transactions[0].signature[i] ^= mask;
            cases[7].transactions[0].public_key[i] ^= mask;
            for mut corrupted in cases {
                encode_header(&mut corrupted.header);
                let mut fresh = new_chain();
                let _ = push(&mut fresh, &corrupted);
            }
        }
    }
}

#[test]
fn push_block_with_gc_reports_expired_domains() {
    // The outcome exposes the removals of the collection, so that a store
    // can delete them atomically with the block.
    let mut chain = new_chain();
    claim_open_uip(&mut chain, 1);
    let mut b = child(&chain, vec![register_domain_tx("ghost.uip", 1)]);
    b.header.timestamp = 1000;
    resign(&mut b);
    push(&mut chain, &b).unwrap();
    let ghost = domain_id("ghost.uip");
    assert!(chain.state().domain(&ghost).is_some());
    // The next block lies past expiry, but the collection runs at the time
    // of its parent: one block of lag. The parent of the block after it is
    // past expiry.
    let far = 1000 + 2 * DOMAIN_TERM_SECS;
    let mut lag = child(&chain, vec![]);
    lag.header.timestamp = far;
    resign(&mut lag);
    let applied_lag = push_gc(&mut chain, &lag).unwrap();
    assert!(applied_lag.gc_removed_domains.is_empty());
    let mut after = child(&chain, vec![]);
    after.header.timestamp = far + 1;
    resign(&mut after);
    let applied = push_gc(&mut chain, &after).unwrap();
    assert_eq!(applied.gc_removed_domains, vec![ghost]);
    assert!(chain.state().domain(&ghost).is_none());
    // A plain push returns the hash.
    let mut empty = child(&chain, vec![]);
    empty.header.timestamp = far + 2;
    resign(&mut empty);
    assert_eq!(push(&mut chain, &empty).unwrap(), block_hash(&empty.header).unwrap());
}

#[test]
fn txids_are_stable_across_nodes() {
    // The id of a transaction inside a block does not depend on the node
    // that computes it.
    let tx = register_domain_tx("example.uip", 1);
    let chain = new_chain();
    let block = child(&chain, vec![tx.clone()]);
    assert_eq!(transaction_id(&block.transactions[0]).unwrap(), transaction_id(&tx).unwrap());
}

#[test]
fn forged_signature_is_rejected() {
    let mut chain = new_chain();
    let mut tx = register_domain_tx("example.uip", 1);
    tx.signature[0] ^= 0x01;
    assert_eq!(grow(&mut chain, vec![tx]), Err(BlockchainError::InvalidSignature));
    assert_eq!(chain.height(), 0);
    assert!(chain.state().is_empty());
}

#[test]
fn signature_by_non_matching_key_is_rejected() {
    // Owner and key are those of seed 2, but the key of seed 1 signed.
    let mut chain = new_chain();
    let pk = key(2).public_key();
    let body = register_domain_tx("example.uip", 2).body;
    let tx = encoded_tx(NetworkId::Testnet, owner_of(&pk), pk, body, "", &key(1));
    assert_eq!(grow(&mut chain, vec![tx]), Err(BlockchainError::InvalidSignature));
}

#[test]
fn tampered_payload_after_signing_is_rejected() {
    // Sign correctly, then change what is signed.
    let mut chain = new_chain();
    let tx = register_domain_tx("example.uip", 1);
    let tampered = seal_tx(tx.network, tx.owner, tx.public_key, tx.body.clone(), "timestamp 999", tx.signature);
    assert_eq!(grow(&mut chain, vec![tampered]), Err(BlockchainError::InvalidSignature));
}

#[test]
fn owner_not_derived_from_embedded_key_is_rejected() {
    // A consistent signature by seed 2's key, but a forged owner field.
    let mut chain = new_chain();
    let pk = key(2).public_key();
    let body = register_domain_tx("example.uip", 2).body;
    let tx = encoded_tx(NetworkId::Testnet, owner(9), pk, body, "", &key(2));
    assert_eq!(grow(&mut chain, vec![tx]), Err(BlockchainError::OwnerKeyMismatch));
}

#[test]
fn forged_update_for_someone_elses_domain_is_rejected() {
    // Seed 2 correctly signs an update, but the domain belongs to seed 1.
    let mut chain = new_chain();
    claim_open_uip(&mut chain, 1);
    grow(&mut chain, vec![register_domain_tx("example.uip", 1)]).unwrap();
    let attack = update_domain_tx("example.uip", 2, 1);
    assert_eq!(grow(&mut chain, vec![attack]), Err(BlockchainError::NotOwner));
}

fn assemble() -> Blockchain<PermissiveConsensus> {
    let mut chain = new_chain();
    claim_open_uip(&mut chain, 1);
    grow(&mut chain, vec![register_domain_tx("example.uip", 5)]).unwrap();
    grow(&mut chain, vec![update_domain_tx("example.uip", 5, 1)]).unwrap();
    grow(&mut chain, vec![update_domain_tx("example.uip", 5, 2)]).unwrap();
    chain
}

#[test]
fn signed_chain_genesis_block1_block2_deterministic_replay() {
    let left = assemble();
    let right = assemble();
    assert_eq!(left.height(), 4);
    assert_eq!(left.tip_hash(), right.tip_hash());
    assert!(left.state().same_state(right.state()));
    let domain = left.state().domain(&domain_id("example.uip")).unwrap();
    assert_eq!(domain.sequence, 2);
}

fn restored(chain: &Blockchain<PermissiveConsensus>) -> Blockchain<PermissiveConsensus> {
    let tip = chain.height();
    Blockchain::restore(tip, chain.tip_hash(), chain.block(tip).unwrap().clone(), chain.state().clone())
}

#[test]
fn restored_chain_serves_tip_and_genesis_only_from_ram() {
    // A chain of height 9, restored without replay: only the genesis and
    // the tip are in memory.
    let mut chain = new_chain();
    claim_open_uip(&mut chain, 1);
    grow(&mut chain, vec![register_domain_tx("example.uip", 1)]).unwrap();
    for height in 2..=8 {
        grow(&mut chain, vec![update_domain_tx("example.uip", 1, height - 1)]).unwrap();
    }
    assert_eq!(chain.height(), 9);
    let tip_hash = chain.tip_hash();
    let tip_block = chain.block(9).unwrap().clone();

    let restored = restored(&chain);

    assert_eq!(restored.block(9), Some(&tip_block), "tip is in RAM");
    assert_eq!(restored.block(0), Some(&genesis()), "genesis is in RAM");
    for height in 1..=8 {
        assert!(restored.block(height).is_none(), "height {height} must not be in RAM after restore");
    }
    assert!(restored.block(10).is_none(), "beyond tip");
    assert_eq!(restored.tip_hash(), tip_hash);
    assert_eq!(restored.height(), 9);

    // Blocks pushed after the restore are served: the window extends from
    // the restored tip onward.
    let mut extended = restored;
    let b10 = child(&extended, vec![update_domain_tx("example.uip", 1, 8)]);
    push(&mut extended, &b10).unwrap();
    assert_eq!(extended.block(9), Some(&tip_block));
    assert_eq!(extended.block(10), Some(&b10));
    assert!(extended.block(8).is_none());
}

#[test]
fn replay_window_rejects_reinclusion_then_prunes() {
    // The id of an included transaction is protected for a window of
    // blocks, then its entry is pruned deterministically.
    let mut chain = new_chain();
    claim_open_uip(&mut chain, 1);
    let register = register_domain_tx("d.uip", 1);
    let txid = transaction_id(&register).unwrap();
    grow(&mut chain, vec![register.clone()]).unwrap();
    let tx_h = chain.height(); // 2
    assert!(chain.is_tx_included(&txid));

    // Included again at the last protected height: rejected whole.
    advance(&mut chain, REPLAY_WINDOW_BLOCKS - 1);
    assert_eq!(chain.height(), tx_h + REPLAY_WINDOW_BLOCKS - 1);
    assert!(chain.is_tx_included(&txid), "still inside the window");
    assert_eq!(grow(&mut chain, vec![register.clone()]), Err(BlockchainError::TxReplay));

    // One block later the entry is gone, and the same bytes fall under the
    // ordinary domain rules.
    advance(&mut chain, 1);
    assert_eq!(chain.height(), tx_h + REPLAY_WINDOW_BLOCKS);
    assert!(!chain.is_tx_included(&txid), "TXID pruned at the window boundary");
    assert_eq!(grow(&mut chain, vec![register]), Err(BlockchainError::DomainAlreadyRegistered));
}

/// A chain with one update per block over more than the replay window.
fn busy_chain(extra: u64) -> Blockchain<PermissiveConsensus> {
    let mut chain = new_chain();
    claim_open_uip(&mut chain, 1);
    grow(&mut chain, vec![register_domain_tx("example.uip", 1)]).unwrap();
    for i in 0..extra {
        grow(&mut chain, vec![update_domain_tx("example.uip", 1, i + 1)]).unwrap();
    }
    chain
}

#[test]
fn replay_window_index_is_bounded() {
    let extra: u64 = REPLAY_WINDOW_BLOCKS + 8;
    let chain = busy_chain(extra);
    assert_eq!(chain.replay_index_len() as u64, REPLAY_WINDOW_BLOCKS);
    // The first update is outside the window.
    let first = update_domain_tx("example.uip", 1, 1);
    let id = transaction_id(&first).unwrap();
    assert!(!chain.is_tx_included(&id));
    // The last one is still protected.
    let last = update_domain_tx("example.uip", 1, extra);
    assert!(chain.is_tx_included(&transaction_id(&last).unwrap()));
}

#[test]
fn duplicate_tx_inside_one_block_is_caught_by_state_rules() {
    // The replay index is filled after a successful push: the first copy
    // applies and the second is rejected by the ordinary state rule.
    let mut chain = new_chain();
    claim_open_uip(&mut chain, 1);
    let tx = register_domain_tx("dup.uip", 1);
    assert_eq!(grow(&mut chain, vec![tx.clone(), tx]), Err(BlockchainError::DomainAlreadyRegistered));
}

#[test]
fn restored_chain_rebuilds_replay_index_from_window_entries() {
    // A restore replays no block, so the index starts empty; a store
    // rebuilds it with the same entries at their inclusion heights.
    let mut chain = new_chain();
    claim_open_uip(&mut chain, 1);
    let tx = register_domain_tx("example.uip", 1);
    let id = transaction_id(&tx).unwrap();
    grow(&mut chain, vec![tx]).unwrap();
    assert!(chain.is_tx_included(&id));
    let mut restored = restored(&chain);
    assert!(!restored.is_tx_included(&id), "restore alone still starts empty");
    restored.rebuild_replay_index(&vec![(id, 2)]);
    assert!(restored.is_tx_included(&id));
    assert_eq!(restored.replay_index_len(), 1);
}

#[test]
fn rebuild_replay_index_prunes_like_push_block() {
    let extra = REPLAY_WINDOW_BLOCKS + 8;
    let chain = busy_chain(extra);
    let tip = chain.height();
    let cutoff = tip - REPLAY_WINDOW_BLOCKS;

    let mut restored = restored(&chain);
    // Outside the window: ignored. At the boundary: kept. Duplicates inside
    // the window: one entry per distinct id.
    let old = transaction_id(&update_domain_tx("example.uip", 1, 1)).unwrap();
    let boundary = transaction_id(&update_domain_tx("example.uip", 1, extra - 1)).unwrap();
    let last = transaction_id(&update_domain_tx("example.uip", 1, extra)).unwrap();
    restored.rebuild_replay_index(&vec![
        (old, cutoff),          // == cutoff: pruned
        (boundary, cutoff + 1), // first live height
        (last, tip),
        (last, tip), // duplicate: collapses
    ]);
    assert!(!restored.is_tx_included(&old));
    assert!(restored.is_tx_included(&boundary));
    assert!(restored.is_tx_included(&last));
    assert_eq!(restored.replay_index_len(), 2);
    // An entry above the tip cannot exist canonically: ignored.
    restored.rebuild_replay_index(&vec![(old, tip + 1)]);
    assert!(!restored.is_tx_included(&old));
}

#[test]
fn rebuilt_index_rejects_replay_after_restore() {
    // A transaction included again within the window is rejected on a
    // restored chain too.
    let mut chain = new_chain();
    claim_open_uip(&mut chain, 1);
    let tx = update_domain_tx("example.uip", 1, 1);
    grow(&mut chain, vec![register_domain_tx("example.uip", 1)]).unwrap();
    let tx_h = chain.height() + 1;
    grow(&mut chain, vec![tx.clone()]).unwrap();
    advance(&mut chain, REPLAY_WINDOW_BLOCKS - 1);

    let mut restored = restored(&chain);
    restored.rebuild_replay_index(&vec![(transaction_id(&tx).unwrap(), tx_h)]);
    assert_eq!(grow(&mut restored, vec![tx]), Err(BlockchainError::TxReplay));
}

#[test]
fn bootstrap_without_finality_never_evicts() {
    // Before the first finalized checkpoint nothing leaves memory: a
    // reorganization anywhere must stay possible.
    let mut chain = chain_with_committee();
    advance(&mut chain, RAM_WINDOW_BLOCKS + 20);
    assert_eq!(chain.base_height(), 0);
    assert_eq!(chain.blocks_in_memory() as u64, chain.height() + 1);
    assert!(chain.finality_floor().is_none());
}

#[test]
fn ram_window_bounds_block_footprint() {
    // Finality advances as the chain grows: the footprint stays bounded by
    // the window, blocks and hash index, while the chain keeps validating.
    let mut chain = chain_with_committee();
    let step = 100u64;
    while chain.height() < RAM_WINDOW_BLOCKS + 200 {
        advance(&mut chain, step);
        finalize_tip(&mut chain);
    }
    let tip = chain.height();
    assert!(tip > RAM_WINDOW_BLOCKS + 100);
    assert_eq!(chain.blocks_in_memory() as u64, RAM_WINDOW_BLOCKS + 1, "genesis + window of canonical blocks in RAM");
    assert_eq!(chain.hashes_in_memory(), RAM_WINDOW_BLOCKS as usize + 1);
    // Heights below the window are gone…
    let base = chain.base_height();
    assert_eq!(base, tip - RAM_WINDOW_BLOCKS + 1);
    assert!(chain.block(base - 1).is_none());
    assert_eq!(chain.block_result(base - 1), Err(BlockchainError::BlockPruned { height: base - 1 }));
    // …the window itself is served…
    assert!(chain.block(base).is_some());
    assert!(chain.block(tip).is_some());
    // …and genesis never leaves memory.
    assert_eq!(chain.block(0), Some(&genesis()));

    // A fresh registration still applies and reaches the state.
    grow(&mut chain, vec![register_domain_tx("fresh.uip", 1)]).unwrap();
    assert!(chain.state().domain(&domain_id("fresh.uip")).is_some());
}

#[test]
fn finality_floor_locks_eviction_above_it() {
    // One early checkpoint, then a long chain: eviction never crosses the
    // finality floor, even far outside the window.
    let mut chain = chain_with_committee();
    let to_go = 12 - chain.height();
    advance(&mut chain, to_go);
    assert_eq!(chain.height(), 12);
    finalize_tip(&mut chain);
    let floor = chain.finality_floor().unwrap();
    assert_eq!(floor, 12);
    advance(&mut chain, RAM_WINDOW_BLOCKS + 100);
    let tip = chain.height();
    assert!(tip - floor > RAM_WINDOW_BLOCKS, "window far past the floor");
    assert_eq!(chain.base_height(), floor, "eviction stops at the floor");
    assert!(chain.block(floor - 1).is_none());
    assert_eq!(chain.block_result(floor - 1), Err(BlockchainError::BlockPruned { height: floor - 1 }));
    // The floor block and everything above stayed.
    assert!(chain.block(floor).is_some());
    assert_eq!(chain.blocks_in_memory() as u64, 1 + (tip - floor) + 1, "genesis + floor..=tip retained");
    // Every retained height serves its block and its hash.
    for h in [floor, floor + 1, tip - 1, tip] {
        let b = chain.block(h).expect("retained height");
        assert_eq!(chain.block_hash_at(h), Some(block_hash(&b.header).unwrap()));
    }
}

#[test]
fn pruned_parent_is_a_typed_error_on_every_path() {
    // A block that builds on an evicted one is refused with an error that
    // says so, on the linear push, on the attachment and on the adoption.
    let mut chain = chain_with_committee();
    let to_go = 60 - chain.height();
    advance(&mut chain, to_go);
    let hash50 = block_hash(&chain.block(50).unwrap().header).unwrap();
    finalize_tip(&mut chain); // floor 60
    advance(&mut chain, RAM_WINDOW_BLOCKS + 100);
    assert!(chain.base_height() > 50, "height 50 evicted");

    let orphan = make_block(hash50, 51, vec![]);
    assert_eq!(push(&mut chain, &orphan), Err(BlockchainError::BlockPruned { height: 50 }));
    assert_eq!(attach(&mut chain, &orphan).map(|_| ()), Err(BlockchainError::BlockPruned { height: 50 }));
    let second = make_block(block_hash(&orphan.header).unwrap(), 52, vec![]);
    assert_eq!(adopt(&mut chain, vec![orphan, second]), Err(BlockchainError::BlockPruned { height: 50 }));
    // The chain itself is untouched by the attempts.
    assert!(chain.height() > RAM_WINDOW_BLOCKS + 100);
}

#[test]
fn restored_chain_reports_pruned_below_base() {
    let mut chain = chain_with_committee();
    advance(&mut chain, 10);
    let restored = restored(&chain);
    assert_eq!(restored.block_result(1), Err(BlockchainError::BlockPruned { height: 1 }));
    assert!(restored.block_result(restored.height()).is_ok());
}

/// Production belongs to the owners of live registrations.
#[test]
fn production_is_restricted_to_the_pool() {
    let mut chain = new_chain();
    claim_open_uip(&mut chain, 1);
    let mut block = child(&chain, vec![]);
    resign_as(&mut block, &key(9));
    assert_eq!(push(&mut chain, &block), Err(BlockchainError::InvalidProducer(ProducerFault::NotAllowed)));
    let mut block = child(&chain, vec![]);
    block.header.consensus = vec![1, 2, 3];
    encode_header(&mut block.header);
    assert_eq!(push(&mut chain, &block), Err(BlockchainError::InvalidProducer(ProducerFault::NotAPayload)));
    let mut block = child(&chain, vec![]);
    let n = block.header.consensus.len();
    block.header.consensus[n - 1] ^= 1;
    encode_header(&mut block.header);
    assert_eq!(push(&mut chain, &block), Err(BlockchainError::InvalidProducer(ProducerFault::BadSignature)));
}

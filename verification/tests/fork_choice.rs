use scone::block_hash::block_hash;
use scone::chain::AppliedBlock;
use scone::chain::Blockchain;
use scone::consensus::Consensus;
use scone::consensus::PermissiveConsensus;
use scone::crypto::SigningKey;
use scone::digest::hash256;
use scone::error::BlockchainError;
use scone::error::CheckpointFault;
use scone::error::ConsensusFault;
use scone::finality::Draw;
use scone::finality::SeedSource;
use scone::finality::Tally;
use scone::finality::everyone_in;
use scone::fork_choice::Replay;
use scone::merkle::merkle_root;
use scone::merkle::tx_root;
use scone::producer::encode_producer_payload;
use scone::producer::producer_signing_hash;
use scone::producer::sign_block_hash;
use scone::types::Block;
use scone::types::BlockHeader;
use scone::types::Checkpoint;
use scone::types::CheckpointData;
use scone::types::ConsensusParams;
use scone::types::CoreError;
use scone::types::Encoded;
use scone::types::NetworkId;
use scone::types::NetworkParams;
use scone::types::ProtocolError;
use scone::types::ProtocolParams;
use scone::types::Transaction;
use scone::types::TxBody;
use scone::types::TxChecks;

const PROTOCOL_VERSION: u32 = 1;

fn key(seed: u8) -> SigningKey {
    SigningKey::from_bytes([seed; 32])
}

fn digest(parts: &[&[u8]]) -> [u8; 32] {
    hash256(&parts.concat())
}

fn domain_id(name: &str) -> [u8; 32] {
    digest(&[b"dom:", name.as_bytes()])
}

fn tld_id(tld: &str) -> [u8; 32] {
    digest(&[b"tld:", tld.as_bytes()])
}

/// Identity of a public key.
fn owner_of(pk: &[u8; 32]) -> [u8; 32] {
    digest(&[b"own:", pk])
}

/// What the core layer finds wrong with a body.
fn violation(body: &TxBody) -> Option<CoreError> {
    match body {
        TxBody::UpdateDomain { sequence: 0, .. } => Some(CoreError { code: 1 }),
        _ => None,
    }
}

/// A transaction with its encodings, signed by `signer`.
fn encoded_tx(network: NetworkId, owner: [u8; 32], pk: [u8; 32], body: TxBody, extra: &str, signer: &SigningKey) -> Transaction {
    let payload = format!("{network:?}{owner:?}{pk:?}{body:?}{extra}").into_bytes();
    let signature = signer.sign(&payload);
    seal_tx(network, owner, pk, body, extra, signature)
}

/// A transaction with its encodings and a given signature.
fn seal_tx(network: NetworkId, owner: [u8; 32], pk: [u8; 32], body: TxBody, extra: &str, signature: [u8; 64]) -> Transaction {
    let payload = format!("{network:?}{owner:?}{pk:?}{body:?}{extra}").into_bytes();
    let mut whole = payload.clone();
    whole.extend_from_slice(&signature);
    let bad = violation(&body);
    let (encoding, signing_payload) = match bad {
        Some(_) => (Encoded::Failed(ProtocolError { code: 1 }), Encoded::Failed(ProtocolError { code: 1 })),
        None => (Encoded::Bytes(whole), Encoded::Bytes(payload)),
    };
    Transaction {
        network,
        owner,
        public_key: pk,
        signature,
        body,
        checks: TxChecks {
            encoding,
            signing_payload,
            violation: bad,
            key_owner: owner_of(&pk),
            pow_fault: None,
            reserved_tld: false,
        },
    }
}

fn signed(body: TxBody, seed: u8) -> Transaction {
    let sk = key(seed);
    let pk = sk.public_key();
    encoded_tx(NetworkId::Testnet, owner_of(&pk), pk, body, "", &sk)
}

fn parent_of(name: &str) -> [u8; 32] {
    tld_id(name.rsplit('.').next().unwrap())
}

fn register_domain_tx(name: &str, seed: u8) -> Transaction {
    signed(TxBody::RegisterDomain { name: name.to_string(), domain_id: domain_id(name), parent: parent_of(name) }, seed)
}

fn register_tld_tx(tld: &str, seed: u8) -> Transaction {
    signed(TxBody::RegisterTld { name: tld.to_string(), tld_id: tld_id(tld) }, seed)
}

fn set_open_tx(tld: &str, seed: u8, open: bool) -> Transaction {
    signed(TxBody::SetTldOpen { tld_id: tld_id(tld), open }, seed)
}

/// Canonical bytes of header fields.
fn header_bytes(version: u32, height: u64, prev: &[u8; 32], root: &[u8; 32], ts: u64, consensus: &[u8]) -> Encoded {
    if version != PROTOCOL_VERSION || consensus.len() > 256 {
        return Encoded::Failed(ProtocolError { code: 2 });
    }
    Encoded::Bytes(
        [&version.to_le_bytes()[..], &height.to_le_bytes(), prev, root, &ts.to_le_bytes(), consensus].concat(),
    )
}

/// Recomputes the encodings of a header from its fields.
fn encode_header(h: &mut BlockHeader) {
    h.encoding = header_bytes(h.version, h.height, &h.prev_hash, &h.tx_root, h.timestamp, &h.consensus);
    h.signing_encoding = header_bytes(h.version, h.height, &h.prev_hash, &h.tx_root, h.timestamp, &[]);
}

fn bytes_of(e: Encoded) -> Vec<u8> {
    match e {
        Encoded::Bytes(b) => b,
        Encoded::Failed(_) => panic!("not encodable"),
    }
}

fn network(network_id: NetworkId) -> NetworkParams {
    let name = network_id.as_bytes();
    let root = merkle_root(&[]);
    NetworkParams {
        network_id,
        tld_pow_difficulty: 8,
        domain_pow_difficulty: 4,
        consensus: ConsensusParams { committee_size: 4, recovery_max_epochs: 3, epoch_secs: 3600, epoch_min_blocks: 4 },
        protocol: ProtocolParams {
            version: PROTOCOL_VERSION,
            max_txs_per_block: 64,
            max_consensus_len: 256,
            min_finality_committee: 4,
        },
        genesis_encoding: bytes_of(header_bytes(PROTOCOL_VERSION, 0, &[0; 32], &root, 0, &name)),
        genesis_signing_encoding: bytes_of(header_bytes(PROTOCOL_VERSION, 0, &[0; 32], &root, 0, &[])),
    }
}

fn testnet() -> NetworkParams {
    network(NetworkId::Testnet)
}

/// The keys that a draw elects: the `size` lowest of the pool by the hash
/// of seed and key.
fn elect(d: &Draw) -> Vec<[u8; 32]> {
    let seed = match d.seed {
        SeedSource::Genesis(h) => digest(&[b"next:", &h]),
        SeedSource::Base(s) => s,
        SeedSource::Recovery { seed, counter } => digest(&[b"recovery:", &seed, &counter.to_le_bytes()]),
    };
    let mut ranked: Vec<([u8; 32], [u8; 32])> = d.pool.iter().map(|pk| (digest(&[&seed, pk]), *pk)).collect();
    ranked.sort();
    ranked.into_iter().take(d.size).map(|(_, pk)| pk).collect()
}

/// Union of what some draws elect.
fn elect_all(draws: &[Draw]) -> Vec<[u8; 32]> {
    everyone_in(&draws.iter().map(elect).collect())
}

fn producers<C: Consensus>(chain: &Blockchain<C>, ts: u64) -> Vec<[u8; 32]> {
    elect_all(&chain.allowed_producers(ts))
}

fn push<C: Consensus>(chain: &mut Blockchain<C>, block: &Block) -> Result<[u8; 32], BlockchainError> {
    let allowed = producers(chain, block.header.timestamp);
    chain.push_block(block, &allowed)
}

/// Producer of the test blocks: the owner of `uip`.
fn producer_key() -> SigningKey {
    key(1)
}

/// Signs a block again after its header was changed.
fn resign(block: &mut Block) {
    resign_as(block, &producer_key());
}

fn resign_as(block: &mut Block, sk: &SigningKey) {
    block.header.consensus = Vec::new();
    encode_header(&mut block.header);
    if let Some(sh) = producer_signing_hash(&block.header) {
        let sig = sign_block_hash(sk, &sh);
        block.header.consensus = encode_producer_payload(&sk.public_key(), &sig);
    }
    encode_header(&mut block.header);
}

fn make_block(prev: [u8; 32], height: u64, txs: Vec<Transaction>) -> Block {
    let mut block = Block {
        header: BlockHeader {
            version: PROTOCOL_VERSION,
            height,
            prev_hash: prev,
            tx_root: tx_root(&txs).unwrap(),
            timestamp: height,
            consensus: Vec::new(),
            encoding: Encoded::Bytes(Vec::new()),
            signing_encoding: Encoded::Bytes(Vec::new()),
        },
        transactions: txs,
    };
    resign(&mut block);
    block
}

fn child<C: Consensus>(chain: &Blockchain<C>, txs: Vec<Transaction>) -> Block {
    make_block(chain.tip_hash(), chain.height() + 1, txs)
}

fn new_chain() -> Blockchain<PermissiveConsensus> {
    Blockchain::for_network(testnet())
}

/// Claims `uip` and opens it for self-registration.
fn claim_open_uip(chain: &mut Blockchain<PermissiveConsensus>, seed: u8) {
    let b = child(chain, vec![register_tld_tx("uip", seed), set_open_tx("uip", seed, true)]);
    push(chain, &b).unwrap();
}

/// Length-free content of a checkpoint, as its members sign it.
fn checkpoint_digest(d: &CheckpointData) -> [u8; 32] {
    digest(&[
        b"checkpoint:",
        &d.epoch.to_le_bytes(),
        &d.height.to_le_bytes(),
        &d.block_hash,
        &d.prev_checkpoint_hash,
        &d.state_root,
        &d.recovery.to_le_bytes(),
    ])
}

/// The hash by which the next checkpoint chains.
fn checkpoint_hash(signing_hash: &[u8; 32]) -> [u8; 32] {
    digest(&[b"sealed:", signing_hash])
}

/// The seed that follows a checkpoint.
fn next_seed(hash: &[u8; 32]) -> [u8; 32] {
    digest(&[b"next:", hash])
}

fn quorum_for(n: usize) -> usize {
    n * 2 / 3 + 1
}

/// A checkpoint over some data, signed by the keys of the given seeds.
fn sign_all(data: CheckpointData, seeds: &[u8]) -> Checkpoint {
    let signing_hash = checkpoint_digest(&data);
    let signatures = seeds.iter().map(|s| (key(*s).public_key(), key(*s).sign(&signing_hash))).collect();
    Checkpoint { data, signing_hash, signatures, hash: checkpoint_hash(&signing_hash) }
}

/// Counts the committee members among the signers.
fn tally<C: Consensus>(chain: &Blockchain<C>, cp: &Checkpoint) -> Tally {
    let committee = chain.committee(cp.data.recovery).map(|d| elect(&d)).unwrap_or_default();
    let votes = committee.iter().filter(|m| cp.signatures.iter().any(|s| s.0 == **m)).count();
    let quorum = quorum_for(committee.len());
    Tally { committee: committee.len(), quorum, met: votes >= quorum }
}

fn accept<C: Consensus>(chain: &mut Blockchain<C>, cp: Checkpoint) -> Result<bool, BlockchainError> {
    let t = tally(chain, &cp);
    let seed = next_seed(&cp.hash);
    chain.accept_checkpoint(cp, t, seed)
}

/// Empty blocks advancing the height.
fn advance(chain: &mut Blockchain<PermissiveConsensus>, blocks: u64) {
    for _ in 0..blocks {
        let b = child(chain, vec![]);
        push(chain, &b).unwrap();
    }
}

/// A chain whose pool holds four distinct live owners: finality is
/// available.
fn chain_with_committee() -> Blockchain<PermissiveConsensus> {
    let mut chain = new_chain();
    claim_open_uip(&mut chain, 1);
    for (name, seed) in [("a.uip", 2u8), ("b.uip", 3), ("c.uip", 4)] {
        let b = child(&chain, vec![register_domain_tx(name, seed)]);
        push(&mut chain, &b).unwrap();
    }
    chain
}

/// Finalizes a checkpoint on the current tip, signed by all four owners.
fn finalize_tip(chain: &mut Blockchain<PermissiveConsensus>) {
    let data = chain.checkpoint_data(0).unwrap();
    let committee = elect(&chain.committee(0).unwrap());
    assert!(committee.len() >= 4, "the committee must reach the floor");
    assert_eq!(accept(chain, sign_all(data, &[1, 2, 3, 4])), Ok(true));
}

/// The producers of each block of a replay, padded to `len` lists.
fn lists_for(plan: Result<Option<Replay>, BlockchainError>, first: Vec<[u8; 32]>, len: usize) -> Vec<Vec<[u8; 32]>> {
    let mut lists = Vec::new();
    match plan {
        Ok(Some(mut replay)) => {
            let total = replay.remaining();
            while !replay.is_done() {
                let allowed = elect_all(&replay.allowed_producers());
                let failed = replay.step(&allowed).is_err();
                lists.push(allowed);
                if failed {
                    break;
                }
            }
            lists.resize(total, Vec::new());
        }
        _ => lists.push(first),
    }
    while lists.len() < len {
        lists.push(Vec::new());
    }
    lists
}

fn attach(chain: &mut Blockchain<PermissiveConsensus>, block: &Block) -> Result<AppliedBlock, BlockchainError> {
    let first = producers(chain, block.header.timestamp);
    let lists = lists_for(chain.plan_attach(block), first, block.header.height as usize);
    chain.try_attach(block, &lists)
}

fn adopt(chain: &mut Blockchain<PermissiveConsensus>, blocks: Vec<Block>) -> Result<bool, BlockchainError> {
    let len = blocks.first().map_or(0, |b| b.header.height as usize + blocks.len());
    let lists = lists_for(chain.plan_adoption(&blocks), Vec::new(), len);
    chain.adopt_branch(&blocks, &lists)
}

/// A block building on `parent` at `height`, signed by the producer.
fn child_of_hash(parent: [u8; 32], height: u64) -> Block {
    make_block(parent, height, vec![])
}

/// A child of the tip with another timestamp.
fn child_at_time(chain: &Blockchain<PermissiveConsensus>, timestamp: u64) -> Block {
    let mut b = child(chain, vec![]);
    b.header.timestamp = timestamp;
    resign(&mut b);
    b
}

fn hash_of(b: &Block) -> [u8; 32] {
    block_hash(&b.header).unwrap()
}

/// A chain that claims and opens `uip` and registers `name`.
fn chain_with(name: &str) -> Blockchain<PermissiveConsensus> {
    let mut chain = new_chain();
    claim_open_uip(&mut chain, 1);
    let b = child(&chain, vec![register_domain_tx(name, 1)]);
    push(&mut chain, &b).unwrap();
    chain
}

#[test]
fn sister_block_with_lower_hash_wins_tiebreak() {
    // Two competing blocks at the same height: the lower hash wins on every
    // node.
    let mut a = chain_with("example.uip");
    let h = a.height() + 1;
    let b1 = child_at_time(&a, 100);
    let b2 = child_at_time(&a, 200);
    let (winner, loser) = if hash_of(&b1) < hash_of(&b2) { (&b1, &b2) } else { (&b2, &b1) };
    // Push the loser first.
    push(&mut a, loser).unwrap();
    assert_eq!(a.tip_hash(), hash_of(loser));
    // The winner arrives late: same height, lower hash.
    let applied = attach(&mut a, winner).unwrap();
    assert_eq!(a.tip_hash(), applied.hash);
    assert_eq!(a.tip_hash(), hash_of(winner));
    assert_eq!(a.height(), h);
    // The loser does not come back.
    assert_eq!(attach(&mut a, loser), Err(BlockchainError::ParentNotTip));
    assert_eq!(a.tip_hash(), hash_of(winner));
}

#[test]
fn branch_adoption_longest_wins() {
    let mut a = chain_with("example.uip");
    let fork_point = a.height();
    let b1 = child_at_time(&a, 500);
    let b2 = child_of_hash(hash_of(&b1), fork_point + 2);
    assert_eq!(adopt(&mut a, vec![b1, b2]), Ok(true));
    assert_eq!(a.height(), fork_point + 2);
}

/// A branch no longer than ours and with no lower hash changes nothing.
#[test]
fn losing_branch_is_not_adopted() {
    let mut a = chain_with("example.uip");
    let fork_point = a.height();
    let b1 = child_at_time(&a, 500);
    let b2 = child_of_hash(hash_of(&b1), fork_point + 2);
    let rival = child_at_time(&a, 501);
    push(&mut a, &b1).unwrap();
    push(&mut a, &b2).unwrap();
    let tip = a.tip_hash();
    assert_eq!(adopt(&mut a, vec![rival]), Ok(false));
    assert_eq!(a.tip_hash(), tip);
}

/// A branch whose blocks do not chain is refused.
#[test]
fn broken_branch_is_refused() {
    let mut a = chain_with("example.uip");
    let b1 = child_at_time(&a, 500);
    let b2 = child_of_hash([7; 32], b1.header.height + 1);
    assert_eq!(
        adopt(&mut a, vec![b1, b2]),
        Err(BlockchainError::Consensus(ConsensusFault::BranchDoesNotChain))
    );
}

#[test]
fn finalized_checkpoint_blocks_contradicting_branch() {
    // A single claimer is below the committee floor: acceptance fails.
    let mut a = chain_with("example.uip");
    let cp = sign_all(a.checkpoint_data(0).unwrap(), &[1, 2, 3, 4]);
    assert!(elect(&a.committee(0).unwrap()).len() < 4);
    assert!(accept(&mut a, cp).is_err());

    // With a committee, a branch that forks below the finalized height is
    // refused.
    let mut a = chain_with_committee();
    let fork_parent = a.tip().header.prev_hash;
    let height = a.height();
    finalize_tip(&mut a);
    let mut rival = child_of_hash(fork_parent, height);
    rival.header.timestamp = height + 1;
    resign(&mut rival);
    let second = child_of_hash(hash_of(&rival), height + 1);
    let res = adopt(&mut a, vec![rival, second]);
    assert!(
        matches!(&res, Err(BlockchainError::Consensus(f)) if f.message().contains("finalized")),
        "branch contradicting finality must be refused: {res:?}"
    );
}

#[test]
fn replay_after_reorg_is_bit_exact() {
    // Two nodes that adopt branches in different orders reach the same
    // state.
    let mut left = chain_with("example.uip");
    let mut right = chain_with("example.uip");
    let fork_point = left.height();
    let b1 = child_at_time(&left, 501);
    let b2 = child_of_hash(hash_of(&b1), fork_point + 2);
    adopt(&mut left, vec![b1.clone(), b2.clone()]).unwrap();
    push(&mut right, &b1).unwrap();
    push(&mut right, &b2).unwrap();
    assert_eq!(left.tip_hash(), right.tip_hash());
    assert!(left.state().same_state(right.state()));
}

#[test]
fn accepted_smt_checkpoint_reverifies_after_restore() {
    let mut chain = chain_with_committee();
    let data = chain.checkpoint_data(0).unwrap();
    // The committed root is the canonical one.
    assert_eq!(data.state_root, chain.state().state_root_smt());
    let committee = elect(&chain.committee(0).unwrap());
    assert!(committee.len() >= testnet().protocol.min_finality_committee, "the committee must reach the floor");
    let cp = sign_all(data, &[1, 2, 3, 4]);
    accept(&mut chain, cp.clone()).unwrap();

    // Reload the chain from the tip and the state.
    let tip = chain.height();
    let restored =
        Blockchain::restore(tip, chain.tip_hash(), chain.block(tip).unwrap().clone(), chain.state().clone());
    assert_eq!(
        restored.state().state_root_smt(),
        cp.data.state_root,
        "checkpoint accepted with the SMT root re-verifies after restore"
    );
    // Fresh data over the restored tip commits the same root.
    let re_data = restored.checkpoint_data(0).unwrap();
    assert_eq!(re_data.state_root, cp.data.state_root);
    assert_eq!(re_data.epoch, cp.data.epoch);
}

fn fault(f: CheckpointFault) -> Result<bool, BlockchainError> {
    Err(BlockchainError::Consensus(ConsensusFault::Checkpoint(f)))
}

/// Every refusal of a checkpoint, and the duplicate that is none.
#[test]
fn checkpoint_refusals() {
    let mut chain = chain_with_committee();
    let data = chain.checkpoint_data(0).unwrap();
    let all: &[u8] = &[1, 2, 3, 4];

    let mut d = data;
    d.height = chain.height() + 1;
    assert_eq!(accept(&mut chain, sign_all(d, all)), fault(CheckpointFault::NotInOurChain));
    let mut d = data;
    d.epoch += 1;
    assert_eq!(accept(&mut chain, sign_all(d, all)), fault(CheckpointFault::FirstMustChainGenesis));
    let mut d = data;
    d.state_root = [5; 32];
    assert_eq!(accept(&mut chain, sign_all(d, all)), fault(CheckpointFault::StateRootMismatch));
    assert_eq!(accept(&mut chain, sign_all(data, &[1, 2])), fault(CheckpointFault::QuorumNotMet { need: 3 }));

    let cp = sign_all(data, all);
    assert_eq!(accept(&mut chain, cp.clone()), Ok(true));
    assert_eq!(accept(&mut chain, cp), Ok(false));
    assert_eq!(chain.finality_floor(), Some(4));
    assert_eq!(chain.propose_checkpoint(), None, "too few blocks since the last checkpoint");

    advance(&mut chain, 4);
    let next = chain.propose_checkpoint().unwrap();
    assert_eq!(next.epoch, data.epoch + 1);
    let mut d = next;
    d.epoch += 1;
    assert_eq!(accept(&mut chain, sign_all(d, all)), fault(CheckpointFault::EpochNotNext));
    let mut d = next;
    d.prev_checkpoint_hash = [5; 32];
    assert_eq!(accept(&mut chain, sign_all(d, all)), fault(CheckpointFault::DoesNotChain));
    let mut d = next;
    d.height = 4;
    assert_eq!(accept(&mut chain, sign_all(d, all)), fault(CheckpointFault::HeightNotAdvancing));
    let mut d = next;
    d.recovery = 4;
    assert_eq!(accept(&mut chain, sign_all(d, all)), fault(CheckpointFault::RecoveryBeyondLimit));
    let mut d = next;
    d.recovery = 1;
    assert_eq!(accept(&mut chain, sign_all(d, all)), fault(CheckpointFault::RecoveryTooEarly));
    assert_eq!(accept(&mut chain, sign_all(next, all)), Ok(true));
    assert_eq!(chain.checkpoint_window().len(), 2);
}

/// A finalized tip is not replaced by a sister with a lower hash.
#[test]
fn finalized_tip_is_not_replaced() {
    let mut chain = chain_with_committee();
    let parent = chain.tip().header.prev_hash;
    let height = chain.height();
    finalize_tip(&mut chain);
    let tip = chain.tip_hash();
    for ts in height..height + 20 {
        let mut rival = child_of_hash(parent, height);
        rival.header.timestamp = ts;
        resign(&mut rival);
        assert!(hash_of(&rival) == tip || attach(&mut chain, &rival).is_err());
        assert_eq!(chain.tip_hash(), tip);
    }
}

/// Recovery committees unlock with consensus time.
#[test]
fn recovery_committees_unlock_with_time() {
    let mut chain = chain_with_committee();
    assert!(chain.committee(1).is_none(), "no recovery before the first checkpoint");
    finalize_tip(&mut chain);
    assert!(chain.committee(1).is_some());
    let base_ts = chain.tip().header.timestamp;
    assert_eq!(chain.allowed_producers(base_ts).len(), 1);
    assert_eq!(chain.allowed_producers(base_ts + 3600).len(), 2);
    assert_eq!(chain.allowed_producers(base_ts + 2 * 3600).len(), 3);
    assert_eq!(chain.allowed_producers(base_ts + 100 * 3600).len(), 4);
}

/// Texts of the refusals.
#[test]
fn refusal_texts() {
    assert_eq!(
        CheckpointFault::QuorumNotMet { need: 3 }.message(),
        "checkpoint quorum not met (need 3)"
    );
    assert_eq!(CheckpointFault::CommitteeBelowFloor.message(), "committee below BFT floor: finality deferred");
    assert_eq!(ConsensusFault::ContradictsFinalized.message(), "branch contradicts a finalized checkpoint");
    assert_eq!(ConsensusFault::BranchDoesNotChain.message(), "branch does not chain internally");
}

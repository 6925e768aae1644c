use scone::block_hash::block_hash;
use scone::chain::Blockchain;
use scone::consensus::Consensus;
use scone::consensus::PermissiveConsensus;
use scone::crypto::SigningKey;
use scone::digest::hash256;
use scone::error::BlockchainError;
use scone::finality::Draw;
use scone::finality::SeedSource;
use scone::finality::Tally;
use scone::finality::everyone_in;
use scone::fork_choice::Replay;
use scone::idmap::IdMap;
use scone::merkle::merkle_root;
use scone::merkle::tx_root;
use scone::net::SimNet;
use scone::net::Task;
use scone::parking::best_parked_branch;
use scone::producer::encode_producer_payload;
use scone::producer::producer_signing_hash;
use scone::producer::sign_block_hash;
use scone::rejections::RejectKind;
use scone::signer::StoredState;
use scone::transport::Event;
use scone::transport::EventQueue;
use scone::transport::SimParams;
use scone::transport::mix;
use scone::transport::send_draw;
use scone::txid::transaction_id;
use scone::types::Block;
use scone::types::BlockHeader;
use scone::types::Checkpoint;
use scone::types::CheckpointData;
use scone::types::ConsensusParams;
use scone::types::CoreError;
use scone::types::Encoded;
use scone::types::NetworkId;
use scone::types::NetworkParams;
use scone::types::ProtocolError;
use scone::types::ProtocolParams;
use scone::types::Transaction;
use scone::types::TxBody;
use scone::types::TxChecks;
use std::collections::HashMap;

const PROTOCOL_VERSION: u32 = 1;

fn key(seed: u8) -> SigningKey {
    SigningKey::from_bytes([seed; 32])
}

fn digest(parts: &[&[u8]]) -> [u8; 32] {
    hash256(&parts.concat())
}

fn domain_id(name: &str) -> [u8; 32] {
    digest(&[b"dom:", name.as_bytes()])
}

fn tld_id(tld: &str) -> [u8; 32] {
    digest(&[b"tld:", tld.as_bytes()])
}

/// Identity of a public key.
fn owner_of(pk: &[u8; 32]) -> [u8; 32] {
    digest(&[b"own:", pk])
}

/// What the core layer finds wrong with a body.
fn violation(body: &TxBody) -> Option<CoreError> {
    match body {
        TxBody::UpdateDomain { sequence: 0, .. } => Some(CoreError { code: 1 }),
        _ => None,
    }
}

/// A transaction with its encodings, signed by `signer`.
fn encoded_tx(network: NetworkId, owner: [u8; 32], pk: [u8; 32], body: TxBody, extra: &str, signer: &SigningKey) -> Transaction {
    let payload = format!("{network:?}{owner:?}{pk:?}{body:?}{extra}").into_bytes();
    let signature = signer.sign(&payload);
    seal_tx(network, owner, pk, body, extra, signature)
}

/// A transaction with its encodings and a given signature.
fn seal_tx(network: NetworkId, owner: [u8; 32], pk: [u8; 32], body: TxBody, extra: &str, signature: [u8; 64]) -> Transaction {
    let payload = format!("{network:?}{owner:?}{pk:?}{body:?}{extra}").into_bytes();
    let mut whole = payload.clone();
    whole.extend_from_slice(&signature);
    let bad = violation(&body);
    let (encoding, signing_payload) = match bad {
        Some(_) => (Encoded::Failed(ProtocolError { code: 1 }), Encoded::Failed(ProtocolError { code: 1 })),
        None => (Encoded::Bytes(whole), Encoded::Bytes(payload)),
    };
    Transaction {
        network,
        owner,
        public_key: pk,
        signature,
        body,
        checks: TxChecks {
            encoding,
            signing_payload,
            violation: bad,
            key_owner: owner_of(&pk),
            pow_fault: None,
            reserved_tld: false,
        },
    }
}

fn signed(body: TxBody, seed: u8) -> Transaction {
    let sk = key(seed);
    let pk = sk.public_key();
    encoded_tx(NetworkId::Testnet, owner_of(&pk), pk, body, "", &sk)
}

fn parent_of(name: &str) -> [u8; 32] {
    tld_id(name.rsplit('.').next().unwrap())
}

fn register_domain_tx(name: &str, seed: u8) -> Transaction {
    signed(TxBody::RegisterDomain { name: name.to_string(), domain_id: domain_id(name), parent: parent_of(name) }, seed)
}

fn update_domain_tx(name: &str, seed: u8, sequence: u64) -> Transaction {
    signed(TxBody::UpdateDomain { domain_id: domain_id(name), sequence, record_hash: [sequence as u8; 32] }, seed)
}

fn register_tld_tx(tld: &str, seed: u8) -> Transaction {
    signed(TxBody::RegisterTld { name: tld.to_string(), tld_id: tld_id(tld) }, seed)
}

fn set_open_tx(tld: &str, seed: u8, open: bool) -> Transaction {
    signed(TxBody::SetTldOpen { tld_id: tld_id(tld), open }, seed)
}

/// Canonical bytes of header fields.
fn header_bytes(version: u32, height: u64, prev: &[u8; 32], root: &[u8; 32], ts: u64, consensus: &[u8]) -> Encoded {
    if version != PROTOCOL_VERSION || consensus.len() > 256 {
        return Encoded::Failed(ProtocolError { code: 2 });
    }
    Encoded::Bytes(
        [&version.to_le_bytes()[..], &height.to_le_bytes(), prev, root, &ts.to_le_bytes(), consensus].concat(),
    )
}

/// Recomputes the encodings of a header from its fields.
fn encode_header(h: &mut BlockHeader) {
    h.encoding = header_bytes(h.version, h.height, &h.prev_hash, &h.tx_root, h.timestamp, &h.consensus);
    h.signing_encoding = header_bytes(h.version, h.height, &h.prev_hash, &h.tx_root, h.timestamp, &[]);
}

fn bytes_of(e: Encoded) -> Vec<u8> {
    match e {
        Encoded::Bytes(b) => b,
        Encoded::Failed(_) => panic!("not encodable"),
    }
}

fn network(network_id: NetworkId) -> NetworkParams {
    let name = network_id.as_bytes();
    let root = merkle_root(&[]);
    NetworkParams {
        network_id,
        tld_pow_difficulty: 8,
        domain_pow_difficulty: 4,
        consensus: ConsensusParams { committee_size: 4, recovery_max_epochs: 3, epoch_secs: 3600, epoch_min_blocks: 4 },
        protocol: ProtocolParams {
            version: PROTOCOL_VERSION,
            max_txs_per_block: 64,
            max_consensus_len: 256,
            min_finality_committee: 4,
        },
        genesis_encoding: bytes_of(header_bytes(PROTOCOL_VERSION, 0, &[0; 32], &root, 0, &name)),
        genesis_signing_encoding: bytes_of(header_bytes(PROTOCOL_VERSION, 0, &[0; 32], &root, 0, &[])),
    }
}

fn testnet() -> NetworkParams {
    network(NetworkId::Testnet)
}

/// The keys that a draw elects: the `size` lowest of the pool by the hash
/// of seed and key.
fn elect(d: &Draw) -> Vec<[u8; 32]> {
    let seed = match d.seed {
        SeedSource::Genesis(h) => digest(&[b"next:", &h]),
        SeedSource::Base(s) => s,
        SeedSource::Recovery { seed, counter } => digest(&[b"recovery:", &seed, &counter.to_le_bytes()]),
    };
    let mut ranked: Vec<([u8; 32], [u8; 32])> = d.pool.iter().map(|pk| (digest(&[&seed, pk]), *pk)).collect();
    ranked.sort();
    ranked.into_iter().take(d.size).map(|(_, pk)| pk).collect()
}

/// Union of what some draws elect.
fn elect_all(draws: &[Draw]) -> Vec<[u8; 32]> {
    everyone_in(&draws.iter().map(elect).collect())
}

fn producers<C: Consensus>(chain: &Blockchain<C>, ts: u64) -> Vec<[u8; 32]> {
    elect_all(&chain.allowed_producers(ts))
}

fn push<C: Consensus>(chain: &mut Blockchain<C>, block: &Block) -> Result<[u8; 32], BlockchainError> {
    let allowed = producers(chain, block.header.timestamp);
    chain.push_block(block, &allowed)
}

/// Producer of the test blocks: the owner of `uip`.
fn producer_key() -> SigningKey {
    key(1)
}

/// Signs a block again after its header was changed.
fn resign(block: &mut Block) {
    resign_as(block, &producer_key());
}

fn resign_as(block: &mut Block, sk: &SigningKey) {
    block.header.consensus = Vec::new();
    encode_header(&mut block.header);
    if let Some(sh) = producer_signing_hash(&block.header) {
        let sig = sign_block_hash(sk, &sh);
        block.header.consensus = encode_producer_payload(&sk.public_key(), &sig);
    }
    encode_header(&mut block.header);
}

fn make_block(prev: [u8; 32], height: u64, txs: Vec<Transaction>) -> Block {
    let mut block = Block {
        header: BlockHeader {
            version: PROTOCOL_VERSION,
            height,
            prev_hash: prev,
            tx_root: tx_root(&txs).unwrap(),
            timestamp: height,
            consensus: Vec::new(),
            encoding: Encoded::Bytes(Vec::new()),
            signing_encoding: Encoded::Bytes(Vec::new()),
        },
        transactions: txs,
    };
    resign(&mut block);
    block
}

fn child<C: Consensus>(chain: &Blockchain<C>, txs: Vec<Transaction>) -> Block {
    make_block(chain.tip_hash(), chain.height() + 1, txs)
}

fn new_chain() -> Blockchain<PermissiveConsensus> {
    Blockchain::for_network(testnet())
}

/// Claims `uip` and opens it for self-registration.
fn claim_open_uip(chain: &mut Blockchain<PermissiveConsensus>, seed: u8) {
    let b = child(chain, vec![register_tld_tx("uip", seed), set_open_tx("uip", seed, true)]);
    push(chain, &b).unwrap();
}

/// Length-free content of a checkpoint, as its members sign it.
fn checkpoint_digest(d: &CheckpointData) -> [u8; 32] {
    digest(&[
        b"checkpoint:",
        &d.epoch.to_le_bytes(),
        &d.height.to_le_bytes(),
        &d.block_hash,
        &d.prev_checkpoint_hash,
        &d.state_root,
        &d.recovery.to_le_bytes(),
    ])
}

/// The hash by which the next checkpoint chains.
fn checkpoint_hash(signing_hash: &[u8; 32]) -> [u8; 32] {
    digest(&[b"sealed:", signing_hash])
}

/// The seed that follows a checkpoint.
fn next_seed(hash: &[u8; 32]) -> [u8; 32] {
    digest(&[b"next:", hash])
}

fn quorum_for(n: usize) -> usize {
    n * 2 / 3 + 1
}

/// The producers of each block of a replay, padded to `len` lists.
fn lists_for(plan: Result<Option<Replay>, BlockchainError>, first: Vec<[u8; 32]>, len: usize) -> Vec<Vec<[u8; 32]>> {
    let mut lists = Vec::new();
    match plan {
        Ok(Some(mut replay)) => {
            let total = replay.remaining();
            while !replay.is_done() {
                let allowed = elect_all(&replay.allowed_producers());
                let failed = replay.step(&allowed).is_err();
                lists.push(allowed);
                if failed {
                    break;
                }
            }
            lists.resize(total, Vec::new());
        }
        _ => lists.push(first),
    }
    while lists.len() < len {
        lists.push(Vec::new());
    }
    lists
}

/// A network with what stands outside of it: the stored guard states.
struct Sim {
    net: SimNet,
    disks: Vec<Option<Vec<u8>>>,
    /// Whether storing fails.
    broken: bool,
}

impl Sim {
    fn new(params: SimParams) -> Sim {
        let disks = (0..params.nodes).map(|_| None).collect();
        Sim { net: SimNet::new(params, testnet()), disks, broken: false }
    }

    fn stored(&self, node: usize) -> StoredState {
        match &self.disks[node] {
            None => StoredState::Missing,
            Some(b) => StoredState::Bytes(b.clone()),
        }
    }

    fn restart(&mut self, node: usize) {
        let stored = self.stored(node);
        self.net.restart(node, stored);
    }

    /// Handles events until something holds or the run is over.
    fn run_until(&mut self, pred: impl Fn(&SimNet) -> bool) {
        while !pred(&self.net) && !self.net.is_over() {
            let Some(mut tasks) = self.net.step() else { return };
            tasks.reverse();
            while let Some(task) = tasks.pop() {
                let mut more = self.perform(task);
                more.reverse();
                tasks.append(&mut more);
            }
        }
    }

    fn committee(&self, node: usize, recovery: u32) -> Vec<[u8; 32]> {
        self.net.chain(node).committee(recovery).map(|d| elect(&d)).unwrap_or_default()
    }

    fn perform(&mut self, task: Task) -> Vec<Task> {
        match task {
            Task::Block { node, block } => {
                let chain = self.net.chain(node);
                let first = producers(chain, block.header.timestamp);
                let fits = block.header.prev_hash == chain.tip_hash();
                let lists = if fits || !chain.knows(&block.header.prev_hash) {
                    vec![first]
                } else {
                    lists_for(chain.plan_attach(&block), first, 1)
                };
                self.net.handle_block(node, block, &lists)
            }
            Task::SyncPush { node, blocks, done } => {
                let ts = blocks.get(done).map_or(0, |b| b.header.timestamp);
                let allowed = producers(self.net.chain(node), ts);
                self.net.handle_sync_batch(node, blocks, done, &allowed)
            }
            Task::SyncAdopt { node, blocks } => {
                let lists = lists_for(self.net.chain(node).plan_adoption(&blocks), Vec::new(), 0);
                self.net.adopt_batch(node, blocks, &lists)
            }
            Task::Progress { node, block } => self.net.after_progress(node, block),
            Task::Announce { node, msg } => {
                self.net.gossip(node, &msg);
                Vec::new()
            }
            Task::Anchor { node } => {
                let committee = self.committee(node, 0);
                let hash = match self.net.chain(node).propose_checkpoint() {
                    Some(d) => checkpoint_digest(&d),
                    None => [0; 32],
                };
                self.net.anchor_round(node, &committee, &hash)
            }
            Task::Drain { node, count } => {
                let ts = self.net.node(node).next_waiting().map_or(0, |b| b.header.timestamp);
                let allowed = producers(self.net.chain(node), ts);
                self.net.drain_node(node, count, &allowed)
            }
            Task::Adopt { node, drained } => {
                let branch = self.net.node(node).parked_branch();
                let lists = lists_for(self.net.chain(node).plan_adoption(&branch), Vec::new(), 0);
                self.net.adopt_parked(node, drained, &lists)
            }
            Task::Checkpoint { node, proposal } => self.net.handle_checkpoint(node, proposal),
            Task::Vote { node, proposal } => {
                let committee = self.committee(node, proposal.data.recovery);
                self.net.checkpoint_vote(node, proposal, &committee)
            }
            Task::Store { node, proposal, signature, alone } => {
                if !self.broken {
                    self.disks[node] = Some(signature.state_bytes().clone());
                }
                self.net.release_vote(node, proposal, signature, alone, !self.broken)
            }
            Task::Finalize { node } => self.net.begin_finalize(node),
            Task::Count { node, hashes } => {
                let recovery = self.net.node(node).pending_recovery(&hashes[0]).unwrap_or(0);
                let committee = self.committee(node, recovery);
                let quorum = quorum_for(committee.len());
                self.net.try_finalize(node, hashes, &committee, quorum)
            }
            Task::Seal { node, proposal, committee, quorum, hashes } => {
                let hash = checkpoint_hash(&proposal.signing_hash);
                let met = proposal.signatures.len() >= quorum;
                let cp = Checkpoint {
                    data: proposal.data,
                    signing_hash: proposal.signing_hash,
                    signatures: proposal.signatures,
                    hash,
                };
                self.net.seal(node, cp, Tally { committee, quorum, met }, next_seed(&hash), hashes)
            }
            Task::Produce { group } => {
                let ts = self.net.production_time(group).unwrap_or(0);
                let allowed = (0..self.net.node_count()).map(|i| producers(self.net.chain(i), ts)).collect();
                let committee = self.net.best_node(group).map(|i| self.committee(i, 0)).unwrap_or_default();
                self.net.produce(group, &committee, &allowed)
            }
            Task::Build { node, timestamp, txs } => {
                let n = self.net.node(node);
                let d = n.draft_header(timestamp, &txs).unwrap();
                let signing = header_bytes(d.version, d.height, &d.prev_hash, &d.tx_root, d.timestamp, &[]);
                let payload = n.own_payload(&signing).unwrap();
                let whole = header_bytes(d.version, d.height, &d.prev_hash, &d.tx_root, d.timestamp, &payload);
                let allowed = producers(self.net.chain(node), timestamp);
                self.net.build_block(node, timestamp, txs, &signing, &whole, &allowed)
            }
            Task::Sync { tick, node } => {
                let stored = self.stored(node);
                self.net.try_sync(tick, node, stored);
                Vec::new()
            }
        }
    }
}

/// Claims and opens `uip`, then registers one domain per further key, all
/// through the first node.
fn bootstrap(sim: &mut Sim) {
    sim.net.submit(0, register_tld_tx("uip", 1));
    // The claim lands everywhere before the namespace is opened.
    sim.run_until(|n| n.logical_tick() > 400);
    sim.net.submit(0, set_open_tx("uip", 1, true));
    sim.run_until(|n| n.logical_tick() > 700);
    let members = u8::try_from(sim.net.node_count().saturating_sub(1)).unwrap_or(7);
    for s in 2u8..(members + 2) {
        sim.net.submit(0, register_domain_tx(&format!("d{s}.uip"), s));
    }
    sim.run_until(|n| n.logical_tick() > 1400 && n.chain(0).state().tld_len() >= 1 && n.max_height() >= 6);
}

/// Every epoch in the checkpoint windows of two nodes holds one content.
fn assert_cross_window_safety(net: &SimNet) {
    let mut windows: HashMap<u64, [u8; 32]> = HashMap::new();
    for i in 0..net.node_count() {
        for cp in net.chain(i).checkpoint_window() {
            if let Some(p) = windows.insert(cp.data.epoch, cp.signing_hash) {
                assert_eq!(p, cp.signing_hash, "epoch {} disagrees across checkpoint windows", cp.data.epoch);
            }
        }
    }
}

#[test]
fn passive_network_gossips() {
    let mut sim = Sim::new(SimParams {
        nodes: 4,
        seed: 0x0F0F,
        loss_permille: 0,
        latency_ticks: (1, 2),
        horizon: 20_000,
        ..SimParams::default()
    });
    sim.net.stop_production();
    sim.net.submit(0, register_tld_tx("uip", 1));
    sim.run_until(|n| n.logical_tick() > 100);
    // No blocks without a producer, but the transaction moved.
    for i in 0..sim.net.node_count() {
        assert_eq!(sim.net.height(i), 0);
    }
    assert!(sim.net.stats().sent > 0, "gossip moved messages");
}

/// Two owners race on the same domain: exactly one update wins, the other
/// gets a clean rejection. Blocks come every 20 ticks, not every 6: with 8
/// nodes the signature checks of a faster chain take too long.
#[test]
fn concurrent_tx() {
    let mut sim = Sim::new(SimParams {
        nodes: 8,
        seed: 0xC0AC,
        loss_permille: 10,
        latency_ticks: (1, 3),
        produce_interval: 20,
        sync_interval: 31,
        horizon: 200_000,
        ..SimParams::default()
    });
    bootstrap(&mut sim);
    let racer = domain_id("race.uip");
    sim.net.submit(0, register_domain_tx("race.uip", 9));
    sim.run_until(|n| n.chain(0).state().domain(&racer).is_some() && n.converged());
    let update = |seed: u8, record: u8| {
        signed(TxBody::UpdateDomain { domain_id: racer, sequence: 1, record_hash: [record; 32] }, seed)
    };
    let owner_update = update(9, 0xAA);
    let intruder_update = update(13, 0xBB);
    // Both enter the network concurrently through distinct nodes.
    sim.net.submit(1, owner_update);
    sim.net.submit(2, intruder_update.clone());
    sim.run_until(|n| n.chain(0).state().domain(&racer).is_some_and(|d| d.sequence == 1) && n.converged());
    let net = &sim.net;

    // Exactly one update won, and it is the owner's.
    let dom = net.chain(0).state().domain(&racer).expect("registered");
    assert_eq!(dom.sequence, 1, "exactly one update applied");
    assert_eq!(dom.record_hash, Some([0xAA; 32]), "the non-owner update must never win");
    assert!(
        net.rejections().get(RejectKind::NotOwner) >= 1,
        "the losing racer must observe a clean typed rejection"
    );
    assert!(net.rejections().nonzero().iter().any(|(k, _)| k.name() == "not_owner"));
    // Every node agrees.
    for i in 0..net.node_count() {
        let dom = net.chain(i).state().domain(&racer).expect("registered everywhere");
        assert_eq!(dom.sequence, 1, "node {i} applied more than one update");
        assert_eq!(dom.record_hash, Some([0xAA; 32]));
    }
    // The rejected transaction never entered any canonical chain.
    let id = transaction_id(&intruder_update).expect("fixture encodes");
    for i in 0..net.node_count() {
        assert!(!net.chain(i).is_tx_included(&id), "the rejected tx must never be included (node {i})");
    }
}

/// Eight nodes, 5 % loss: every node ends on the same tip and state root.
/// The run is short, 90 blocks of 20 ticks and not 500 of 7: every block is
/// verified by every node, and that is where the time goes.
#[test]
fn convergence_simple() {
    let mut sim = Sim::new(SimParams {
        nodes: 8,
        seed: 0xC0A0,
        loss_permille: 50,
        latency_ticks: (1, 5),
        produce_interval: 20,
        horizon: 240_000,
        ..SimParams::default()
    });
    bootstrap(&mut sim);
    sim.net.submit(0, register_domain_tx("conv.uip", 9));
    sim.run_until(|n| n.max_height() >= 90 && n.converged());
    let net = &sim.net;

    let tip = net.tip(0);
    let root = net.state_root(0);
    let height = net.height(0);
    assert!(height >= 90, "target height reached: {height}");
    for i in 0..net.node_count() {
        assert!(net.alive(i), "node {i} never crashed");
        assert_eq!(net.tip(i), tip, "node {i} diverged on the tip");
        assert_eq!(net.state_root(i), root, "node {i} diverged on the state root");
    }
    // At least one checkpoint was finalized, and never two of one epoch.
    let epochs = net.finalized_epochs();
    assert!(!epochs.is_empty(), "finality never happened in 90 blocks");
    assert!(epochs.windows(2).all(|w| w[0].0 < w[1].0), "two incompatible checkpoints finalized");
}

/// A node crashes, restarts later and catches up by replaying blocks. The run
/// is short: down at height 75 and back at 85, not at 200 and 400.
#[test]
fn crash_restart() {
    let mut sim = Sim::new(SimParams {
        nodes: 8,
        seed: 0xC47A,
        loss_permille: 20,
        latency_ticks: (1, 4),
        produce_interval: 20,
        sync_interval: 29,
        horizon: 500_000,
        ..SimParams::default()
    });
    bootstrap(&mut sim);
    let victim = 5;
    sim.run_until(|n| n.max_height() >= 75 && n.converged());
    sim.net.crash(victim);
    sim.net.submit(0, register_domain_tx("post-crash.uip", 11));
    sim.run_until(|n| n.max_height() >= 85 && n.converged());
    assert!(!sim.net.alive(victim));
    assert_eq!(sim.net.height(victim), 0, "RAM lost on crash");

    sim.restart(victim);
    sim.run_until(|n| n.converged() && n.height(victim) >= 85);
    let net = &sim.net;
    assert_eq!(net.height(victim), net.height(0), "victim resynced");
    assert_eq!(net.tip(victim), net.tip(0), "victim tip matches");
    assert_eq!(net.state_root(victim), net.state_root(0), "victim state differs from its peers after resync");
    assert!(
        net.chain(victim).state().domain(&domain_id("post-crash.uip")).is_some(),
        "the resynced node replayed the blocks mined while it was down"
    );
    assert_cross_window_safety(net);
}

/// Second copies change neither height nor state nor finality. The runs are
/// short: 50 blocks of 30 ticks, not 260 of 6.
#[test]
fn duplicate_and_delay() {
    let run = |dup: u32| {
        let mut sim = Sim::new(SimParams {
            nodes: 6,
            seed: 0xD0DE,
            loss_permille: 10,
            dup_permille: dup,
            produce_interval: 30,
            sync_interval: 31,
            horizon: 200_000,
            ..SimParams::default()
        });
        bootstrap(&mut sim);
        sim.net.submit(0, register_domain_tx("dup.uip", 12));
        sim.run_until(|n| n.max_height() >= 50 && n.converged());
        let s = sim.net.stats();
        (sim.net.max_height(), sim.net.state_root(0), s.checkpoints_finalized, s.duplicates_sent)
    };
    let clean = run(0);
    let twice = run(100);
    assert_eq!(clean.3, 0, "clean run must not duplicate");
    assert!(twice.3 > 0, "no second copy was sent");
    assert_eq!(clean.0, twice.0, "duplication changed the final height");
    assert_eq!(clean.1, twice.1, "duplication changed the final state root");
    assert_eq!(clean.2, twice.2, "duplication changed finality");
}

/// Both sides of a split network go on producing and diverge, and no epoch
/// is ever finalized with two contents.
#[test]
fn split_network_stays_safe() {
    let mut sim = Sim::new(SimParams {
        nodes: 8,
        seed: 0xDA17,
        loss_permille: 20,
        latency_ticks: (1, 4),
        produce_interval: 50,
        sync_interval: 37,
        horizon: 500_000,
        ..SimParams::default()
    });
    bootstrap(&mut sim);
    // Different traffic on each side.
    sim.net.submit(0, register_domain_tx("left.uip", 9));
    sim.net.submit(4, register_domain_tx("right.uip", 10));
    sim.run_until(|n| n.max_height() >= 40 && n.converged());
    sim.run_until(|n| n.max_height() - n.height(4) <= 2 && n.max_height() >= 30);
    sim.net.partition(&vec![vec![0, 1, 2, 3], vec![4, 5, 6, 7]]);
    let (split_a, split_b) = (sim.net.height(0), sim.net.height(4));
    sim.run_until(|n| {
        n.height(0).saturating_sub(split_a) >= 25 && n.height(4).saturating_sub(split_b) >= 25
    });
    let (ha, hb) = (sim.net.height(0), sim.net.height(4));
    assert!(ha > split_a && hb > split_b, "both sides kept producing");
    assert_ne!(sim.net.tip(0), sim.net.tip(4), "the two sides genuinely diverged");
    assert!(sim.net.stats().producer_timeouts > 0, "stand-ins cover the leaders of the other side");
    assert_cross_window_safety(&sim.net);
    sim.net.stop_production();
    sim.net.heal();
    let healed = sim.net.logical_tick();
    sim.run_until(|n| n.logical_tick() > healed + 200);
    assert_cross_window_safety(&sim.net);
}

/// A node in no part of a partition reaches nobody, not even another such
/// node.
#[test]
fn isolated_nodes_reach_nobody() {
    let params = SimParams { nodes: 4, loss_permille: 0, ..SimParams::default() };
    let mut sim = Sim::new(params);
    sim.net.stop_production();
    sim.net.partition(&Vec::new());
    sim.net.submit(0, register_tld_tx("uip", 1));
    sim.run_until(|n| n.logical_tick() > 200);
    assert_eq!(sim.net.stats().sent, 0);
    assert_eq!(sim.net.node(0).sync_count(), 0, "there is nobody to ask");
    sim.net.heal();
    sim.run_until(|n| n.logical_tick() > 400);
    assert!(sim.net.stats().sent > 0);
}

/// A crashed node starts again like a new one.
#[test]
fn crash_forgets_everything() {
    let mut sim = Sim::new(SimParams { nodes: 2, loss_permille: 0, ..SimParams::default() });
    sim.run_until(|n| n.logical_tick() > 150);
    assert!(sim.net.height(1) > 0);
    assert!(sim.net.node(1).sync_count() > 0);
    sim.net.crash(1);
    assert!(!sim.net.alive(1));
    assert_eq!(sim.net.height(1), 0);
    assert_eq!(sim.net.node(1).sync_count(), 0);
    assert_eq!(sim.net.node(1).last_progress(), 0);
    sim.restart(1);
    assert!(sim.net.alive(1));
    assert_eq!(sim.net.node(1).last_progress(), sim.net.logical_tick());
}

/// After the first finality the committee takes turns by height; a stand-in
/// comes after two idle intervals.
#[test]
fn leaders_take_turns() {
    let mut sim = Sim::new(SimParams {
        nodes: 5,
        loss_permille: 0,
        produce_interval: 60,
        sign_interval: 4,
        ..SimParams::default()
    });
    bootstrap(&mut sim);
    sim.run_until(|n| n.converged() && (0..5).all(|i| n.chain(i).finalized().is_some()));
    let builder = |sim: &mut Sim| {
        let ts = sim.net.production_time(0).unwrap();
        let allowed = (0..5).map(|i| producers(sim.net.chain(i), ts)).collect();
        let top = sim.net.best_node(0).unwrap();
        let committee = sim.committee(top, 0);
        match sim.net.produce(0, &committee, &allowed).pop() {
            Some(Task::Build { node, .. }) => Some(node),
            _ => None,
        }
    };
    let committee = sim.committee(0, 0);
    let next = sim.net.height(0) + 1;
    let turn = committee[(next as usize) % committee.len()];
    let leader = builder(&mut sim).expect("there is a leader");
    assert_eq!(sim.net.node_pk(leader), turn);
    assert_eq!(sim.net.stats().producer_timeouts, 0);
    // A crashed leader is waited for, then covered.
    sim.net.stop_production();
    sim.net.crash(leader);
    assert_eq!(builder(&mut sim), None, "the group is not idle yet");
    let top = sim.net.best_node(0).unwrap();
    let idle_at = sim.net.node(top).last_progress() + 2 * 60;
    sim.run_until(|n| n.logical_tick() >= idle_at);
    let other = builder(&mut sim).expect("somebody stands in");
    assert_ne!(other, leader);
    assert_eq!(sim.net.stats().producer_timeouts, 1);
}

/// The mixer and the draws have these values.
#[test]
fn draws_are_determined_by_the_seed() {
    assert_eq!(mix(0), 0xE220_A839_7B1D_CDAF);
    assert_eq!(mix(0x9E37_79B9_7F4A_7C15), 0x6E78_9E6A_A1B9_65F4);
    let p = SimParams::default();
    for seq in 0..500 {
        let d = send_draw(&p, seq);
        assert_eq!(d, send_draw(&p, seq));
        assert!((1..=5).contains(&d.latency));
        assert!((1..=8).contains(&d.dup_delay));
        assert!(!d.dup, "no second copy at zero per mille");
    }
    let all = SimParams { loss_permille: 1000, ..p };
    assert!(send_draw(&all, 7).lost);
    assert!((0..2000).filter(|s| send_draw(&p, *s).lost).count().abs_diff(100) < 60);
}

/// Events of one tick keep the order in which they were scheduled.
#[test]
fn queue_is_stable() {
    let mut q = EventQueue::new();
    assert!(q.is_empty());
    for (tick, node) in [(5u64, 0usize), (3, 1), (5, 2), (1, 3), (3, 4)] {
        q.place(tick, Event::Sync { node });
    }
    let mut seen = Vec::new();
    while let Some((tick, e)) = q.pop_first() {
        match e {
            Event::Sync { node } => seen.push((tick, node)),
            _ => unreachable!(),
        }
    }
    assert_eq!(seen, vec![(1, 3), (3, 1), (3, 4), (5, 0), (5, 2)]);
}

/// The best parked branch is the longest, then the one with the lowest tip.
#[test]
fn longest_parked_branch_wins() {
    let mut chain = new_chain();
    claim_open_uip(&mut chain, 1);
    let tip = chain.tip_hash();
    let mut parked: IdMap<Block> = IdMap::new();
    assert!(best_parked_branch(&parked, &chain).is_empty());
    let hash = |b: &Block| block_hash(&b.header).unwrap();
    let block = |prev: [u8; 32], height: u64, ts: u64| {
        let mut b = make_block(prev, height, vec![]);
        b.header.timestamp = ts;
        resign(&mut b);
        b
    };
    // An orphan is on no branch.
    let orphan = block([9; 32], 2, 1);
    parked.insert(hash(&orphan), orphan);
    assert!(best_parked_branch(&parked, &chain).is_empty());
    let a = block(tip, 2, 2);
    let b = block(tip, 2, 3);
    parked.insert(hash(&a), a.clone());
    parked.insert(hash(&b), b.clone());
    let lower = if hash(&a) < hash(&b) { &a } else { &b };
    assert_eq!(best_parked_branch(&parked, &chain), vec![lower.clone()]);
    // A longer line wins over a lower hash.
    let higher = if hash(&a) < hash(&b) { &b } else { &a };
    let next = block(hash(higher), 3, 4);
    parked.insert(hash(&next), next.clone());
    assert_eq!(best_parked_branch(&parked, &chain), vec![higher.clone(), next]);
}

/// Unknown, malformed and repeated transactions.
#[test]
fn transactions_are_screened() {
    let mut sim = Sim::new(SimParams { nodes: 2, loss_permille: 0, ..SimParams::default() });
    sim.net.stop_production();
    let mut forged = register_tld_tx("uip", 1);
    forged.signature[0] ^= 1;
    let mut broken = register_tld_tx("uip", 1);
    broken.checks.encoding = Encoded::Failed(ProtocolError { code: 1 });
    for tx in [
        forged,
        broken,
        register_domain_tx("a.uip", 1),
        update_domain_tx("a.uip", 1, 1),
        set_open_tx("uip", 1, true),
        register_tld_tx("uip", 1),
        register_tld_tx("uip", 1),
    ] {
        sim.net.submit(0, tx);
    }
    sim.run_until(|n| n.logical_tick() > 200);
    let seen = sim.net.rejections().nonzero();
    assert_eq!(
        seen,
        vec![
            (RejectKind::TxInvalid, 1),
            (RejectKind::TxMalformed, 1),
            (RejectKind::UnknownDomain, 1),
            (RejectKind::UnknownTld, 2),
        ]
    );
}

/// A failed write withholds the vote.
#[test]
fn unstored_votes_are_withheld() {
    let mut sim = Sim::new(SimParams {
        nodes: 5,
        loss_permille: 0,
        produce_interval: 60,
        sign_interval: 4,
        ..SimParams::default()
    });
    bootstrap(&mut sim);
    assert!(sim.net.rejections().get(RejectKind::SignerRefused) == 0);
    sim.broken = true;
    let epochs = sim.net.finalized_epochs().len();
    sim.run_until(|n| n.rejections().get(RejectKind::SignerRefused) > 0);
    assert!(sim.net.rejections().get(RejectKind::SignerRefused) > 0);
    assert_eq!(sim.net.finalized_epochs().len(), epochs, "nothing is finalized without votes");
}

#[test]
fn parameters_are_checked() {
    assert!(SimParams::default().is_usable());
    assert!(!SimParams { nodes: 1, ..SimParams::default() }.is_usable());
    assert!(!SimParams { latency_ticks: (0, 3), ..SimParams::default() }.is_usable());
    assert!(!SimParams { latency_ticks: (4, 3), ..SimParams::default() }.is_usable());
}

#[test]
fn committees_are_united() {
    let (a, b, c) = ([1u8; 32], [2u8; 32], [3u8; 32]);
    assert_eq!(everyone_in(&vec![vec![a, b], vec![], vec![b, c, a]]), vec![a, b, c]);
    assert!(everyone_in(&Vec::new()).is_empty());
}

//! One node of the deterministic network model: its chain, its pool of
//! waiting transactions, its parked blocks, and what it has seen, signed and
//! collected.
pub mod blocks;
pub mod votes;

use vstd::prelude::*;
use std::collections::HashMap;
use crate::block_hash::block_hash;
use crate::block_hash::hash_of_header;
use crate::chain::Blockchain;
use crate::chain_model::ChainModel;
use crate::chain_model::genesis_chain;
use crate::consensus::PermissiveConsensus;
use crate::crypto::SigningKey;
use crate::crypto::ed25519_public;
use crate::entry::digest_of;
use crate::entry::lemma_digest_of;
use crate::error::BlockchainError;
use crate::fork_model::attach_lists;
use crate::fork_model::attached;
use crate::fork_model::producer_lists;
use crate::fork_model::tried;
use crate::idmap::IdMap;
use crate::ids::BlockHash;
use crate::ids::Digest;
use crate::ids::PublicKey;
use crate::ids::Signature;
use crate::ids::same_id;
use crate::net::rounds::STUCK_LIMIT;
use crate::parking::PARKED_CAP;
use crate::parking::make_room;
use crate::parking::parked_models;
use crate::parking::with_room;
use crate::rejections::RejectKind;
use crate::rejections::classify;
use crate::rejections::kind_of;
use crate::signer::GuardModel;
use crate::signer::SignerGuard;
use crate::signer::StoredState;
use crate::signer::guard_of;
use crate::transport::add_up;
use crate::transport::plus;
use crate::txid::TxId;
use crate::txid::transaction_id;
use crate::txid::tx_id;
use crate::types::Block;
use crate::types::BlockModel;
use crate::types::CheckpointData;
use crate::types::NetworkModel;
use crate::types::NetworkParams;
use crate::types::Transaction;
use crate::types::TxBody;
use crate::types::TxModel;
use crate::types::tx_models;
use crate::validate::signature_fault;
use crate::validate::validate_transaction;

verus! {

/// Waiting transactions of a node at most.
pub const MEMPOOL_CAP: usize = 512;

/// What became of an offered block.
#[derive(Clone, Copy, Debug, PartialEq, Eq, Structural)]
pub enum BlockOutcome {
    /// It is part of the chain now.
    Accepted,
    /// It was seen before.
    Duplicate,
    /// Its parent is not known: it waits for the missing blocks.
    ParkedOrphan,
    /// Its parent is known, but it does not win: it may end up in a branch.
    ParkedKnown,
    Rejected(RejectKind),
}

/// What became of an offered transaction.
#[derive(Clone, Copy, Debug, PartialEq, Eq, Structural)]
pub enum TxOutcome {
    New,
    Duplicate,
    Rejected(RejectKind),
}

/// Signatures collected for one checkpoint content.
pub struct Aggregate {
    pub data: CheckpointData,
    pub sigs: IdMap<Signature>,
}

/// Collected signatures as values.
pub open spec fn aggregate_models(pending: Map<Digest, Aggregate>) -> Map<
    Digest,
    (CheckpointData, Map<PublicKey, Signature>),
> {
    pending.map_values(|a: Aggregate| (a.data, a.sigs@))
}

/// Waiting transactions as values.
pub open spec fn pool_models(pool: Seq<(TxId, Transaction)>) -> Seq<(Digest, TxModel)> {
    pool.map_values(|e: (TxId, Transaction)| (e.0@, e.1@))
}

/// A node.
pub struct SimNode {
    pub(crate) alive: bool,
    pub(crate) key: SigningKey,
    pub(crate) pk: PublicKey,
    pub(crate) chain: Blockchain<PermissiveConsensus>,
    pub(crate) guard: SignerGuard,
    pub(crate) mempool: Vec<(TxId, Transaction)>,
    pub(crate) parked: IdMap<Block>,
    pub(crate) seen_blocks: IdMap<()>,
    pub(crate) seen_txs: IdMap<()>,
    pub(crate) signed_cps: IdMap<()>,
    pub(crate) epoch_committed: HashMap<u64, Digest>,
    pub(crate) pending: IdMap<Aggregate>,
    pub(crate) last_progress_tick: u64,
    pub(crate) sync_counter: u64,
    pub(crate) stuck_rounds: u64,
}

/// A node as a value.
#[verifier::ext_equal]
pub struct NodeModel {
    pub alive: bool,
    /// Seed of the signing key.
    pub seed: Seq<u8>,
    pub pk: PublicKey,
    pub chain: ChainModel,
    pub guard: GuardModel,
    /// Waiting transactions with their ids, oldest first.
    pub mempool: Seq<(Digest, TxModel)>,
    /// Blocks without a place in the chain, by hash.
    pub parked: Map<Digest, BlockModel>,
    pub seen_blocks: Set<Digest>,
    pub seen_txs: Set<Digest>,
    /// Checkpoint contents that the node signed since it started.
    pub signed_cps: Set<Digest>,
    /// First checkpoint content seen of each epoch.
    pub epoch_committed: Map<u64, Digest>,
    /// Signatures collected for each checkpoint content.
    pub pending: Map<Digest, (CheckpointData, Map<PublicKey, Signature>)>,
    pub last_progress_tick: u64,
    pub sync_counter: u64,
    /// Rounds in which parked blocks found no place.
    pub stuck_rounds: u64,
}

impl View for SimNode {
    type V = NodeModel;

    closed spec fn view(&self) -> NodeModel {
        NodeModel {
            alive: self.alive,
            seed: self.key.seed(),
            pk: self.pk,
            chain: self.chain@,
            guard: self.guard@,
            mempool: pool_models(self.mempool@),
            parked: parked_models(self.parked@),
            seen_blocks: self.seen_blocks@.dom(),
            seen_txs: self.seen_txs@.dom(),
            signed_cps: self.signed_cps@.dom(),
            epoch_committed: self.epoch_committed@,
            pending: aggregate_models(self.pending@),
            last_progress_tick: self.last_progress_tick,
            sync_counter: self.sync_counter,
            stuck_rounds: self.stuck_rounds,
        }
    }
}

/// The seed byte of a node's key.
pub open spec fn node_seed(id: usize) -> u8 {
    ((id % 256 + 1) % 256) as u8
}

/// A seed of one byte repeated.
pub open spec fn repeated(b: u8) -> Seq<u8> {
    Seq::new(32, |i: int| b)
}

/// A node that has just started for the first time.
pub open spec fn fresh_node(id: usize, p: NetworkModel, stored: StoredState) -> NodeModel {
    NodeModel {
        alive: true,
        seed: repeated(node_seed(id)),
        pk: digest_of(ed25519_public(repeated(node_seed(id)))),
        chain: genesis_chain(p),
        guard: guard_of(stored),
        mempool: Seq::empty(),
        parked: Map::empty(),
        seen_blocks: Set::empty(),
        seen_txs: Set::empty(),
        signed_cps: Set::empty(),
        epoch_committed: Map::empty(),
        pending: Map::empty(),
        last_progress_tick: 0,
        sync_counter: 0,
        stuck_rounds: 0,
    }
}

/// The node after a crash: all that it held in memory is gone. Its key, and
/// its guard as far as it is stored, outlive it.
pub open spec fn crashed(n: NodeModel) -> NodeModel {
    NodeModel {
        alive: false,
        chain: genesis_chain(n.chain.network),
        mempool: Seq::empty(),
        parked: Map::empty(),
        seen_blocks: Set::empty(),
        seen_txs: Set::empty(),
        signed_cps: Set::empty(),
        epoch_committed: Map::empty(),
        pending: Map::empty(),
        last_progress_tick: 0,
        sync_counter: 0,
        stuck_rounds: 0,
        ..n
    }
}

/// The node after a restart: its guard is read back.
pub open spec fn restarted_node(n: NodeModel, tick: u64, stored: StoredState) -> NodeModel {
    NodeModel { alive: true, guard: guard_of(stored), last_progress_tick: tick, ..n }
}

/// Whether a block is the next one of a chain.
pub open spec fn fits_tip(m: ChainModel, b: BlockModel) -> bool {
    b.header.prev_hash == m.tip && b.header.height == m.height() + 1
}

/// The node after a block was offered to it, and what became of the block.
pub open spec fn offered(n: NodeModel, b: BlockModel, lists: Seq<Seq<PublicKey>>) -> (NodeModel, BlockOutcome) {
    match hash_of_header(b.header) {
        Err(_) => (n, BlockOutcome::Rejected(RejectKind::BadHeader)),
        Ok(h) => if n.seen_blocks.contains(h) {
            (n, BlockOutcome::Duplicate)
        } else {
            let r = NodeModel { seen_blocks: n.seen_blocks.insert(h), parked: with_room(n.parked), ..n };
            if fits_tip(n.chain, b) {
                match tried(n.chain, b, lists[0]) {
                    (c, None) => (NodeModel { chain: c, ..r }, BlockOutcome::Accepted),
                    (c, Some(e)) => (NodeModel { chain: c, ..r }, BlockOutcome::Rejected(kind_of(e))),
                }
            } else if n.chain.knows(b.header.prev_hash) {
                match attached(n.chain, b, lists) {
                    (c, None) => (NodeModel { chain: c, ..r }, BlockOutcome::Accepted),
                    (c, Some(_)) => (
                        NodeModel { chain: c, parked: r.parked.insert(h, b), ..r },
                        BlockOutcome::ParkedKnown,
                    ),
                }
            } else {
                (NodeModel { parked: r.parked.insert(h, b), ..r }, BlockOutcome::ParkedOrphan)
            }
        },
    }
}

/// The number of producer lists that offering a block takes.
pub open spec fn offer_lists(n: NodeModel, b: BlockModel) -> nat {
    if hash_of_header(b.header) is Err || n.seen_blocks.contains(hash_of_header(b.header)->Ok_0) {
        0
    } else if fits_tip(n.chain, b) {
        1
    } else if n.chain.knows(b.header.prev_hash) {
        attach_lists(n.chain, b)
    } else {
        0
    }
}

/// Why the current state refuses a transaction at first sight, if it does.
pub open spec fn precheck_fault(m: ChainModel, t: TxModel) -> Option<BlockchainError> {
    match t.body {
        TxBody::RegisterDomain { domain_id, parent, .. } => match m.state.tld(parent) {
            None => Some(BlockchainError::UnknownTld),
            Some(tld) => if !tld.open {
                Some(BlockchainError::TldClosed)
            } else if m.state.domain(domain_id) is Some {
                Some(BlockchainError::DomainAlreadyRegistered)
            } else {
                None
            },
        },
        TxBody::UpdateDomain { domain_id, sequence, .. } => match m.state.domain(domain_id) {
            None => Some(BlockchainError::UnknownDomain),
            Some(st) => if sequence != st.sequence + 1 {
                Some(
                    BlockchainError::InvalidSequence {
                        expected: if st.sequence == u64::MAX {
                            u64::MAX
                        } else {
                            (st.sequence + 1) as u64
                        },
                        got: sequence,
                    },
                )
            } else if st.owner != t.owner {
                Some(BlockchainError::NotOwner)
            } else {
                None
            },
        },
        TxBody::RegisterTld { tld_id, .. } => if m.state.tld(tld_id) is Some {
            Some(BlockchainError::TldAlreadyRegistered)
        } else {
            None
        },
        TxBody::SetTldOpen { tld_id, .. } => match m.state.tld(tld_id) {
            None => Some(BlockchainError::UnknownTld),
            Some(tld) => if tld.owner != t.owner {
                Some(BlockchainError::NotTldOwner)
            } else {
                None
            },
        },
        _ => None,
    }
}

/// Whether a transaction waits under an id.
pub open spec fn waits(pool: Seq<(Digest, TxModel)>, id: Digest) -> bool {
    exists|i: int| 0 <= i < pool.len() && (#[trigger] pool[i]).0 == id
}

/// The waiting transactions with one more; the oldest makes room at the cap.
pub open spec fn pooled(pool: Seq<(Digest, TxModel)>, id: Digest, t: TxModel) -> Seq<(Digest, TxModel)> {
    if pool.len() >= MEMPOOL_CAP {
        pool.skip(1).push((id, t))
    } else {
        pool.push((id, t))
    }
}

/// The node after a transaction was offered to it, and what became of it.
pub open spec fn received(n: NodeModel, t: TxModel) -> (NodeModel, TxOutcome) {
    match tx_id(t) {
        Err(_) => (n, TxOutcome::Rejected(RejectKind::TxMalformed)),
        Ok(id) => if n.seen_txs.contains(id) || waits(n.mempool, id) {
            (n, TxOutcome::Duplicate)
        } else if signature_fault(t) is Some {
            (n, TxOutcome::Rejected(RejectKind::TxInvalid))
        } else {
            match precheck_fault(n.chain, t) {
                Some(e) => (n, TxOutcome::Rejected(kind_of(e))),
                None => if n.chain.included.contains_key(id) {
                    (n, TxOutcome::Rejected(RejectKind::TxReplay))
                } else {
                    (
                        NodeModel { seen_txs: n.seen_txs.insert(id), mempool: pooled(n.mempool, id, t), ..n },
                        TxOutcome::New,
                    )
                },
            }
        },
    }
}

/// The waiting transactions without those under an id.
pub open spec fn without(pool: Seq<(Digest, TxModel)>, id: Digest) -> Seq<(Digest, TxModel)>
    decreases pool.len(),
{
    if pool.len() == 0 {
        pool
    } else if pool.last().0 == id {
        without(pool.drop_last(), id)
    } else {
        without(pool.drop_last(), id).push(pool.last())
    }
}

/// The node after some transactions became part of its chain: they wait no
/// longer.
pub open spec fn settled(n: NodeModel, txs: Seq<TxModel>) -> NodeModel
    decreases txs.len(),
{
    if txs.len() == 0 {
        n
    } else {
        let p = settled(n, txs.drop_last());
        match tx_id(txs.last()) {
            Err(_) => p,
            Ok(id) => NodeModel { seen_txs: p.seen_txs.insert(id), mempool: without(p.mempool, id), ..p },
        }
    }
}

/// The node after its chain moved at a tick.
pub open spec fn progressed(n: NodeModel, tick: u64, txs: Seq<TxModel>) -> NodeModel {
    settled(NodeModel { last_progress_tick: tick, stuck_rounds: 0, ..n }, txs)
}

/// Why the current state refuses a transaction at first sight, if it does.
/// The full rules run again when a block is pushed.
pub fn precheck_tx(chain: &Blockchain<PermissiveConsensus>, tx: &Transaction) -> (r: Option<BlockchainError>)
    requires
        chain.wf(),
    ensures
        r == precheck_fault(chain@, tx@),
{
    let state = chain.state();
    match &tx.body {
        TxBody::RegisterDomain { domain_id, parent, .. } => match state.tld(parent) {
            None => Some(BlockchainError::UnknownTld),
            Some(tld) => {
                if !tld.open {
                    Some(BlockchainError::TldClosed)
                } else if state.domain(domain_id).is_some() {
                    Some(BlockchainError::DomainAlreadyRegistered)
                } else {
                    None
                }
            },
        },
        TxBody::UpdateDomain { domain_id, sequence, .. } => match state.domain(domain_id) {
            None => Some(BlockchainError::UnknownDomain),
            Some(st) => {
                if st.sequence == u64::MAX || *sequence != st.sequence + 1 {
                    Some(
                        BlockchainError::InvalidSequence {
                            expected: if st.sequence == u64::MAX { u64::MAX } else { st.sequence + 1 },
                            got: *sequence,
                        },
                    )
                } else if !same_id(&st.owner, &tx.owner) {
                    Some(BlockchainError::NotOwner)
                } else {
                    None
                }
            },
        },
        TxBody::RegisterTld { tld_id, .. } => {
            if state.tld(tld_id).is_some() {
                Some(BlockchainError::TldAlreadyRegistered)
            } else {
                None
            }
        },
        TxBody::SetTldOpen { tld_id, .. } => match state.tld(tld_id) {
            None => Some(BlockchainError::UnknownTld),
            Some(tld) => {
                if !same_id(&tld.owner, &tx.owner) {
                    Some(BlockchainError::NotTldOwner)
                } else {
                    None
                }
            },
        },
        _ => None,
    }
}

impl SimNode {
    /// Every part is in order.
    pub closed spec fn wf(&self) -> bool {
        &&& self.chain.wf()
        &&& self.guard.wf()
        &&& self.parked.wf()
        &&& self.seen_blocks.wf()
        &&& self.seen_txs.wf()
        &&& self.signed_cps.wf()
        &&& self.pending.wf()
        &&& forall|h: Digest| #[trigger] self.pending@.contains_key(h) ==> self.pending@[h].sigs.wf()
        &&& self.pk@ == ed25519_public(self.key.seed())
    }

    /// A node that starts for the first time.
    pub fn new(id: usize, network: NetworkParams, stored: StoredState) -> (node: SimNode)
        ensures
            node.wf(),
            node@ == fresh_node(id, network@, stored),
    {
        broadcast use vstd::std_specs::hash::group_hash_axioms;

        let seed: u8 = ((id % 256 + 1) % 256) as u8;
        let secret: [u8; 32] = [seed; 32];
        let key = SigningKey::from_bytes(secret);
        let pk = key.public_key();
        let node = SimNode {
            alive: true,
            key,
            pk,
            chain: Blockchain::for_network(network),
            guard: SignerGuard::load(stored),
            mempool: Vec::new(),
            parked: IdMap::new(),
            seen_blocks: IdMap::new(),
            seen_txs: IdMap::new(),
            signed_cps: IdMap::new(),
            epoch_committed: HashMap::new(),
            pending: IdMap::new(),
            last_progress_tick: 0,
            sync_counter: 0,
            stuck_rounds: 0,
        };
        proof {
            assert(secret@ =~= repeated(seed));
            lemma_digest_of(pk);
            assert(node@ =~= fresh_node(id, network@, stored));
        }
        node
    }

    /// Whether the node runs.
    pub fn is_alive(&self) -> (r: bool)
        ensures
            r == self@.alive,
    {
        self.alive
    }

    /// The node's chain.
    pub fn chain(&self) -> (chain: &Blockchain<PermissiveConsensus>)
        requires
            self.wf(),
        ensures
            chain.wf(),
            chain@ == self@.chain,
    {
        &self.chain
    }

    /// The node's public key.
    pub fn public_key(&self) -> (pk: PublicKey)
        ensures
            pk == self@.pk,
    {
        self.pk
    }

    /// When the node's chain last moved, or the node started again.
    pub fn last_progress(&self) -> (tick: u64)
        ensures
            tick == self@.last_progress_tick,
    {
        self.last_progress_tick
    }

    /// Requests for blocks that the node has made.
    pub fn sync_count(&self) -> (n: u64)
        ensures
            n == self@.sync_counter,
    {
        self.sync_counter
    }

    /// Counts a request for blocks. A node that is stuck with a full parking
    /// starts over, with the guard as it is stored.
    pub fn begin_ask(&mut self, tick: u64, stored: StoredState)
        requires
            old(self).wf(),
        ensures
            final(self).wf(),
            final(self)@ == ({
                let counted = NodeModel { sync_counter: plus(old(self)@.sync_counter, 1), ..old(self)@ };
                if counted.stuck_rounds > STUCK_LIMIT && counted.parked.len() >= PARKED_CAP {
                    restarted_node(crashed(counted), tick, stored)
                } else {
                    counted
                }
            }),
    {
        self.sync_counter = add_up(self.sync_counter, 1);
        let full = self.parked.len() >= PARKED_CAP;
        assert(self@.parked.dom() =~= self.parked@.dom());
        if self.stuck_rounds > STUCK_LIMIT && full {
            self.crash();
            self.restart(tick, stored);
        }
    }

    /// Ends a request for blocks under the greatest height of the network: a
    /// node that has it needs no parked block, and one with parked blocks
    /// counts another round without a place for them.
    pub fn finish_ask(&mut self, top: u64)
        requires
            old(self).wf(),
        ensures
            final(self).wf(),
            final(self)@ == ({
                let kept = old(self)@;
                let cleared = if kept.chain.height() >= top {
                    NodeModel { parked: Map::empty(), ..kept }
                } else {
                    kept
                };
                if cleared.parked.len() == 0 {
                    NodeModel { stuck_rounds: 0, ..cleared }
                } else {
                    NodeModel { stuck_rounds: plus(cleared.stuck_rounds, 1), ..cleared }
                }
            }),
    {
        if self.chain.height() >= top {
            self.parked = IdMap::new();
            assert(parked_models(self.parked@) =~= Map::empty());
        }
        let size: usize = self.parked.len();
        assert(self@.parked.dom() =~= self.parked@.dom());
        if size == 0 {
            self.stuck_rounds = 0;
        } else {
            self.stuck_rounds = add_up(self.stuck_rounds, 1);
        }
    }

    /// Forgets the rounds in which parked blocks found no place.
    pub fn clear_stuck(&mut self)
        requires
            old(self).wf(),
        ensures
            final(self).wf(),
            final(self)@ == (NodeModel { stuck_rounds: 0, ..old(self)@ }),
    {
        self.stuck_rounds = 0;
    }

    /// Offers a block: pushed on the tip, attached beside it, or parked.
    /// `producers` holds the keys that may produce the blocks to push.
    pub fn accept_block(&mut self, block: &Block, producers: &Vec<Vec<PublicKey>>) -> (outcome: BlockOutcome)
        requires
            old(self).wf(),
            producers@.len() >= offer_lists(old(self)@, block@),
        ensures
            final(self).wf(),
            (final(self)@, outcome) == offered(old(self)@, block@, producer_lists(producers@)),
    {
        let ghost n = self@;
        let h: BlockHash = match block_hash(&block.header) {
            Err(_) => {
                return BlockOutcome::Rejected(RejectKind::BadHeader);
            },
            Ok(h) => h,
        };
        if self.seen_blocks.contains_key(&h) {
            return BlockOutcome::Duplicate;
        }
        self.seen_blocks.insert(h, ());
        make_room(&mut self.parked);
        let ghost r = NodeModel { seen_blocks: n.seen_blocks.insert(h), parked: with_room(n.parked), ..n };
        assert(self@ =~= r);
        let header = &block.header;
        let tip = self.chain.tip_hash();
        if header.height > 0 && header.height - 1 == self.chain.height() && same_id(&header.prev_hash, &tip) {
            let refusal = self.chain.offer(block, &producers[0]);
            return match refusal {
                None => BlockOutcome::Accepted,
                Some(e) => BlockOutcome::Rejected(classify(&e)),
            };
        }
        let known = self.chain.knows(&header.prev_hash);
        if known {
            if self.chain.try_attach(block, producers).is_ok() {
                return BlockOutcome::Accepted;
            }
        }
        let ghost p = self.parked@;
        self.parked.insert(h, block.clone());
        assert(parked_models(self.parked@) =~= parked_models(p).insert(h, block@));
        if known {
            BlockOutcome::ParkedKnown
        } else {
            BlockOutcome::ParkedOrphan
        }
    }

    /// Whether a transaction waits under an id.
    fn has_waiting(&self, id: &TxId) -> (r: bool)
        ensures
            r == waits(self@.mempool, id@),
    {
        let mut i: usize = 0;
        while i < self.mempool.len()
            invariant
                i <= self.mempool@.len(),
                forall|j: int| 0 <= j < i ==> (#[trigger] self@.mempool[j]).0 != id@,
            decreases self.mempool@.len() - i,
        {
            assert(self@.mempool[i as int] == (self.mempool@[i as int].0@, self.mempool@[i as int].1@));
            if same_id(self.mempool[i].0.as_bytes(), id.as_bytes()) {
                return true;
            }
            i += 1;
        }
        false
    }

    /// Offers a transaction: checked in full, checked against the state, and
    /// put among those that wait.
    pub fn accept_tx(&mut self, tx: &Transaction) -> (outcome: TxOutcome)
        requires
            old(self).wf(),
        ensures
            final(self).wf(),
            (final(self)@, outcome) == received(old(self)@, tx@),
    {
        let ghost n = self@;
        let id: TxId = match transaction_id(tx) {
            Err(_) => {
                return TxOutcome::Rejected(RejectKind::TxMalformed);
            },
            Ok(id) => id,
        };
        if self.seen_txs.contains_key(id.as_bytes()) || self.has_waiting(&id) {
            return TxOutcome::Duplicate;
        }
        if validate_transaction(tx).is_err() {
            return TxOutcome::Rejected(RejectKind::TxInvalid);
        }
        match precheck_tx(&self.chain, tx) {
            Some(e) => {
                return TxOutcome::Rejected(classify(&e));
            },
            None => {},
        }
        if self.chain.is_tx_included(&id) {
            return TxOutcome::Rejected(RejectKind::TxReplay);
        }
        self.seen_txs.insert(*id.as_bytes(), ());
        let ghost before = self.mempool@;
        if self.mempool.len() >= MEMPOOL_CAP {
            self.mempool.remove(0);
            assert(pool_models(self.mempool@) =~= pool_models(before).skip(1));
        }
        let ghost room = self.mempool@;
        self.mempool.push((id, tx.clone()));
        proof {
            assert(pool_models(self.mempool@) =~= pool_models(room).push((id@, tx@)));
            assert(self@.seen_txs =~= n.seen_txs.insert(id@));
        }
        TxOutcome::New
    }

    /// Drops the transactions that wait under an id.
    fn drop_waiting(&mut self, id: &TxId)
        requires
            old(self).wf(),
        ensures
            final(self).wf(),
            final(self)@ == (NodeModel { mempool: without(old(self)@.mempool, id@), ..old(self)@ }),
    {
        let ghost n = self@;
        let ghost all = self@.mempool;
        let mut i: usize = 0;
        let ghost mut k: int = 0;
        proof {
            assert(all.take(0) =~= Seq::empty());
            assert(self@.mempool.take(0) =~= without(all.take(0), id@));
            assert(self@.mempool.skip(0) =~= all.skip(0));
        }
        while i < self.mempool.len()
            invariant
                self.wf(),
                i <= self.mempool@.len(),
                0 <= k <= all.len(),
                all.len() - k == self.mempool@.len() - i,
                self@ == (NodeModel { mempool: self@.mempool, ..n }),
                self@.mempool.take(i as int) == without(all.take(k), id@),
                self@.mempool.skip(i as int) == all.skip(k),
            decreases self.mempool@.len() - i,
        {
            let ghost pool = self@.mempool;
            proof {
                assert(pool.skip(i as int)[0] == all.skip(k)[0]);
                assert(pool[i as int] == all[k]);
                assert(all.take(k + 1).drop_last() =~= all.take(k));
                assert(all.take(k + 1).last() == all[k]);
            }
            if same_id(self.mempool[i].0.as_bytes(), id.as_bytes()) {
                let ghost before = self.mempool@;
                self.mempool.remove(i);
                proof {
                    assert(self@.mempool =~= pool.remove(i as int));
                    assert(self@.mempool.take(i as int) =~= pool.take(i as int));
                    assert(self@.mempool.skip(i as int) =~= all.skip(k + 1)) by {
                        assert forall|j: int| 0 <= j < all.len() - k - 1 implies #[trigger] self@.mempool.skip(i as int)[j]
                            == all.skip(k + 1)[j] by {
                            assert(pool.skip(i as int)[j + 1] == all.skip(k)[j + 1]);
                        }
                    }
                }
            } else {
                proof {
                    assert(pool.take(i + 1) =~= pool.take(i as int).push(pool[i as int]));
                    assert(pool.skip(i + 1) =~= all.skip(k + 1)) by {
                        assert forall|j: int| 0 <= j < all.len() - k - 1 implies #[trigger] pool.skip(i + 1)[j] == all.skip(
                            k + 1,
                        )[j] by {
                            assert(pool.skip(i as int)[j + 1] == all.skip(k)[j + 1]);
                        }
                    }
                }
                i += 1;
            }
            proof {
                k = k + 1;
            }
        }
        proof {
            assert(self@.mempool.take(i as int) =~= self@.mempool);
            assert(all.take(k) =~= all);
        }
    }

    /// Takes note that the chain moved and that some transactions are part
    /// of it.
    pub fn note_progress(&mut self, tick: u64, txs: &Vec<Transaction>)
        requires
            old(self).wf(),
        ensures
            final(self).wf(),
            final(self)@ == progressed(old(self)@, tick, tx_models(txs@)),
    {
        self.last_progress_tick = tick;
        self.stuck_rounds = 0;
        let ghost n = self@;
        let ghost all = tx_models(txs@);
        let mut i: usize = 0;
        assert(all.take(0) =~= Seq::empty());
        while i < txs.len()
            invariant
                self.wf(),
                i <= txs@.len(),
                all == tx_models(txs@),
                self@ == settled(n, all.take(i as int)),
            decreases txs@.len() - i,
        {
            proof {
                assert(all.take(i + 1).drop_last() =~= all.take(i as int));
                assert(all.take(i + 1).last() == txs@[i as int]@);
            }
            match transaction_id(&txs[i]) {
                Ok(id) => {
                    let ghost p = self@;
                    self.seen_txs.insert(*id.as_bytes(), ());
                    assert(self@ =~= (NodeModel { seen_txs: p.seen_txs.insert(id@), ..p }));
                    self.drop_waiting(&id);
                },
                Err(_) => {},
            }
            i += 1;
        }
        assert(all.take(i as int) =~= all);
    }

    /// Forgets what a crashed process loses: all that it held in memory.
    pub fn crash(&mut self)
        requires
            old(self).wf(),
        ensures
            final(self).wf(),
            final(self)@ == crashed(old(self)@),
    {
        broadcast use vstd::std_specs::hash::group_hash_axioms;

        let ghost n = self@;
        self.alive = false;
        let network = self.chain.network();
        self.chain = Blockchain::for_network(network);
        self.mempool = Vec::new();
        self.parked = IdMap::new();
        self.seen_blocks = IdMap::new();
        self.seen_txs = IdMap::new();
        self.signed_cps = IdMap::new();
        self.epoch_committed = HashMap::new();
        self.pending = IdMap::new();
        self.last_progress_tick = 0;
        self.sync_counter = 0;
        self.stuck_rounds = 0;
        assert(self@ =~= crashed(n));
    }

    /// Starts again, with the guard as it is stored.
    pub fn restart(&mut self, tick: u64, stored: StoredState)
        requires
            old(self).wf(),
        ensures
            final(self).wf(),
            final(self)@ == restarted_node(old(self)@, tick, stored),
    {
        self.alive = true;
        self.guard = SignerGuard::load(stored);
        self.last_progress_tick = tick;
    }
}

} // verus!

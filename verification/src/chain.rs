//! The canonical chain and block validation.
use vstd::prelude::*;
use std::collections::HashMap;
use crate::block_hash::block_hash;
use crate::block_hash::hash_of_header;
use crate::chain_model::CHECKPOINT_KEEP;
use crate::chain_model::ChainModel;
use crate::chain_model::RAM_WINDOW_BLOCKS;
use crate::chain_model::REPLAY_WINDOW_BLOCKS;
use crate::chain_model::block_fault;
use crate::chain_model::block_run;
use crate::chain_model::clear_block;
use crate::chain_model::extended;
use crate::chain_model::genesis_chain;
use crate::chain_model::has_replay;
use crate::chain_model::lemma_evicted_layout;
use crate::chain_model::lemma_extended_layout;
use crate::chain_model::lemma_grown_layout;
use crate::chain_model::newest;
use crate::chain_model::next_expired;
use crate::chain_model::noted;
use crate::chain_model::pre_fault;
use crate::chain_model::producer_fault;
use crate::chain_model::replay_index;
use crate::consensus::Consensus;
use crate::consensus::PermissiveConsensus;
use crate::entry::lemma_digest_of;
use crate::error::BlockchainError;
use crate::error::ProducerFault;
use crate::genesis::genesis_digest;
use crate::genesis::genesis_hash_of;
use crate::genesis::genesis_model;
use crate::genesis::genesis_of;
use crate::idmap::IdMap;
use crate::ids::BlockHash;
use crate::ids::Digest;
use crate::ids::DomainId;
use crate::ids::PublicKey;
use crate::ids::same_id;
use crate::merkle::tx_root;
use crate::producer::decode_producer_payload;
use crate::producer::producer_signing_hash;
use crate::producer::verify_block_producer;
use crate::smt::map_keys;
use crate::state::ChainState;
use crate::state::UndoLog;
use crate::state::contains_digest;
use crate::state_laws::law_block_rollback;
use crate::state_laws::run_txs;
use crate::state_model::StateModel;
use crate::state_model::UndoEntry;
use crate::state_model::collected;
use crate::state_model::tx_log;
use crate::state_model::undone;
use crate::txid::TxId;
use crate::txid::transaction_id;
use crate::txid::tx_id;
use crate::types::Block;
use crate::types::BlockHeader;
use crate::types::Checkpoint;
use crate::types::FinalizedBase;
use crate::types::NetworkId;
use crate::types::NetworkParams;
use crate::types::Transaction;
use crate::types::TxModel;
use crate::types::block_models;
use crate::types::checkpoint_models;
use crate::types::copy_checkpoints;
use crate::types::tx_models;
use crate::validate::validate_transaction;

verus! {

/// The chain: genesis and accepted blocks, with the authoritative state.
pub struct Blockchain<C: Consensus> {
    base_height: u64,
    canonical: Vec<Block>,
    known_hashes: HashMap<u64, BlockHash>,
    tip: BlockHash,
    network: NetworkParams,
    state: ChainState,
    consensus: C,
    included: IdMap<u64>,
    checkpoints: Vec<Checkpoint>,
    finalized: Option<FinalizedBase>,
}

/// What an accepted block changed.
#[derive(Debug, PartialEq, Eq)]
pub struct AppliedBlock {
    /// Hash of the block, the new tip.
    pub hash: BlockHash,
    /// Domains that the expiry collection took out, in order of expiry.
    pub gc_removed_domains: Vec<DomainId>,
}

impl<C: Consensus> View for Blockchain<C> {
    type V = ChainModel;

    closed spec fn view(&self) -> ChainModel {
        ChainModel {
            base_height: self.base_height,
            canonical: block_models(self.canonical@),
            known: self.known_hashes@,
            tip: self.tip,
            network: self.network@,
            state: self.state@,
            included: self.included@,
            checkpoints: checkpoint_models(self.checkpoints@),
            finalized: match self.finalized {
                Some(b) => Some(b@),
                None => None,
            },
        }
    }
}

impl<C: Consensus> Blockchain<C> {
    /// Every part is in order.
    pub closed spec fn wf(&self) -> bool {
        &&& self@.laid_out()
        &&& self@.rooted()
        &&& self.state.wf()
        &&& self.state.params() == self.network@
        &&& self.included.wf()
    }

    /// What a chain in order says of its value: its blocks stand at their
    /// places, and the first one is the genesis.
    pub proof fn lemma_wf(&self)
        requires
            self.wf(),
        ensures
            self@.laid_out(),
            self@.rooted(),
    {
    }

    /// The consensus rules.
    pub closed spec fn rules(&self) -> C {
        self.consensus
    }

    /// Refusals of a block's transactions before the state rules.
    pub open spec fn pre_faults(&self, txs: Seq<TxModel>) -> Seq<Option<BlockchainError>> {
        txs.map_values(|t: TxModel| pre_fault(t, self.rules().tx_hook_fault(t)))
    }

    /// A chain at the genesis of a network.
    pub fn with_consensus_for_network(consensus: C, network: NetworkParams) -> (chain: Self)
        ensures
            chain.wf(),
            chain@ == genesis_chain(network@),
            chain.rules() == consensus,
    {
        broadcast use vstd::std_specs::hash::group_hash_axioms;

        let hash = genesis_hash_of(&network);
        let mut canonical: Vec<Block> = Vec::new();
        canonical.push(genesis_of(&network));
        let mut known_hashes: HashMap<u64, BlockHash> = HashMap::new();
        known_hashes.insert(0, hash);
        let state = ChainState::for_network(network.clone());
        let chain = Blockchain {
            base_height: 0,
            canonical,
            known_hashes,
            tip: hash,
            network,
            state,
            consensus,
            included: IdMap::new(),
            checkpoints: Vec::new(),
            finalized: None,
        };
        proof {
            assert(chain@.canonical =~= seq![genesis_model(network@)]);
            assert(chain@.known =~= map![0u64 => genesis_digest(network@)]);
            assert(chain@.checkpoints =~= Seq::empty());
        }
        chain
    }

    /// The genesis block.
    pub fn genesis(&self) -> (block: &Block)
        requires
            self.wf(),
        ensures
            block@ == self@.canonical[0],
            block@ == genesis_model(self@.network),
    {
        &self.canonical[0]
    }

    /// The tip block.
    pub fn tip(&self) -> (block: &Block)
        requires
            self.wf(),
        ensures
            block@ == self@.canonical.last(),
    {
        &self.canonical[self.canonical.len() - 1]
    }

    /// Hash of the tip.
    pub fn tip_hash(&self) -> (h: BlockHash)
        ensures
            h == self@.tip,
    {
        self.tip
    }

    /// Height of the tip.
    pub fn height(&self) -> (h: u64)
        requires
            self.wf(),
        ensures
            h == self@.height(),
    {
        self.tip().header.height
    }

    /// Height of the oldest block in memory beside the genesis; 0 while
    /// nothing was evicted.
    pub fn base_height(&self) -> (h: u64)
        ensures
            h == self@.base_height,
    {
        self.base_height
    }

    /// Number of blocks in memory, the genesis among them.
    pub fn blocks_in_memory(&self) -> (n: usize)
        ensures
            n == self@.canonical.len(),
    {
        self.canonical.len()
    }

    /// Number of block hashes in memory.
    pub fn hashes_in_memory(&self) -> (n: usize)
        ensures
            n == self@.known.len(),
    {
        broadcast use vstd::std_specs::hash::group_hash_axioms;

        self.known_hashes.len()
    }

    /// The network of the chain.
    pub fn network(&self) -> (network: NetworkParams)
        ensures
            network@ == self@.network,
    {
        self.network.clone()
    }

    /// The block in memory at a height.
    pub fn block(&self, height: u64) -> (block: Option<&Block>)
        requires
            self.wf(),
        ensures
            match block {
                Some(b) => self@.block(height) == Some(b@),
                None => self@.block(height) is None,
            },
    {
        if height == 0 {
            return Some(&self.canonical[0]);
        }
        if height < self.base_height {
            return None;
        }
        let offset: u64 = height - self.base_height;
        let n: usize = self.canonical.len();
        let i: usize = if self.base_height == 0 {
            if offset >= n as u64 {
                return None;
            }
            offset as usize
        } else {
            if offset >= n as u64 - 1 {
                return None;
            }
            offset as usize + 1
        };
        assert(self@.canonical[i as int] == self.canonical@[i as int]@);
        if self.canonical[i].header.height == height {
            Some(&self.canonical[i])
        } else {
            None
        }
    }

    /// The block in memory at a height, or the error that says it is not.
    pub fn block_result(&self, height: u64) -> (r: Result<&Block, BlockchainError>)
        requires
            self.wf(),
        ensures
            match r {
                Ok(b) => self@.block(height) == Some(b@),
                Err(e) => self@.block(height) is None && e == (BlockchainError::BlockPruned { height }),
            },
    {
        match self.block(height) {
            Some(b) => Ok(b),
            None => Err(BlockchainError::BlockPruned { height }),
        }
    }

    /// The state after all accepted blocks.
    pub fn state(&self) -> (state: &ChainState)
        requires
            self.wf(),
        ensures
            state.wf(),
            state@ == self@.state,
            state.params() == self@.network,
    {
        &self.state
    }

    /// Whether a transaction was included within the replay window.
    pub fn is_tx_included(&self, id: &TxId) -> (r: bool)
        requires
            self.wf(),
        ensures
            r == self@.included.contains_key(id@),
    {
        self.included.contains_key(id.as_bytes())
    }

    /// Number of ids in the replay index.
    pub fn replay_index_len(&self) -> (n: usize)
        requires
            self.wf(),
        ensures
            n == self@.included.len(),
    {
        self.included.len()
    }

    /// Hash of the block in memory at a height.
    pub fn block_hash_at(&self, height: u64) -> (h: Option<BlockHash>)
        ensures
            h == (if self@.known.contains_key(height) {
                Some(self@.known[height])
            } else {
                None
            }),
    {
        broadcast use vstd::std_specs::hash::group_hash_axioms;

        match self.known_hashes.get(&height) {
            Some(h) => Some(*h),
            None => None,
        }
    }

    /// Finalized checkpoints in memory, oldest first.
    pub fn checkpoint_window(&self) -> (window: &Vec<Checkpoint>)
        ensures
            checkpoint_models(window@) == self@.checkpoints,
    {
        &self.checkpoints
    }

    /// Last finalized base; none before the first checkpoint.
    pub fn finalized(&self) -> (base: Option<&FinalizedBase>)
        ensures
            match base {
                Some(b) => self@.finalized == Some(b@),
                None => self@.finalized is None,
            },
    {
        match &self.finalized {
            Some(b) => Some(b),
            None => None,
        }
    }

    /// Takes over a finalized checkpoint and its base.
    pub(crate) fn freeze(&mut self, cp: Checkpoint, base: FinalizedBase)
        requires
            old(self).wf(),
        ensures
            final(self).wf(),
            final(self).rules() == old(self).rules(),
            final(self)@ == (ChainModel {
                checkpoints: newest(old(self)@.checkpoints.push(cp@)),
                finalized: Some(base@),
                ..old(self)@
            }),
    {
        let ghost before = self.checkpoints@;
        let ghost model = cp@;
        self.finalized = Some(base);
        self.checkpoints.push(cp);
        let n: usize = self.checkpoints.len();
        if n > CHECKPOINT_KEEP {
            let ghost all = self.checkpoints@;
            let mut rest = self.checkpoints.split_off(n - CHECKPOINT_KEEP);
            self.checkpoints.clear();
            self.checkpoints.append(&mut rest);
            assert(self.checkpoints@ =~= all.subrange(n - CHECKPOINT_KEEP, n as int));
        }
        assert(self@.checkpoints =~= newest(checkpoint_models(before).push(model)));
    }

    /// Takes over a chain of the same network: blocks, state, replay index
    /// and finality.
    pub(crate) fn take_over(&mut self, other: Blockchain<PermissiveConsensus>)
        requires
            other.wf(),
            other@.network == old(self)@.network,
        ensures
            final(self).wf(),
            final(self).rules() == old(self).rules(),
            final(self)@ == other@,
    {
        self.base_height = other.base_height;
        self.canonical = other.canonical;
        self.known_hashes = other.known_hashes;
        self.tip = other.tip;
        self.state = other.state;
        self.included = other.included;
        self.checkpoints = other.checkpoints;
        self.finalized = other.finalized;
    }

    /// Takes over the finalized checkpoints and the frozen base of a chain.
    pub(crate) fn carry_finality<D: Consensus>(&mut self, from: &Blockchain<D>)
        requires
            old(self).wf(),
        ensures
            final(self).wf(),
            final(self).rules() == old(self).rules(),
            final(self)@ == (ChainModel {
                checkpoints: from@.checkpoints,
                finalized: from@.finalized,
                ..old(self)@
            }),
    {
        self.checkpoints = copy_checkpoints(&from.checkpoints);
        self.finalized = match &from.finalized {
            Some(b) => Some(b.clone()),
            None => None,
        };
    }

    /// Height of the last finalized checkpoint.
    pub fn finality_floor(&self) -> (h: Option<u64>)
        ensures
            h == self@.floor(),
    {
        let n: usize = self.checkpoints.len();
        if n == 0 {
            None
        } else {
            assert(self@.checkpoints.last() == self.checkpoints@[n - 1]@);
            Some(self.checkpoints[n - 1].data.height)
        }
    }

    /// What a miss of the parent of a block at `child_height` means.
    pub fn classify_parent_miss(&self, child_height: u64) -> (e: BlockchainError)
        ensures
            e == self@.parent_miss(child_height),
    {
        let parent_height: u64 = child_height.saturating_sub(1);
        if parent_height >= 1 && parent_height < self.base_height {
            BlockchainError::BlockPruned { height: parent_height }
        } else {
            BlockchainError::UnknownParent
        }
    }

    /// Whether a hash is that of a block in memory.
    pub fn knows(&self, h: &BlockHash) -> (r: bool)
        ensures
            r == self@.knows(*h),
    {
        broadcast use vstd::std_specs::hash::group_hash_axioms;

        let keys = map_keys(&self.known_hashes);
        let mut i: usize = 0;
        while i < keys.len()
            invariant
                i <= keys@.len(),
                keys@.to_set() == self.known_hashes@.dom(),
                forall|j: int| 0 <= j < i ==> self.known_hashes@[#[trigger] keys@[j]] != *h,
            decreases keys@.len() - i,
        {
            let k: u64 = keys[i];
            assert(keys@.to_set().contains(k));
            match self.known_hashes.get(&k) {
                Some(x) => {
                    if same_id(x, h) {
                        assert(self@.known.contains_key(k));
                        return true;
                    }
                },
                None => {},
            }
            i += 1;
        }
        proof {
            assert forall|n: u64| #[trigger] self@.known.contains_key(n) implies self@.known[n] != *h by {
                assert(keys@.to_set().contains(n));
                let j = choose|j: int| 0 <= j < keys@.len() && keys@[j] == n;
                assert(self.known_hashes@[keys@[j]] != *h);
            }
        }
        false
    }

    /// The hashes of the blocks in memory.
    pub(crate) fn known_set(&self) -> (set: IdMap<()>)
        ensures
            set.wf(),
            forall|h: Digest| set@.contains_key(h) <==> #[trigger] self@.knows(h),
    {
        broadcast use vstd::std_specs::hash::group_hash_axioms;

        let keys = map_keys(&self.known_hashes);
        let mut set: IdMap<()> = IdMap::new();
        let mut i: usize = 0;
        while i < keys.len()
            invariant
                i <= keys@.len(),
                keys@.to_set() == self.known_hashes@.dom(),
                set.wf(),
                forall|h: Digest|
                    set@.contains_key(h) <==> exists|j: int|
                        0 <= j < i && self.known_hashes@[#[trigger] keys@[j]] == h,
            decreases keys@.len() - i,
        {
            let k: u64 = keys[i];
            assert(keys@.to_set().contains(k));
            match self.known_hashes.get(&k) {
                Some(x) => {
                    set.insert(*x, ());
                    assert(self.known_hashes@[keys@[i as int]] == *x);
                },
                None => {},
            }
            i += 1;
        }
        proof {
            assert forall|h: Digest| set@.contains_key(h) <==> #[trigger] self@.knows(h) by {
                if self@.knows(h) {
                    let n = choose|n: u64| #[trigger] self@.known.contains_key(n) && self@.known[n] == h;
                    assert(keys@.to_set().contains(n));
                    let j = choose|j: int| 0 <= j < keys@.len() && keys@[j] == n;
                    assert(self.known_hashes@[keys@[j]] == h);
                }
                if set@.contains_key(h) {
                    let j = choose|j: int| 0 <= j < i && self.known_hashes@[#[trigger] keys@[j]] == h;
                    assert(keys@.to_set().contains(keys@[j]));
                    assert(self@.known.contains_key(keys@[j]));
                }
            }
        }
        set
    }

    /// Notes transactions in the replay index at their heights, as accepted
    /// blocks would have: what is above the tip or beyond the window is
    /// left out.
    pub fn rebuild_replay_index(&mut self, entries: &Vec<(TxId, u64)>)
        requires
            old(self).wf(),
        ensures
            final(self).wf(),
            final(self).rules() == old(self).rules(),
            final(self)@ == (ChainModel {
                included: rebuilt(old(self)@.included, entries@, old(self)@.height()),
                ..old(self)@
            }),
    {
        let tip: u64 = self.height();
        let cutoff: u64 = tip.saturating_sub(REPLAY_WINDOW_BLOCKS);
        let mut i: usize = 0;
        let ghost first = self@;
        assert(entries@.subrange(0, 0) =~= Seq::empty());
        while i < entries.len()
            invariant
                self.wf(),
                self.consensus == old(self).consensus,
                first == old(self)@,
                i <= entries@.len(),
                tip == first.height(),
                cutoff == (if tip >= REPLAY_WINDOW_BLOCKS {
                    tip - REPLAY_WINDOW_BLOCKS
                } else {
                    0
                }),
                self@ == (ChainModel {
                    included: rebuilt(first.included, entries@.subrange(0, i as int), tip),
                    ..first
                }),
            decreases entries@.len() - i,
        {
            let (id, height) = entries[i];
            proof {
                let next = entries@.subrange(0, i + 1);
                assert(next.drop_last() =~= entries@.subrange(0, i as int));
                assert(next.last() == entries@[i as int]);
            }
            if !(height > tip || height <= cutoff) {
                self.included.insert(*id.as_bytes(), height);
            }
            i += 1;
        }
        assert(entries@.subrange(0, i as int) =~= entries@);
    }

    /// Slides the window: blocks below both the window and the finality
    /// floor leave memory.
    fn evict_below_window(&mut self)
        requires
            old(self).wf(),
        ensures
            final(self).wf(),
            final(self)@ == old(self)@.evicted(),
            final(self).consensus == old(self).consensus,
    {
        broadcast use vstd::std_specs::hash::group_hash_axioms;

        let ghost g = self@;
        proof {
            lemma_evicted_layout(g);
        }
        let floor: u64 = match self.finality_floor() {
            None => {
                return;
            },
            Some(f) => f,
        };
        let tip_height: u64 = self.height();
        let window_start: u64 = tip_height.saturating_sub(RAM_WINDOW_BLOCKS - 1);
        let new_base: u64 = if window_start <= floor {
            window_start
        } else {
            floor
        };
        if new_base <= self.base_height {
            return;
        }
        let ghost before = self.canonical@;
        let len: usize = self.canonical.len();
        assert(g.canonical.len() == len);
        assert(new_base == g.next_base());
        let n: usize = if self.base_height == 0 {
            (new_base - 1) as usize
        } else {
            (new_base - self.base_height) as usize
        };
        let mut rest = self.canonical.split_off(1 + n);
        self.canonical.truncate(1);
        self.canonical.append(&mut rest);
        proof {
            assert(self.canonical@ =~= seq![before[0]] + before.subrange(1 + n as int, before.len() as int));
            assert(block_models(self.canonical@) =~= g.evicted().canonical);
        }
        let low: u64 = if self.base_height >= 1 {
            self.base_height
        } else {
            1
        };
        forget_heights(&mut self.known_hashes, low, new_base);
        self.base_height = new_base;
        proof {
            assert(Set::new(|x: u64| low <= x && x < new_base) =~= Set::new(
                |x: u64| 1 <= x && g.base_height <= x && x < new_base,
            ));
            assert(self@ =~= g.evicted());
        }
    }
}

/// Drops the hashes at the heights from `low` up to but not at `high`.
fn forget_heights(known: &mut HashMap<u64, BlockHash>, low: u64, high: u64)
    requires
        low <= high,
    ensures
        final(known)@ == old(known)@.remove_keys(Set::new(|x: u64| low <= x && x < high)),
{
    broadcast use vstd::std_specs::hash::group_hash_axioms;

    let mut h: u64 = low;
    let ghost first = known@;
    assert(known@ =~= first.remove_keys(Set::new(|x: u64| low <= x && x < low)));
    while h < high
        invariant
            low <= h <= high,
            known@ == first.remove_keys(Set::new(|x: u64| low <= x && x < h)),
        decreases high - h,
    {
        known.remove(&h);
        proof {
            assert(known@ =~= first.remove_keys(Set::new(|x: u64| low <= x && x < h + 1)));
        }
        h += 1;
    }
}

/// The replay index after noting (id, height) pairs below a tip.
pub open spec fn rebuilt(included: Map<Digest, u64>, entries: Seq<(TxId, u64)>, tip: u64) -> Map<Digest, u64>
    decreases entries.len(),
{
    if entries.len() == 0 {
        included
    } else {
        let rest = rebuilt(included, entries.drop_last(), tip);
        let (id, height) = entries.last();
        if height > tip || height + REPLAY_WINDOW_BLOCKS <= tip || height == 0 {
            rest
        } else {
            rest.insert(id@, height)
        }
    }
}


/// A refusal in a prefix is the refusal of the whole list.
proof fn lemma_run_stops(
    s: StateModel,
    net: NetworkId,
    txs: Seq<TxModel>,
    pre: Seq<Option<BlockchainError>>,
    now: u64,
    n: int,
)
    requires
        0 <= n <= txs.len(),
        run_txs(s, net, txs.subrange(0, n), pre, now).2 is Some,
    ensures
        run_txs(s, net, txs, pre, now) == run_txs(s, net, txs.subrange(0, n), pre, now),
    decreases txs.len() - n,
{
    if n == txs.len() {
        assert(txs.subrange(0, n) =~= txs);
    } else {
        assert(txs.subrange(0, n + 1).drop_last() =~= txs.subrange(0, n));
        lemma_run_stops(s, net, txs, pre, now, n + 1);
    }
}

/// Applies transactions one after another into one journal, until one is
/// refused.
fn apply_txs<C: Consensus>(
    state: &mut ChainState,
    consensus: &C,
    txs: &Vec<Transaction>,
    now: u64,
    journal: &mut UndoLog,
) -> (refusal: Option<BlockchainError>)
    requires
        old(state).wf(),
    ensures
        final(state).wf(),
        final(state).params() == old(state).params(),
        ({
            let models = tx_models(txs@);
            let pre = models.map_values(|t: TxModel| pre_fault(t, consensus.tx_hook_fault(t)));
            let (s, log, fault) = run_txs(old(state)@, old(state).params().network_id, models, pre, now);
            &&& final(state)@ == s
            &&& final(journal)@ == old(journal)@ + log
            &&& refusal == fault
        }),
{
    let ghost models = tx_models(txs@);
    let ghost pre = models.map_values(|t: TxModel| pre_fault(t, consensus.tx_hook_fault(t)));
    let ghost s0 = state@;
    let ghost net = state.params().network_id;
    let ghost log0 = journal@;
    let mut i: usize = 0;
    proof {
        assert(models.subrange(0, 0) =~= Seq::empty());
        assert(journal@ =~= log0 + Seq::<UndoEntry>::empty());
    }
    while i < txs.len()
        invariant
            state.wf(),
            state.params() == old(state).params(),
            net == old(state).params().network_id,
            s0 == old(state)@,
            log0 == old(journal)@,
            i <= txs@.len(),
            models == tx_models(txs@),
            pre == models.map_values(|t: TxModel| pre_fault(t, consensus.tx_hook_fault(t))),
            state@ == run_txs(s0, net, models.subrange(0, i as int), pre, now).0,
            journal@ == log0 + run_txs(s0, net, models.subrange(0, i as int), pre, now).1,
            run_txs(s0, net, models.subrange(0, i as int), pre, now).2 is None,
        decreases txs@.len() - i,
    {
        let tx = &txs[i];
        let ghost here = state@;
        let ghost log = journal@;
        let ghost next = models.subrange(0, i + 1);
        proof {
            assert(next.drop_last() =~= models.subrange(0, i as int));
            assert(next.last() == tx@);
            assert(pre[i as int] == pre_fault(tx@, consensus.tx_hook_fault(tx@)));
        }
        match validate_transaction(tx) {
            Err(e) => {
                proof {
                    lemma_run_stops(s0, net, models, pre, now, i + 1);
                }
                return Some(e);
            },
            Ok(_) => {},
        }
        match consensus.validate_tx(tx) {
            Err(e) => {
                proof {
                    lemma_run_stops(s0, net, models, pre, now, i + 1);
                }
                return Some(e);
            },
            Ok(_) => {},
        }
        match state.apply_journaled_at(tx, now, journal) {
            Err(e) => {
                proof {
                    lemma_run_stops(s0, net, models, pre, now, i + 1);
                }
                return Some(e);
            },
            Ok(_) => {},
        }
        proof {
            let rest = run_txs(s0, net, models.subrange(0, i as int), pre, now).1;
            assert(journal@ =~= log0 + (rest + tx_log(here, tx@)));
        }
        i += 1;
    }
    assert(models.subrange(0, i as int) =~= models);
    None
}

/// What is wrong with a block's producer payload.
fn check_producer(header: &BlockHeader, producers: &Vec<PublicKey>) -> (fault: Option<ProducerFault>)
    ensures
        fault == producer_fault(header@, producers@),
{
    let payload = match decode_producer_payload(header.consensus.as_slice()) {
        None => {
            return Some(ProducerFault::NotAPayload);
        },
        Some(p) => p,
    };
    proof {
        let b = header.consensus@;
        assert(b.subrange(14, 46) =~= payload.producer@);
        assert(b.subrange(46, 110) =~= payload.signature@);
        lemma_digest_of(payload.producer);
    }
    let signing_hash = match producer_signing_hash(header) {
        None => {
            return Some(ProducerFault::NotEncodable);
        },
        Some(h) => h,
    };
    if !verify_block_producer(&payload, &signing_hash) {
        return Some(ProducerFault::BadSignature);
    }
    if producers.len() > 0 && !contains_digest(producers, &payload.producer) {
        return Some(ProducerFault::NotAllowed);
    }
    None
}

impl<C: Consensus> Blockchain<C> {
    /// Whether some transaction of a block is in the replay index.
    fn replays(&self, txs: &Vec<Transaction>) -> (r: bool)
        requires
            self.wf(),
        ensures
            r == has_replay(self@.included, tx_models(txs@)),
    {
        let ghost models = tx_models(txs@);
        let mut i: usize = 0;
        while i < txs.len()
            invariant
                self.wf(),
                i <= txs@.len(),
                models == tx_models(txs@),
                forall|j: int|
                    0 <= j < i ==> !(tx_id(#[trigger] models[j]) matches Ok(id) && self@.included.contains_key(id)),
            decreases txs@.len() - i,
        {
            assert(models[i as int] == txs@[i as int]@);
            match transaction_id(&txs[i]) {
                Ok(id) => {
                    if self.included.contains_key(id.as_bytes()) {
                        return true;
                    }
                },
                Err(_) => {},
            }
            i += 1;
        }
        false
    }

    /// Checks a block up to its transactions: parent, height, version,
    /// size, transaction root, replays, hash, consensus, producer.
    fn check_block(&self, block: &Block, producers: &Vec<PublicKey>) -> (r: Result<BlockHash, BlockchainError>)
        requires
            self.wf(),
        ensures
            match block_fault(self@, block@, self.rules().header_fault(block@.header), producers@) {
                Some(e) => r == Err::<BlockHash, BlockchainError>(e),
                None => r == hash_of_header(block@.header) && r is Ok && block@.header.height == self@.height() + 1,
            },
    {
        let header = &block.header;
        if !same_id(&header.prev_hash, &self.tip) {
            return Err(
                if self.knows(&header.prev_hash) {
                    BlockchainError::ParentNotTip
                } else {
                    self.classify_parent_miss(header.height)
                },
            );
        }
        let height: u64 = self.height();
        if height == u64::MAX {
            return Err(BlockchainError::InvalidHeight { expected: u64::MAX, got: header.height });
        }
        let expected: u64 = height + 1;
        if header.height != expected {
            return Err(BlockchainError::InvalidHeight { expected, got: header.height });
        }
        if header.version != self.network.protocol.version {
            return Err(BlockchainError::InvalidVersion(header.version));
        }
        if block.transactions.len() > self.network.protocol.max_txs_per_block {
            return Err(BlockchainError::TooManyTransactions(block.transactions.len()));
        }
        match tx_root(&block.transactions) {
            Err(e) => {
                return Err(e);
            },
            Ok(root) => {
                if !same_id(&root, &header.tx_root) {
                    return Err(BlockchainError::MerkleMismatch);
                }
            },
        }
        if self.replays(&block.transactions) {
            return Err(BlockchainError::TxReplay);
        }
        let hash: BlockHash = match block_hash(header) {
            Err(e) => {
                return Err(e);
            },
            Ok(h) => h,
        };
        match self.consensus.validate_header(header) {
            Err(e) => {
                return Err(e);
            },
            Ok(_) => {},
        }
        match check_producer(header, producers) {
            Some(f) => {
                return Err(BlockchainError::InvalidProducer(f));
            },
            None => {},
        }
        Ok(hash)
    }

    /// Notes the transactions of an accepted block in the replay index and
    /// drops what left the window.
    fn note_included(&mut self, txs: &Vec<Transaction>, height: u64)
        requires
            old(self).wf(),
        ensures
            final(self).wf(),
            final(self).consensus == old(self).consensus,
            final(self)@ == (ChainModel {
                included: replay_index(old(self)@.included, tx_models(txs@), height),
                ..old(self)@
            }),
    {
        let ghost models = tx_models(txs@);
        let ghost first = self@;
        let mut i: usize = 0;
        assert(models.subrange(0, 0) =~= Seq::empty());
        while i < txs.len()
            invariant
                self.wf(),
                self.consensus == old(self).consensus,
                i <= txs@.len(),
                models == tx_models(txs@),
                self@ == (ChainModel {
                    included: noted(first.included, models.subrange(0, i as int), height),
                    ..first
                }),
            decreases txs@.len() - i,
        {
            proof {
                let next = models.subrange(0, i + 1);
                assert(next.drop_last() =~= models.subrange(0, i as int));
                assert(next.last() == txs@[i as int]@);
            }
            match transaction_id(&txs[i]) {
                Ok(id) => {
                    self.included.insert(*id.as_bytes(), height);
                },
                Err(_) => {},
            }
            i += 1;
        }
        assert(models.subrange(0, i as int) =~= models);
        if height > REPLAY_WINDOW_BLOCKS {
            self.included.retain_above(height - REPLAY_WINDOW_BLOCKS);
        }
    }

    /// Validates a block and, if it is fully valid, makes it the new tip and
    /// applies its transactions. `producers` are the keys that may produce
    /// at the block's time (the union of the committees that
    /// `allowed_producers` asks for); none means open production.
    ///
    /// Every commitment is recomputed. On any refusal the chain is left as
    /// it was.
    pub fn push_block_with_gc(&mut self, block: &Block, producers: &Vec<PublicKey>) -> (r: Result<
        AppliedBlock,
        BlockchainError,
    >)
        requires
            old(self).wf(),
        ensures
            final(self).wf(),
            final(self).rules() == old(self).rules(),
            ({
                let m = old(self)@;
                let b = block@;
                let pre = old(self).pre_faults(b.txs);
                let hook = old(self).rules().header_fault(b.header);
                let (s, log, refusal) = block_run(m, b, pre);
                match block_fault(m, b, hook, producers@) {
                    Some(e) => r == Err::<AppliedBlock, BlockchainError>(e) && final(self)@ == m,
                    None => match refusal {
                        Some(e) => {
                            &&& r == Err::<AppliedBlock, BlockchainError>(e)
                            &&& final(self)@ == (ChainModel { state: undone(s, log), ..m })
                            &&& clear_block(m, b, pre) ==> final(self)@ == m
                        },
                        None => {
                            &&& r is Ok
                            &&& final(self)@ == extended(m, b, pre)
                            &&& hash_of_header(b.header) == Ok::<BlockHash, BlockchainError>(r->Ok_0.hash)
                            &&& r->Ok_0.gc_removed_domains@ == next_expired(m)
                        },
                    },
                }
            }),
    {
        broadcast use vstd::std_specs::hash::group_hash_axioms;

        let ghost m = self@;
        let ghost b = block@;
        let ghost pre = self.pre_faults(b.txs);
        let hash: BlockHash = match self.check_block(block, producers) {
            Err(e) => {
                return Err(e);
            },
            Ok(h) => h,
        };
        let now: u64 = self.tip().header.timestamp;
        let mut journal = UndoLog::new();
        let gc_removed_domains = self.state.gc_expired_journaled(now, &mut journal);
        let ghost log1 = journal@;
        let refusal = apply_txs(&mut self.state, &self.consensus, &block.transactions, now, &mut journal);
        proof {
            assert(log1 =~= collected(m.state, now).1);
            let (t, log, ids) = collected(m.state, now);
            let more = run_txs(t, m.network.network_id, b.txs, pre, now).1;
            assert(journal@ =~= log + more);
        }
        match refusal {
            Some(e) => {
                self.state.rollback(journal);
                proof {
                    if clear_block(m, b, pre) {
                        law_block_rollback(m.state, m.network.network_id, b.txs, pre, now);
                    }
                    assert(self@ =~= (ChainModel {
                        state: undone(block_run(m, b, pre).0, block_run(m, b, pre).1),
                        ..m
                    }));
                    if clear_block(m, b, pre) {
                        assert(self@ =~= m);
                    }
                }
                return Err(e);
            },
            None => {},
        }
        self.known_hashes.insert(block.header.height, hash);
        self.canonical.push(block.clone());
        self.tip = hash;
        proof {
            lemma_extended_layout(m, b, pre);
            assert(self@.canonical =~= m.canonical.push(b));
            assert(self@ =~= (ChainModel {
                state: block_run(m, b, pre).0,
                known: m.known.insert(b.header.height, hash),
                canonical: m.canonical.push(b),
                tip: hash,
                ..m
            }));
            lemma_grown_layout(m, b, pre);
        }
        self.evict_below_window();
        self.note_included(&block.transactions, block.header.height);
        Ok(AppliedBlock { hash, gc_removed_domains })
    }

    /// Validates a block and, if it is fully valid, makes it the new tip;
    /// its hash.
    pub fn push_block(&mut self, block: &Block, producers: &Vec<PublicKey>) -> (r: Result<
        BlockHash,
        BlockchainError,
    >)
        requires
            old(self).wf(),
        ensures
            final(self).wf(),
            final(self).rules() == old(self).rules(),
            ({
                let m = old(self)@;
                let b = block@;
                let pre = old(self).pre_faults(b.txs);
                let hook = old(self).rules().header_fault(b.header);
                let (s, log, refusal) = block_run(m, b, pre);
                match block_fault(m, b, hook, producers@) {
                    Some(e) => r == Err::<BlockHash, BlockchainError>(e) && final(self)@ == m,
                    None => match refusal {
                        Some(e) => {
                            &&& r == Err::<BlockHash, BlockchainError>(e)
                            &&& final(self)@ == (ChainModel { state: undone(s, log), ..m })
                            &&& clear_block(m, b, pre) ==> final(self)@ == m
                        },
                        None => {
                            &&& r is Ok
                            &&& final(self)@ == extended(m, b, pre)
                            &&& hash_of_header(b.header) == r
                        },
                    },
                }
            }),
    {
        match self.push_block_with_gc(block, producers) {
            Ok(applied) => Ok(applied.hash),
            Err(e) => Err(e),
        }
    }
}

impl Blockchain<PermissiveConsensus> {
    /// A chain at the genesis of a network, with the consensus that accepts
    /// everything.
    pub fn for_network(network: NetworkParams) -> (chain: Self)
        ensures
            chain.wf(),
            chain@ == genesis_chain(network@),
    {
        Blockchain::with_consensus_for_network(PermissiveConsensus, network)
    }

    /// Restores a chain from its stored tip and state without replaying
    /// blocks: only the genesis and the tip are in memory.
    pub fn restore(tip_height: u64, tip: BlockHash, tip_block: Block, state: ChainState) -> (chain: Self)
        requires
            tip_block@.header.height == tip_height,
            tip_height > 0,
            state.wf(),
        ensures
            chain.wf(),
            chain@ == (ChainModel {
                base_height: tip_height,
                canonical: seq![genesis_model(state.params()), tip_block@],
                known: map![0u64 => genesis_digest(state.params()), tip_height => tip],
                tip,
                state: state@,
                ..genesis_chain(state.params())
            }),
    {
        broadcast use vstd::std_specs::hash::group_hash_axioms;

        let network = state.network();
        let hash = genesis_hash_of(&network);
        let ghost last = tip_block@;
        let mut canonical: Vec<Block> = Vec::new();
        canonical.push(genesis_of(&network));
        canonical.push(tip_block);
        let mut known_hashes: HashMap<u64, BlockHash> = HashMap::new();
        known_hashes.insert(0, hash);
        known_hashes.insert(tip_height, tip);
        let chain = Blockchain {
            base_height: tip_height,
            canonical,
            known_hashes,
            tip,
            network,
            state,
            consensus: PermissiveConsensus,
            included: IdMap::new(),
            checkpoints: Vec::new(),
            finalized: None,
        };
        proof {
            assert(chain@.canonical =~= seq![genesis_model(network@), last]);
            assert(chain@.known =~= map![0u64 => genesis_digest(network@), tip_height => tip]);
            assert(chain@.checkpoints =~= Seq::empty());
        }
        chain
    }
}

} // verus!

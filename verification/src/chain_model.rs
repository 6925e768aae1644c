//! Mathematical model of the chain: what a pushed block is checked for and
//! what it changes.
use vstd::prelude::*;
use crate::block_hash::hash_of_header;
use crate::block_hash::header_digest;
use crate::crypto::ed25519_verifies;
use crate::entry::digest_of;
use crate::error::BlockchainError;
use crate::error::ProducerFault;
use crate::genesis::genesis_digest;
use crate::genesis::genesis_model;
use crate::idmap::values_above;
use crate::ids::BlockHash;
use crate::ids::Digest;
use crate::ids::DomainId;
use crate::ids::PublicKey;
use crate::merkle::tx_root_of;
use crate::producer::is_payload;
use crate::producer::producer_message;
use crate::state_laws::clear_run;
use crate::state_laws::coherent;
use crate::state_laws::has_room;
use crate::state_laws::leaves_apart;
use crate::state_laws::run_txs;
use crate::state_model::StateModel;
use crate::state_model::UndoEntry;
use crate::state_model::collected;
use crate::state_model::empty_state;
use crate::txid::tx_id;
use crate::types::BaseModel;
use crate::types::BlockModel;
use crate::types::CheckpointModel;
use crate::types::HeaderModel;
use crate::types::NetworkModel;
use crate::types::TxModel;
use crate::validate::signature_fault;

verus! {

/// Blocks for which a transaction id stays protected against re-inclusion.
pub const REPLAY_WINDOW_BLOCKS: u64 = 256;

/// Recent blocks kept in memory above the finality floor.
pub const RAM_WINDOW_BLOCKS: u64 = 512;

/// Finalized checkpoints kept in memory.
pub const CHECKPOINT_KEEP: usize = 64;

/// The checkpoints that stay in memory: the newest.
pub open spec fn newest(cps: Seq<CheckpointModel>) -> Seq<CheckpointModel> {
    if cps.len() > CHECKPOINT_KEEP {
        cps.subrange(cps.len() - CHECKPOINT_KEEP, cps.len() as int)
    } else {
        cps
    }
}

/// The chain as a value.
#[verifier::ext_equal]
pub struct ChainModel {
    /// Height of the oldest block in memory beside the genesis; 0 while
    /// nothing was evicted.
    pub base_height: u64,
    /// Blocks in memory: the genesis, then the window up to the tip.
    pub canonical: Seq<BlockModel>,
    /// Hashes of the blocks in memory, by height.
    pub known: Map<u64, BlockHash>,
    pub tip: BlockHash,
    pub network: NetworkModel,
    pub state: StateModel,
    /// Inclusion heights of the transactions in the replay window.
    pub included: Map<Digest, u64>,
    /// Finalized checkpoints, oldest first.
    pub checkpoints: Seq<CheckpointModel>,
    pub finalized: Option<BaseModel>,
}

/// The chain of a network at its genesis.
pub open spec fn genesis_chain(p: NetworkModel) -> ChainModel {
    ChainModel {
        base_height: 0,
        canonical: seq![genesis_model(p)],
        known: map![0u64 => genesis_digest(p)],
        tip: genesis_digest(p),
        network: p,
        state: empty_state(),
        included: Map::empty(),
        checkpoints: Seq::empty(),
        finalized: None,
    }
}

impl ChainModel {
    /// Height of the tip.
    pub open spec fn height(self) -> u64 {
        self.canonical.last().header.height
    }

    /// Blocks in memory stand at their places: densely from the genesis
    /// while nothing was evicted, else the genesis and the window.
    pub open spec fn laid_out(self) -> bool {
        &&& self.canonical.len() >= 1
        &&& self.canonical[0].header.height == 0
        &&& self.base_height == 0 ==> forall|i: int|
            0 <= i < self.canonical.len() ==> (#[trigger] self.canonical[i]).header.height == i
        &&& self.base_height > 0 ==> self.canonical.len() >= 2 && forall|i: int|
            1 <= i < self.canonical.len() ==> (#[trigger] self.canonical[i]).header.height
                == self.base_height + i - 1
    }

    /// The first block is the genesis of the network, and its hash is known.
    pub open spec fn rooted(self) -> bool {
        &&& self.canonical[0] == genesis_model(self.network)
        &&& self.known.contains_key(0)
        &&& self.known[0] == genesis_digest(self.network)
    }

    /// The block in memory at a height.
    pub open spec fn block(self, height: u64) -> Option<BlockModel> {
        if height == 0 {
            if self.canonical.len() > 0 && self.canonical[0].header.height == 0 {
                Some(self.canonical[0])
            } else {
                None
            }
        } else if height < self.base_height {
            None
        } else {
            let i = if self.base_height == 0 {
                height as int
            } else {
                height - self.base_height + 1
            };
            if i < self.canonical.len() && self.canonical[i].header.height == height {
                Some(self.canonical[i])
            } else {
                None
            }
        }
    }

    /// Height of the last finalized checkpoint.
    pub open spec fn floor(self) -> Option<u64> {
        if self.checkpoints.len() == 0 {
            None
        } else {
            Some(self.checkpoints.last().data.height)
        }
    }

    /// What a miss of the parent of a block at `child_height` means: the
    /// parent left memory, or was never seen.
    pub open spec fn parent_miss(self, child_height: u64) -> BlockchainError {
        if child_height >= 2 && child_height - 1 < self.base_height {
            BlockchainError::BlockPruned { height: (child_height - 1) as u64 }
        } else {
            BlockchainError::UnknownParent
        }
    }

    /// Whether a hash is that of a block in memory.
    pub open spec fn knows(self, h: BlockHash) -> bool {
        exists|n: u64| #[trigger] self.known.contains_key(n) && self.known[n] == h
    }

    /// First height that stays in memory after the window slides.
    pub open spec fn next_base(self) -> u64 {
        match self.floor() {
            None => self.base_height,
            Some(floor) => {
                let start = if self.height() >= RAM_WINDOW_BLOCKS - 1 {
                    (self.height() - (RAM_WINDOW_BLOCKS - 1)) as u64
                } else {
                    0
                };
                let low = if start <= floor {
                    start
                } else {
                    floor
                };
                if low <= self.base_height {
                    self.base_height
                } else {
                    low
                }
            },
        }
    }

    /// With the blocks below the window and the finality floor evicted.
    pub open spec fn evicted(self) -> ChainModel {
        let low = self.next_base();
        if low <= self.base_height {
            self
        } else {
            let n = if self.base_height == 0 {
                low - 1
            } else {
                low - self.base_height
            };
            ChainModel {
                canonical: seq![self.canonical[0]] + self.canonical.subrange(
                    1 + n,
                    self.canonical.len() as int,
                ),
                known: self.known.remove_keys(
                    Set::new(|h: u64| 1 <= h && self.base_height <= h && h < low),
                ),
                base_height: low,
                ..self
            }
        }
    }
}

/// Whether some transaction is in the replay index.
pub open spec fn has_replay(included: Map<Digest, u64>, txs: Seq<TxModel>) -> bool {
    exists|i: int|
        0 <= i < txs.len() && (tx_id(#[trigger] txs[i]) matches Ok(id) && included.contains_key(id))
}

/// What is wrong with a block's producer payload, given the producers that
/// may produce at its time; none given means open production.
pub open spec fn producer_fault(h: HeaderModel, producers: Seq<PublicKey>) -> Option<ProducerFault> {
    if !is_payload(h.consensus) {
        Some(ProducerFault::NotAPayload)
    } else {
        match header_digest(h.signing_encoding) {
            Err(_) => Some(ProducerFault::NotEncodable),
            Ok(d) => {
                let key = digest_of(h.consensus.subrange(14, 46));
                if !ed25519_verifies(key@, producer_message(d), h.consensus.subrange(46, 110)) {
                    Some(ProducerFault::BadSignature)
                } else if producers.len() > 0 && !producers.contains(key) {
                    Some(ProducerFault::NotAllowed)
                } else {
                    None
                }
            },
        }
    }
}

/// Which check of a block, before its transactions are applied, fails on
/// the chain. `hook` is the consensus verdict on the header.
pub open spec fn block_fault(
    m: ChainModel,
    b: BlockModel,
    hook: Option<BlockchainError>,
    producers: Seq<PublicKey>,
) -> Option<BlockchainError> {
    let h = b.header;
    if h.prev_hash != m.tip {
        Some(
            if m.knows(h.prev_hash) {
                BlockchainError::ParentNotTip
            } else {
                m.parent_miss(h.height)
            },
        )
    } else if m.height() == u64::MAX {
        Some(BlockchainError::InvalidHeight { expected: u64::MAX, got: h.height })
    } else if h.height != m.height() + 1 {
        Some(BlockchainError::InvalidHeight { expected: (m.height() + 1) as u64, got: h.height })
    } else if h.version != m.network.protocol.version {
        Some(BlockchainError::InvalidVersion(h.version))
    } else if b.txs.len() > m.network.protocol.max_txs_per_block {
        Some(BlockchainError::TooManyTransactions(b.txs.len() as usize))
    } else if tx_root_of(b.txs) is Err {
        Some(tx_root_of(b.txs)->Err_0)
    } else if tx_root_of(b.txs)->Ok_0 != h.tx_root {
        Some(BlockchainError::MerkleMismatch)
    } else if has_replay(m.included, b.txs) {
        Some(BlockchainError::TxReplay)
    } else if hash_of_header(h) is Err {
        Some(hash_of_header(h)->Err_0)
    } else if hook is Some {
        hook
    } else if producer_fault(h, producers) is Some {
        Some(BlockchainError::InvalidProducer(producer_fault(h, producers)->0))
    } else {
        None
    }
}

/// Refusal of a transaction before the state rules: its signature, then the
/// consensus verdict.
pub open spec fn pre_fault(tx: TxModel, hook: Option<BlockchainError>) -> Option<BlockchainError> {
    if signature_fault(tx) is Some {
        signature_fault(tx)
    } else {
        hook
    }
}

/// State, journal and refusal of a block's expiry collection and
/// transactions.
pub open spec fn block_run(m: ChainModel, b: BlockModel, pre: Seq<Option<BlockchainError>>) -> (
    StateModel,
    Seq<UndoEntry>,
    Option<BlockchainError>,
) {
    let now = m.canonical.last().header.timestamp;
    let (t, log, ids) = collected(m.state, now);
    let (u, more, refusal) = run_txs(t, m.network.network_id, b.txs, pre, now);
    (u, log + more, refusal)
}

/// The replay index with some ids noted at a height.
pub open spec fn noted(included: Map<Digest, u64>, txs: Seq<TxModel>, height: u64) -> Map<Digest, u64>
    decreases txs.len(),
{
    if txs.len() == 0 {
        included
    } else {
        let rest = noted(included, txs.drop_last(), height);
        match tx_id(txs.last()) {
            Ok(id) => rest.insert(id, height),
            Err(_) => rest,
        }
    }
}

/// The replay index after a block at `height` with these transactions: ids
/// beyond the window leave it.
pub open spec fn replay_index(included: Map<Digest, u64>, txs: Seq<TxModel>, height: u64) -> Map<
    Digest,
    u64,
> {
    let all = noted(included, txs, height);
    if height > REPLAY_WINDOW_BLOCKS {
        values_above(all, (height - REPLAY_WINDOW_BLOCKS) as u64)
    } else {
        all
    }
}

/// The chain after an accepted block.
pub open spec fn extended(m: ChainModel, b: BlockModel, pre: Seq<Option<BlockchainError>>) -> ChainModel {
    ChainModel {
        included: replay_index(m.included, b.txs, b.header.height),
        ..grown(m, b, pre).evicted()
    }
}

/// Ids that the expiry collection of the next block takes out.
pub open spec fn next_expired(m: ChainModel) -> Seq<DomainId> {
    collected(m.state, m.canonical.last().header.timestamp).2
}

/// No step of the block meets a digest collision, an id of the other kind
/// or a counter limit, and the state before it is coherent.
pub open spec fn clear_block(m: ChainModel, b: BlockModel, pre: Seq<Option<BlockchainError>>) -> bool {
    let now = m.canonical.last().header.timestamp;
    &&& coherent(m.state)
    &&& m.state.queue.finite()
    &&& leaves_apart(m.state.entries)
    &&& has_room(m.state)
    &&& clear_run(collected(m.state, now).0, m.network.network_id, b.txs, pre, now)
}

/// The chain with a block on top, before the window slides.
pub open spec fn grown(m: ChainModel, b: BlockModel, pre: Seq<Option<BlockchainError>>) -> ChainModel {
    let hash = hash_of_header(b.header)->Ok_0;
    ChainModel {
        state: block_run(m, b, pre).0,
        known: m.known.insert(b.header.height, hash),
        canonical: m.canonical.push(b),
        tip: hash,
        ..m
    }
}

/// A chain keeps its layout when a block at the next height is added.
pub proof fn lemma_grown_layout(m: ChainModel, b: BlockModel, pre: Seq<Option<BlockchainError>>)
    requires
        m.laid_out(),
        b.header.height == m.height() + 1,
    ensures
        grown(m, b, pre).laid_out(),
{
    let g = grown(m, b, pre);
    assert(m.canonical[m.canonical.len() - 1].header.height == m.height());
    if m.base_height == 0 {
        assert forall|i: int| 0 <= i < g.canonical.len() implies (#[trigger] g.canonical[i]).header.height == i by {
            if i < m.canonical.len() {
                assert(m.canonical[i].header.height == i);
            } else {
                assert(m.canonical[i - 1].header.height == i - 1);
            }
        }
    } else {
        assert forall|i: int| 1 <= i < g.canonical.len() implies (#[trigger] g.canonical[i]).header.height
            == g.base_height + i - 1 by {
            if i < m.canonical.len() {
                assert(m.canonical[i].header.height == m.base_height + i - 1);
            } else {
                assert(m.canonical[i - 1].header.height == m.base_height + i - 2);
            }
        }
    }
}

/// A chain keeps its layout when a block at the next height is added and
/// the window slides.
pub proof fn lemma_extended_layout(m: ChainModel, b: BlockModel, pre: Seq<Option<BlockchainError>>)
    requires
        m.laid_out(),
        b.header.height == m.height() + 1,
    ensures
        extended(m, b, pre).laid_out(),
        extended(m, b, pre).height() == b.header.height,
        extended(m, b, pre).canonical.last() == b,
        extended(m, b, pre).canonical[0] == m.canonical[0],
{
    lemma_grown_layout(m, b, pre);
    lemma_evicted_layout(grown(m, b, pre));
}

/// Sliding the window keeps the layout, the genesis and the tip.
pub proof fn lemma_evicted_layout(g: ChainModel)
    requires
        g.laid_out(),
    ensures
        g.evicted().laid_out(),
        g.evicted().canonical[0] == g.canonical[0],
        g.evicted().canonical.last() == g.canonical.last(),
        g.next_base() > g.base_height ==> {
            let n = if g.base_height == 0 {
                g.next_base() - 1
            } else {
                g.next_base() - g.base_height
            };
            0 <= n && 1 + n < g.canonical.len()
        },
{
    let low = g.next_base();
    let t = g.evicted();
    if low > g.base_height {
        let n = if g.base_height == 0 {
            low - 1
        } else {
            low - g.base_height
        };
        let last = g.canonical.len() - 1;
        assert(g.canonical[last].header.height == g.height());
        if g.base_height == 0 {
            assert(g.canonical[last].header.height == last);
        } else {
            assert(g.canonical[last].header.height == g.base_height + last - 1);
        }
        assert(low <= g.height());
        assert(1 + n <= last);
        assert(t.canonical.len() == g.canonical.len() - n);
        assert forall|i: int| 1 <= i < t.canonical.len() implies (#[trigger] t.canonical[i]).header.height == t.base_height
            + i - 1 by {
            assert(t.canonical[i] == g.canonical[i + n]);
            assert(g.canonical[i + n].header.height == low + i - 1);
        }
        assert(t.canonical.last() == g.canonical[last]);
    }
}

} // verus!

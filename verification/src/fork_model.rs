//! Model of the fork choice: which branch wins, and what a switch to it
//! makes of the chain.
use vstd::prelude::*;
use crate::block_hash::hash_of_header;
use crate::chain_model::ChainModel;
use crate::chain_model::block_fault;
use crate::chain_model::block_run;
use crate::chain_model::extended;
use crate::chain_model::genesis_chain;
use crate::chain_model::next_expired;
use crate::chain_model::pre_fault;
use crate::error::BlockchainError;
use crate::error::ConsensusFault;
use crate::ids::BlockHash;
use crate::ids::DomainId;
use crate::ids::PublicKey;
use crate::ids::ordinal;
use crate::state_model::undone;
use crate::types::BlockModel;
use crate::types::CheckpointModel;
use crate::types::TxModel;

verus! {

/// The chain from which a branch switch replays: the genesis, with the
/// finality carried over.
pub open spec fn restarted(m: ChainModel) -> ChainModel {
    ChainModel { checkpoints: m.checkpoints, finalized: m.finalized, ..genesis_chain(m.network) }
}

/// Refusals of transactions before the state rules, without consensus rules.
pub open spec fn open_pre(txs: Seq<TxModel>) -> Seq<Option<BlockchainError>> {
    txs.map_values(|t: TxModel| pre_fault(t, None))
}

/// The chain after a block was offered to it, and why it was refused, without
/// consensus rules.
#[verifier::opaque]
pub open spec fn tried(m: ChainModel, b: BlockModel, producers: Seq<PublicKey>) -> (
    ChainModel,
    Option<BlockchainError>,
) {
    match block_fault(m, b, None, producers) {
        Some(e) => (m, Some(e)),
        None => {
            let (s, log, refusal) = block_run(m, b, open_pre(b.txs));
            match refusal {
                Some(e) => (ChainModel { state: undone(s, log), ..m }, Some(e)),
                None => (extended(m, b, open_pre(b.txs)), None),
            }
        },
    }
}

/// The chain after a pushed block, or why it is refused, without consensus
/// rules.
pub open spec fn pushed(m: ChainModel, b: BlockModel, producers: Seq<PublicKey>) -> Result<
    ChainModel,
    BlockchainError,
> {
    match tried(m, b, producers) {
        (c, None) => Ok(c),
        (_, Some(e)) => Err(e),
    }
}

/// The chain after a block was offered for attachment, and why it was
/// refused.
pub open spec fn attached(m: ChainModel, b: BlockModel, lists: Seq<Seq<PublicKey>>) -> (
    ChainModel,
    Option<BlockchainError>,
) {
    match attachment(m, b) {
        Some(e) => (m, Some(e)),
        None => if b.header.prev_hash == m.tip {
            tried(m, b, lists[0])
        } else {
            match switched(m, (b.header.height - 1) as u64, seq![b], lists) {
                Err(e) => (m, Some(e)),
                Ok(c) => (c, None),
            }
        },
    }
}

/// The number of producer lists that attaching a block takes.
pub open spec fn attach_lists(m: ChainModel, b: BlockModel) -> nat {
    if attachment(m, b) is Some {
        0
    } else if b.header.prev_hash == m.tip {
        1
    } else if !has_prefix(m, (b.header.height - 1) as u64) {
        0
    } else {
        b.header.height as nat
    }
}

/// The chain after a branch was offered for adoption, and whether it was
/// adopted.
pub open spec fn adopted(m: ChainModel, blocks: Seq<BlockModel>, lists: Seq<Seq<PublicKey>>) -> (ChainModel, bool) {
    match adoption(m, blocks) {
        Ok(true) => match switched(m, (blocks[0].header.height - 1) as u64, blocks, lists) {
            Ok(c) => (c, true),
            Err(_) => (m, false),
        },
        _ => (m, false),
    }
}

/// The number of producer lists that adopting a branch takes.
pub open spec fn adopt_lists(m: ChainModel, blocks: Seq<BlockModel>) -> int {
    if adoption(m, blocks) == Ok::<bool, BlockchainError>(true) && has_prefix(
        m,
        (blocks[0].header.height - 1) as u64,
    ) {
        blocks[0].header.height - 1 + blocks.len()
    } else {
        0
    }
}

/// The chain after several pushed blocks, each under its own producers, or
/// why one is refused.
pub open spec fn replayed(m: ChainModel, blocks: Seq<BlockModel>, producers: Seq<Seq<PublicKey>>) -> Result<
    ChainModel,
    BlockchainError,
>
    decreases blocks.len(),
{
    if blocks.len() == 0 {
        Ok(m)
    } else {
        match replayed(m, blocks.drop_last(), producers) {
            Err(e) => Err(e),
            Ok(c) => pushed(c, blocks.last(), producers[blocks.len() - 1]),
        }
    }
}

/// Domains that the expiry collections of a replay take out, from the block
/// at index `from` on.
pub open spec fn expired_in(
    m: ChainModel,
    blocks: Seq<BlockModel>,
    producers: Seq<Seq<PublicKey>>,
    from: nat,
) -> Seq<DomainId>
    decreases blocks.len(),
{
    if blocks.len() <= from {
        Seq::empty()
    } else {
        let rest = blocks.drop_last();
        expired_in(m, rest, producers, from) + next_expired(replayed(m, rest, producers)->Ok_0)
    }
}

/// The producer lists as values.
pub open spec fn producer_lists(producers: Seq<Vec<PublicKey>>) -> Seq<Seq<PublicKey>> {
    producers.map_values(|p: Vec<PublicKey>| p@)
}

/// Why the blocks of a branch, from index `i` on, do not chain.
pub open spec fn chain_fault(blocks: Seq<BlockModel>, i: nat) -> Option<BlockchainError>
    decreases blocks.len() - i,
{
    if i >= blocks.len() {
        None
    } else if i == 0 {
        chain_fault(blocks, 1)
    } else {
        match hash_of_header(blocks[i - 1].header) {
            Err(e) => Some(e),
            Ok(h) => if blocks[i as int].header.prev_hash != h {
                Some(BlockchainError::Consensus(ConsensusFault::BranchDoesNotChain))
            } else {
                chain_fault(blocks, i + 1)
            },
        }
    }
}

/// The block at a height on the branch that leaves our chain above `base`.
pub open spec fn branch_block(m: ChainModel, base: u64, blocks: Seq<BlockModel>, height: u64) -> Option<BlockModel> {
    if height <= base {
        m.block(height)
    } else if height - base - 1 < blocks.len() {
        Some(blocks[height - base - 1])
    } else {
        None
    }
}

/// Whether a branch holds the block of a checkpoint at its height.
pub open spec fn branch_holds(m: ChainModel, base: u64, blocks: Seq<BlockModel>, cp: CheckpointModel) -> bool {
    match branch_block(m, base, blocks, cp.data.height) {
        Some(b) => hash_of_header(b.header) == Ok::<BlockHash, BlockchainError>(cp.data.block_hash),
        None => false,
    }
}

/// Whether a branch holds the block of every finalized checkpoint.
pub open spec fn keeps_finality(m: ChainModel, base: u64, blocks: Seq<BlockModel>) -> bool {
    forall|i: int| 0 <= i < m.checkpoints.len() ==> branch_holds(m, base, blocks, #[trigger] m.checkpoints[i])
}

/// Whether a chain of a height and tip hash beats ours: it is longer, or as
/// long with a lower hash.
pub open spec fn beats(m: ChainModel, height: int, tip: BlockHash) -> bool {
    height > m.height() || (height == m.height() && ordinal(tip) < ordinal(m.tip))
}

/// Whether a branch is to be adopted, or why it is refused.
pub open spec fn adoption(m: ChainModel, blocks: Seq<BlockModel>) -> Result<bool, BlockchainError> {
    if blocks.len() == 0 {
        Ok(false)
    } else if chain_fault(blocks, 0) is Some {
        Err(chain_fault(blocks, 0)->0)
    } else if blocks[0].header.height == 0 {
        Err(BlockchainError::UnknownParent)
    } else {
        let base = (blocks[0].header.height - 1) as u64;
        match m.block(base) {
            None => Err(m.parent_miss(blocks[0].header.height)),
            Some(b) => match hash_of_header(b.header) {
                Err(e) => Err(e),
                Ok(h) => if blocks[0].header.prev_hash != h {
                    Err(BlockchainError::UnknownParent)
                } else if !keeps_finality(m, base, blocks) {
                    Err(BlockchainError::Consensus(ConsensusFault::ContradictsFinalized))
                } else {
                    match hash_of_header(blocks.last().header) {
                        Err(e) => Err(e),
                        Ok(tip) => Ok(beats(m, base + blocks.len(), tip)),
                    }
                },
            },
        }
    }
}

/// Whether a finalized checkpoint stands at a height with another block.
pub open spec fn finalized_otherwise(m: ChainModel, height: u64, hash: BlockHash) -> bool {
    exists|i: int|
        0 <= i < m.checkpoints.len() && (#[trigger] m.checkpoints[i]).data.height == height
            && m.checkpoints[i].data.block_hash != hash
}

/// Whether a single block whose parent is not the tip replaces it, or why
/// not: only a sister of the tip with a lower hash does, and never one that
/// undoes a finalized block. Of a block on the tip it says true as well.
pub open spec fn attachment(m: ChainModel, b: BlockModel) -> Option<BlockchainError> {
    let h = b.header;
    if h.prev_hash == m.tip {
        None
    } else if !m.knows(h.prev_hash) {
        Some(m.parent_miss(h.height))
    } else if h.height != m.height() || h.height == 0 {
        Some(BlockchainError::ParentNotTip)
    } else {
        match hash_of_header(h) {
            Err(e) => Some(e),
            Ok(hash) => if ordinal(hash) >= ordinal(m.tip) {
                Some(BlockchainError::ParentNotTip)
            } else if finalized_otherwise(m, h.height, hash) {
                Some(BlockchainError::Consensus(ConsensusFault::ContradictsFinalized))
            } else {
                None
            },
        }
    }
}

/// Whether all blocks from 1 up to a height are in memory.
pub open spec fn has_prefix(m: ChainModel, height: u64) -> bool {
    forall|h: u64| 1 <= h <= height ==> #[trigger] m.block(h) is Some
}

/// The blocks from 1 up to a height.
pub open spec fn kept_blocks(m: ChainModel, height: u64) -> Seq<BlockModel> {
    Seq::new(height as nat, |i: int| m.block((i + 1) as u64)->0)
}

/// The chain after the switch to a branch above `base`, or why its replay
/// fails.
pub open spec fn switched(
    m: ChainModel,
    base: u64,
    blocks: Seq<BlockModel>,
    producers: Seq<Seq<PublicKey>>,
) -> Result<ChainModel, BlockchainError> {
    if !has_prefix(m, base) {
        Err(BlockchainError::UnknownParent)
    } else {
        replayed(restarted(m), kept_blocks(m, base) + blocks, producers)
    }
}

/// One more block of a replay.
pub proof fn lemma_replay_grows(
    m: ChainModel,
    blocks: Seq<BlockModel>,
    producers: Seq<Seq<PublicKey>>,
    i: int,
    kept: nat,
    c: ChainModel,
)
    requires
        0 <= i < blocks.len(),
        replayed(m, blocks.subrange(0, i), producers) == Ok::<ChainModel, BlockchainError>(c),
    ensures
        replayed(m, blocks.subrange(0, i + 1), producers) == pushed(c, blocks[i], producers[i]),
        expired_in(m, blocks.subrange(0, i + 1), producers, kept) == (if i >= kept {
            expired_in(m, blocks.subrange(0, i), producers, kept) + next_expired(c)
        } else {
            expired_in(m, blocks.subrange(0, i), producers, kept)
        }),
{
    let more = blocks.subrange(0, i + 1);
    assert(more.drop_last() =~= blocks.subrange(0, i));
    assert(more.last() == blocks[i]);
}

/// A refusal in a prefix is the refusal of the whole replay.
pub proof fn lemma_replay_stops(m: ChainModel, blocks: Seq<BlockModel>, producers: Seq<Seq<PublicKey>>, n: int)
    requires
        0 <= n <= blocks.len(),
        replayed(m, blocks.subrange(0, n), producers) is Err,
    ensures
        replayed(m, blocks, producers) == replayed(m, blocks.subrange(0, n), producers),
    decreases blocks.len() - n,
{
    if n == blocks.len() {
        assert(blocks.subrange(0, n) =~= blocks);
    } else {
        assert(blocks.subrange(0, n + 1).drop_last() =~= blocks.subrange(0, n));
        lemma_replay_stops(m, blocks, producers, n + 1);
    }
}

/// A replay stays on its network and keeps the finality it started with.
pub proof fn lemma_replay_keeps(m: ChainModel, blocks: Seq<BlockModel>, producers: Seq<Seq<PublicKey>>)
    requires
        replayed(m, blocks, producers) is Ok,
    ensures
        replayed(m, blocks, producers)->Ok_0.network == m.network,
        replayed(m, blocks, producers)->Ok_0.checkpoints == m.checkpoints,
        replayed(m, blocks, producers)->Ok_0.finalized == m.finalized,
    decreases blocks.len(),
{
    if blocks.len() > 0 {
        reveal(tried);
        lemma_replay_keeps(m, blocks.drop_last(), producers);
    }
}

/// A switch stays on the network.
pub proof fn lemma_switch_network(
    m: ChainModel,
    base: u64,
    blocks: Seq<BlockModel>,
    producers: Seq<Seq<PublicKey>>,
)
    ensures
        switched(m, base, blocks, producers) matches Ok(c) ==> c.network == m.network,
{
    if has_prefix(m, base) && switched(m, base, blocks, producers) is Ok {
        lemma_replay_keeps(restarted(m), kept_blocks(m, base) + blocks, producers);
    }
}

} // verus!

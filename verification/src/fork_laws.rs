//! What the fork choice promises: which branch wins, and what a switch to it
//! makes of the chain.
use vstd::prelude::*;
use crate::block_hash::hash_of_header;
use crate::chain_model::ChainModel;
use crate::chain_model::lemma_extended_layout;
use crate::chain_model::next_expired;
use crate::error::BlockchainError;
use crate::error::ConsensusFault;
use crate::fork_model::adopted;
use crate::fork_model::adoption;
use crate::fork_model::attached;
use crate::fork_model::attachment;
use crate::fork_model::branch_holds;
use crate::fork_model::chain_fault;
use crate::fork_model::expired_in;
use crate::fork_model::has_prefix;
use crate::fork_model::keeps_finality;
use crate::fork_model::kept_blocks;
use crate::fork_model::lemma_replay_keeps;
use crate::fork_model::open_pre;
use crate::fork_model::replayed;
use crate::fork_model::restarted;
use crate::fork_model::tried;
use crate::genesis::genesis_model;
use crate::ids::BlockHash;
use crate::ids::DomainId;
use crate::ids::PublicKey;
use crate::ids::ordinal;
use crate::state_model::collected;
use crate::types::BlockModel;

verus! {

/// Whether the blocks of a branch each name the hash of the one before.
pub open spec fn linked_branch(blocks: Seq<BlockModel>) -> bool {
    forall|i: int|
        1 <= i < blocks.len() ==> hash_of_header(blocks[i - 1].header) == Ok::<BlockHash, BlockchainError>(
            (#[trigger] blocks[i]).header.prev_hash,
        )
}

/// Whether a branch hangs on our block below its first one.
pub open spec fn hangs_on_ours(m: ChainModel, blocks: Seq<BlockModel>) -> bool {
    &&& blocks[0].header.height >= 1
    &&& m.block((blocks[0].header.height - 1) as u64) matches Some(b) && hash_of_header(b.header) == Ok::<
        BlockHash,
        BlockchainError,
    >(blocks[0].header.prev_hash)
}

/// Whether a branch holds every finalized block: ours where it has left us
/// untouched, its own above.
pub open spec fn holds_finalized_blocks(m: ChainModel, blocks: Seq<BlockModel>) -> bool {
    forall|i: int|
        0 <= i < m.checkpoints.len() ==> {
            let cp = #[trigger] m.checkpoints[i];
            let at = cp.data.height - blocks[0].header.height;
            if at < 0 {
                m.block(cp.data.height) matches Some(b) && hash_of_header(b.header) == Ok::<
                    BlockHash,
                    BlockchainError,
                >(cp.data.block_hash)
            } else {
                at < blocks.len() && hash_of_header(blocks[at].header) == Ok::<BlockHash, BlockchainError>(
                    cp.data.block_hash,
                )
            }
        }
}

/// A branch has no chaining fault exactly if it is linked.
proof fn lemma_chain_fault(blocks: Seq<BlockModel>, i: nat)
    ensures
        chain_fault(blocks, i) is None <==> forall|j: int|
            i <= j < blocks.len() && 1 <= j ==> hash_of_header(blocks[j - 1].header) == Ok::<
                BlockHash,
                BlockchainError,
            >((#[trigger] blocks[j]).header.prev_hash),
    decreases blocks.len() - i,
{
    if i < blocks.len() {
        lemma_chain_fault(blocks, i + 1);
        if i > 0 {
            let here = hash_of_header(blocks[i - 1].header) == Ok::<BlockHash, BlockchainError>(
                blocks[i as int].header.prev_hash,
            );
            assert(here ==> chain_fault(blocks, i) == chain_fault(blocks, i + 1));
            assert(!here ==> chain_fault(blocks, i) is Some);
        }
    }
}

/// A branch that chains, hangs on a block of ours in memory and holds every
/// finalized block is to be adopted exactly if its tip is higher than ours,
/// or as high with a lower hash; how far below the tip it leaves our chain
/// does not matter.
pub proof fn law_heavier_branch_is_adopted(m: ChainModel, blocks: Seq<BlockModel>, tip: BlockHash)
    requires
        blocks.len() > 0,
        linked_branch(blocks),
        hangs_on_ours(m, blocks),
        holds_finalized_blocks(m, blocks),
        hash_of_header(blocks[blocks.len() - 1].header) == Ok::<BlockHash, BlockchainError>(tip),
    ensures
        ({
            let theirs = blocks[0].header.height + blocks.len() - 1;
            let ours = m.canonical.last().header.height;
            &&& theirs > ours ==> adoption(m, blocks) == Ok::<bool, BlockchainError>(true)
            &&& theirs == ours && ordinal(tip) < ordinal(m.tip) ==> adoption(m, blocks) == Ok::<
                bool,
                BlockchainError,
            >(true)
            &&& theirs == ours && ordinal(tip) >= ordinal(m.tip) ==> adoption(m, blocks) == Ok::<
                bool,
                BlockchainError,
            >(false)
            &&& theirs < ours ==> adoption(m, blocks) == Ok::<bool, BlockchainError>(false)
        }),
{
    lemma_chain_fault(blocks, 0);
    let base = (blocks[0].header.height - 1) as u64;
    assert(blocks.last() == blocks[blocks.len() - 1]);
    assert forall|i: int| 0 <= i < m.checkpoints.len() implies branch_holds(
        m,
        base,
        blocks,
        #[trigger] m.checkpoints[i],
    ) by {
        let cp = m.checkpoints[i];
        let at = cp.data.height - blocks[0].header.height;
        assert(cp.data.height - base - 1 == at);
    }
}

/// Only such a branch is judged at all: of any other the verdict is an error,
/// except that an empty one is no reason to switch.
pub proof fn law_other_branches_are_refused(m: ChainModel, blocks: Seq<BlockModel>)
    ensures
        blocks.len() == 0 ==> adoption(m, blocks) == Ok::<bool, BlockchainError>(false),
        blocks.len() > 0 && adoption(m, blocks) is Ok ==> linked_branch(blocks) && hangs_on_ours(m, blocks)
            && holds_finalized_blocks(m, blocks),
        blocks.len() > 0 && linked_branch(blocks) && hangs_on_ours(m, blocks) && !holds_finalized_blocks(m, blocks)
            ==> adoption(m, blocks) == Err::<bool, BlockchainError>(
            BlockchainError::Consensus(ConsensusFault::ContradictsFinalized),
        ),
{
    if blocks.len() > 0 {
        lemma_chain_fault(blocks, 0);
        if linked_branch(blocks) && hangs_on_ours(m, blocks) {
            let base = (blocks[0].header.height - 1) as u64;
            assert forall|i: int| 0 <= i < m.checkpoints.len() implies branch_holds(
                m,
                base,
                blocks,
                #[trigger] m.checkpoints[i],
            ) == {
                let cp = m.checkpoints[i];
                let at = cp.data.height - blocks[0].header.height;
                if at < 0 {
                    m.block(cp.data.height) matches Some(b) && hash_of_header(b.header) == Ok::<
                        BlockHash,
                        BlockchainError,
                    >(cp.data.block_hash)
                } else {
                    at < blocks.len() && hash_of_header(blocks[at].header) == Ok::<BlockHash, BlockchainError>(
                        cp.data.block_hash,
                    )
                }
            } by {
                let cp = m.checkpoints[i];
                let at = cp.data.height - blocks[0].header.height;
                assert(cp.data.height - base - 1 == at);
            }
            if keeps_finality(m, base, blocks) {
                assert forall|i: int| 0 <= i < m.checkpoints.len() implies {
                    let cp = #[trigger] m.checkpoints[i];
                    let at = cp.data.height - blocks[0].header.height;
                    if at < 0 {
                        m.block(cp.data.height) matches Some(b) && hash_of_header(b.header) == Ok::<
                            BlockHash,
                            BlockchainError,
                        >(cp.data.block_hash)
                    } else {
                        at < blocks.len() && hash_of_header(blocks[at].header) == Ok::<BlockHash, BlockchainError>(
                            cp.data.block_hash,
                        )
                    }
                } by {
                    assert(branch_holds(m, base, blocks, m.checkpoints[i]));
                }
                assert(holds_finalized_blocks(m, blocks));
            }
        }
    }
}

/// The last block of a replay is its tip, one block higher for each.
proof fn lemma_replayed_tip(m: ChainModel, blocks: Seq<BlockModel>, producers: Seq<Seq<PublicKey>>)
    requires
        m.laid_out(),
        replayed(m, blocks, producers) is Ok,
    ensures
        ({
            let c = replayed(m, blocks, producers)->Ok_0;
            &&& c.laid_out()
            &&& c.canonical[0] == m.canonical[0]
            &&& c.canonical.last().header.height == m.canonical.last().header.height + blocks.len()
            &&& blocks.len() > 0 ==> c.canonical.last() == blocks.last() && hash_of_header(blocks.last().header)
                == Ok::<BlockHash, BlockchainError>(c.tip)
        }),
    decreases blocks.len(),
{
    if blocks.len() > 0 {
        reveal(tried);
        lemma_replayed_tip(m, blocks.drop_last(), producers);
        let c = replayed(m, blocks.drop_last(), producers)->Ok_0;
        let b = blocks.last();
        lemma_extended_layout(c, b, open_pre(b.txs));
    }
}

/// A branch is adopted exactly if the verdict is for it, all our blocks below
/// it are in memory and the whole of it replays. The chain then ends in its
/// last block, at its height, with our finality; a branch that is not adopted
/// leaves the chain as it was.
pub proof fn law_switching(m: ChainModel, blocks: Seq<BlockModel>, lists: Seq<Seq<PublicKey>>)
    ensures
        adopted(m, blocks, lists).1 <==> {
            &&& adoption(m, blocks) == Ok::<bool, BlockchainError>(true)
            &&& forall|h: u64| 1 <= h < blocks[0].header.height ==> #[trigger] m.block(h) is Some
            &&& replayed(
                restarted(m),
                kept_blocks(m, (blocks[0].header.height - 1) as u64) + blocks,
                lists,
            ) is Ok
        },
        !adopted(m, blocks, lists).1 ==> adopted(m, blocks, lists).0 == m,
        adopted(m, blocks, lists).1 ==> {
            let c = adopted(m, blocks, lists).0;
            &&& c.canonical.last() == blocks[blocks.len() - 1]
            &&& c.canonical.last().header.height == blocks[0].header.height + blocks.len() - 1
            &&& hash_of_header(blocks[blocks.len() - 1].header) == Ok::<BlockHash, BlockchainError>(c.tip)
            &&& c.checkpoints == m.checkpoints && c.finalized == m.finalized && c.network == m.network
        },
{
    if adoption(m, blocks) == Ok::<bool, BlockchainError>(true) {
        assert(blocks.len() > 0);
        let base = (blocks[0].header.height - 1) as u64;
        assert(has_prefix(m, base) <==> forall|h: u64|
            1 <= h < blocks[0].header.height ==> #[trigger] m.block(h) is Some) by {
            if has_prefix(m, base) {
                assert forall|h: u64| 1 <= h < blocks[0].header.height implies #[trigger] m.block(h) is Some by {}
            }
            if forall|h: u64| 1 <= h < blocks[0].header.height ==> #[trigger] m.block(h) is Some {
                assert forall|h: u64| 1 <= h <= base implies #[trigger] m.block(h) is Some by {}
            }
        }
        let all = kept_blocks(m, base) + blocks;
        if has_prefix(m, base) && replayed(restarted(m), all, lists) is Ok {
            let c = replayed(restarted(m), all, lists)->Ok_0;
            assert(adopted(m, blocks, lists) == (c, true));
            assert(restarted(m).laid_out());
            lemma_replayed_tip(restarted(m), all, lists);
            lemma_replay_keeps(restarted(m), all, lists);
            assert(all.last() == blocks[blocks.len() - 1]);
            assert(all.len() == base + blocks.len());
            assert(restarted(m).canonical.last() == genesis_model(m.network));
        }
    }
}

/// A single block replaces the tip exactly if it is a sister of the tip with
/// a lower hash and stands against no finalized block; a block on the tip is
/// not turned away here.
pub proof fn law_sisters(m: ChainModel, b: BlockModel)
    ensures
        b.header.prev_hash == m.tip ==> attachment(m, b) is None,
        b.header.prev_hash != m.tip ==> (attachment(m, b) is None <==> {
            &&& exists|n: u64| #[trigger] m.known.contains_key(n) && m.known[n] == b.header.prev_hash
            &&& b.header.height == m.canonical.last().header.height
            &&& b.header.height >= 1
            &&& hash_of_header(b.header) matches Ok(hash) && ordinal(hash) < ordinal(m.tip) && forall|i: int|
                0 <= i < m.checkpoints.len() && (#[trigger] m.checkpoints[i]).data.height == b.header.height
                    ==> m.checkpoints[i].data.block_hash == hash
        }),
        b.header.prev_hash != m.tip && !(exists|n: u64| #[trigger]
            m.known.contains_key(n) && m.known[n] == b.header.prev_hash) ==> attachment(m, b) == Some(
            if 2 <= b.header.height <= m.base_height {
                BlockchainError::BlockPruned { height: (b.header.height - 1) as u64 }
            } else {
                BlockchainError::UnknownParent
            },
        ),
{
}

/// The same holds of the chain that an attachment gives: it ends in the
/// block, at its height, or stays as it was where the block is turned away
/// before its transactions run.
pub proof fn law_attaching(m: ChainModel, b: BlockModel, lists: Seq<Seq<PublicKey>>)
    requires
        m.laid_out(),
    ensures
        attached(m, b, lists).1 is None ==> {
            let c = attached(m, b, lists).0;
            &&& attachment(m, b) is None
            &&& c.canonical.last() == b
            &&& hash_of_header(b.header) == Ok::<BlockHash, BlockchainError>(c.tip)
            &&& c.checkpoints == m.checkpoints && c.finalized == m.finalized && c.network == m.network
        },
        attachment(m, b) is Some ==> attached(m, b, lists) == (m, attachment(m, b)),
        attached(m, b, lists).1 is Some && b.header.prev_hash != m.tip ==> attached(m, b, lists).0 == m,
        b.header.prev_hash == m.tip ==> attached(m, b, lists) == tried(m, b, lists[0]),
{
    if attached(m, b, lists).1 is None {
        reveal(tried);
        if b.header.prev_hash == m.tip {
            lemma_extended_layout(m, b, open_pre(b.txs));
        } else {
            let base = (b.header.height - 1) as u64;
            let all = kept_blocks(m, base) + seq![b];
            assert(restarted(m).laid_out());
            lemma_replayed_tip(restarted(m), all, lists);
            lemma_replay_keeps(restarted(m), all, lists);
            assert(all.last() == b);
        }
    }
}

/// A replay reports a domain exactly if one of the reported blocks took it
/// out: its parent's state held it, expired by the parent's time.
pub proof fn law_replay_reports_the_expired(
    m: ChainModel,
    blocks: Seq<BlockModel>,
    producers: Seq<Seq<PublicKey>>,
    from: nat,
    id: DomainId,
)
    ensures
        expired_in(m, blocks, producers, from).contains(id) <==> exists|i: int|
            from <= i < blocks.len() && {
                let parent = replayed(m, #[trigger] blocks.take(i), producers)->Ok_0;
                collected(parent.state, parent.canonical.last().header.timestamp).2.contains(id)
            },
    decreases blocks.len(),
{
    if blocks.len() > from {
        let front = blocks.drop_last();
        let n = front.len() as int;
        law_replay_reports_the_expired(m, front, producers, from, id);
        let some = expired_in(m, front, producers, from);
        let parent = replayed(m, front, producers)->Ok_0;
        let more = next_expired(parent);
        let all = some + more;
        assert(blocks.take(n) =~= front);
        assert forall|i: int| 0 <= i < n implies #[trigger] blocks.take(i) == front.take(i) by {
            assert(blocks.take(i) =~= front.take(i));
        }
        if all.contains(id) {
            let j = choose|j: int| 0 <= j < all.len() && all[j] == id;
            if j < some.len() {
                assert(some[j] == id);
                assert(some.contains(id));
                let i = choose|i: int|
                    from <= i < front.len() && {
                        let p = replayed(m, #[trigger] front.take(i), producers)->Ok_0;
                        collected(p.state, p.canonical.last().header.timestamp).2.contains(id)
                    };
                assert(blocks.take(i) == front.take(i));
            } else {
                assert(more[j - some.len()] == id);
                assert(more.contains(id));
                assert(blocks.take(n) == front);
            }
        }
        if exists|i: int|
            from <= i < blocks.len() && {
                let p = replayed(m, #[trigger] blocks.take(i), producers)->Ok_0;
                collected(p.state, p.canonical.last().header.timestamp).2.contains(id)
            } {
            let i = choose|i: int|
                from <= i < blocks.len() && {
                    let p = replayed(m, #[trigger] blocks.take(i), producers)->Ok_0;
                    collected(p.state, p.canonical.last().header.timestamp).2.contains(id)
                };
            if i < n {
                assert(blocks.take(i) == front.take(i));
                assert(some.contains(id));
                let j = choose|j: int| 0 <= j < some.len() && some[j] == id;
                assert(all[j] == id);
            } else {
                assert(more.contains(id));
                let j = choose|j: int| 0 <= j < more.len() && more[j] == id;
                assert(all[some.len() + j] == id);
            }
        }
    }
}

} // verus!

//! What every chain keeps: its genesis, its links, its window, its replay
//! protection and its finality.
use vstd::prelude::*;
use crate::block_hash::hash_of_header;
use crate::chain_model::ChainModel;
use crate::chain_model::RAM_WINDOW_BLOCKS;
use crate::chain_model::REPLAY_WINDOW_BLOCKS;
use crate::chain_model::block_fault;
use crate::chain_model::block_run;
use crate::chain_model::clear_block;
use crate::chain_model::extended;
use crate::chain_model::genesis_chain;
use crate::chain_model::grown;
use crate::chain_model::has_replay;
use crate::chain_model::lemma_evicted_layout;
use crate::chain_model::lemma_extended_layout;
use crate::chain_model::lemma_grown_layout;
use crate::chain_model::noted;
use crate::error::BlockchainError;
use crate::finality::Tally;
use crate::finality::checkpoint_refusal;
use crate::finality::finalized_with;
use crate::fork_model::adoption;
use crate::fork_model::attachment;
use crate::fork_model::beats;
use crate::fork_model::branch_block;
use crate::fork_model::branch_holds;
use crate::fork_model::kept_blocks;
use crate::fork_model::lemma_replay_keeps;
use crate::fork_model::open_pre;
use crate::fork_model::replayed;
use crate::fork_model::restarted;
use crate::fork_model::switched;
use crate::fork_model::tried;
use crate::genesis::genesis_digest;
use crate::genesis::genesis_model;
use crate::ids::BlockHash;
use crate::ids::Digest;
use crate::ids::PublicKey;
use crate::ids::lemma_ordinal_injective;
use crate::ids::ordinal;
use crate::state_laws::coherent;
use crate::state_laws::law_block_rollback;
use crate::txid::tx_id;
use crate::types::BlockModel;
use crate::types::CheckpointData;
use crate::types::CheckpointModel;
use crate::types::NetworkModel;
use crate::types::TxModel;

verus! {

/// A block in memory builds on the one before it.
pub open spec fn builds_on_previous(m: ChainModel, i: int) -> bool {
    hash_of_header(m.canonical[i - 1].header) == Ok::<BlockHash, BlockchainError>(m.canonical[i].header.prev_hash)
}

/// A block in memory has its hash in the index.
pub open spec fn indexed_at(m: ChainModel, i: int) -> bool {
    let h = m.canonical[i].header;
    m.known.contains_key(h.height) && hash_of_header(h) == Ok::<BlockHash, BlockchainError>(m.known[h.height])
}

/// Every block in memory has its hash in the index, builds on the one before
/// it, and the tip's hash is the tip; nothing else is in the index.
pub open spec fn linked(m: ChainModel) -> bool {
    &&& m.laid_out()
    &&& hash_of_header(m.canonical.last().header) == Ok::<BlockHash, BlockchainError>(m.tip)
    &&& forall|i: int|
        0 <= i < m.canonical.len() ==> #[trigger] indexed_at(m, i)
    &&& forall|i: int|
        1 <= i < m.canonical.len() && (m.base_height == 0 || i >= 2) ==> #[trigger] builds_on_previous(m, i)
    &&& forall|n: u64| #[trigger] m.known.contains_key(n) ==> m.block(n) is Some
}

/// Every id in the replay index was included within the window below the
/// tip.
pub open spec fn windowed(m: ChainModel) -> bool {
    forall|id: Digest| #[trigger]
        m.included.contains_key(id) ==> 1 <= m.included[id] <= m.height() && m.included[id]
            + REPLAY_WINDOW_BLOCKS > m.height()
}

/// The genesis never leaves memory: it is there at the start and after every
/// accepted block.
pub proof fn law_genesis_stays_in_memory(m: ChainModel, b: BlockModel, pre: Seq<Option<BlockchainError>>)
    requires
        m.laid_out(),
        m.rooted(),
        b.header.height == m.height() + 1,
    ensures
        genesis_chain(m.network).rooted(),
        m.block(0) == Some(genesis_model(m.network)),
        extended(m, b, pre).rooted(),
        extended(m, b, pre).block(0) == Some(genesis_model(m.network)),
{
    lemma_extended_layout(m, b, pre);
    lemma_grown_layout(m, b, pre);
    lemma_evicted_layout(grown(m, b, pre));
}

/// Before the first finalized checkpoint nothing is evicted.
pub proof fn law_no_eviction_before_finality(m: ChainModel)
    requires
        m.checkpoints.len() == 0,
    ensures
        m.evicted() == m,
{
}

/// Eviction never reaches the finality floor or the window: the genesis, the
/// blocks from the last finalized one on, and the newest blocks stay. Where
/// finality keeps up with the window, memory holds the genesis and at most
/// the window.
pub proof fn law_eviction_is_bounded(m: ChainModel)
    requires
        m.laid_out(),
        m.checkpoints.len() > 0,
        m.checkpoints.last().data.height <= m.height(),
    ensures
        forall|h: u64|
            h == 0 || h >= m.checkpoints.last().data.height || h + RAM_WINDOW_BLOCKS > m.height()
                ==> #[trigger] m.evicted().block(h) == m.block(h),
        m.checkpoints.last().data.height + RAM_WINDOW_BLOCKS > m.height() ==> m.evicted().canonical.len()
            <= RAM_WINDOW_BLOCKS + 1,
{
    let t = m.evicted();
    let low = m.next_base();
    lemma_evicted_layout(m);
    if low > m.base_height {
        let n = if m.base_height == 0 {
            low - 1
        } else {
            low - m.base_height
        };
        assert forall|i: int| 1 <= i < t.canonical.len() implies t.canonical[i] == m.canonical[i + n] by {}
        assert forall|h: u64|
            h == 0 || h >= m.checkpoints.last().data.height || h + RAM_WINDOW_BLOCKS
                > m.height() implies #[trigger] t.block(h) == m.block(h) by {
            if h > 0 {
                assert(h >= low);
                let i = h - low + 1;
                let j = if m.base_height == 0 {
                    h as int
                } else {
                    h - m.base_height + 1
                };
                assert(j == i + n);
                if i < t.canonical.len() {
                    assert(t.canonical[i] == m.canonical[j]);
                }
            }
        }
    }
    let last = t.canonical.len() - 1;
    assert(t.canonical[last].header.height == m.height());
    if m.checkpoints.last().data.height + RAM_WINDOW_BLOCKS > m.height() {
        if t.base_height == 0 {
            assert(t.canonical[last].header.height == last);
        } else {
            assert(t.canonical[last].header.height == t.base_height + last - 1);
        }
    }
}

/// What may become of a chain in one step: an accepted block, a finalized
/// checkpoint, or a refusal, which leaves everything but the state as it is.
pub open spec fn may_follow(m: ChainModel, t: ChainModel) -> bool {
    ||| exists|b: BlockModel, pre: Seq<Option<BlockchainError>>|
        b.header.height == m.height() + 1 && t == #[trigger] extended(m, b, pre)
    ||| exists|cp: CheckpointModel, tally: Tally, next_seed: Digest|
        #[trigger] checkpoint_refusal(m, cp.data, tally) is None && t == #[trigger] finalized_with(m, cp, next_seed)
    ||| t == (ChainModel { state: t.state, ..m })
}

/// Whether a history is that of a chain grown from the genesis of a network.
pub open spec fn grown_from(p: NetworkModel, history: Seq<ChainModel>) -> bool {
    &&& history.len() > 0
    &&& history[0] == genesis_chain(p)
    &&& forall|i: int| 1 <= i < history.len() ==> may_follow(history[i - 1], #[trigger] history[i])
}

/// The lower end of what must be in memory: the finality floor or the start
/// of the window, whichever is lower.
pub open spec fn memory_start(floor: u64, tip: u64) -> u64 {
    let start = if tip >= RAM_WINDOW_BLOCKS - 1 {
        (tip - (RAM_WINDOW_BLOCKS - 1)) as u64
    } else {
        0
    };
    if floor < start {
        floor
    } else {
        start
    }
}

/// Nothing above the lower end has left memory, and the floor is within the
/// chain.
pub open spec fn keeps_window(m: ChainModel) -> bool {
    &&& m.laid_out()
    &&& m.rooted()
    &&& match m.floor() {
        None => m.base_height == 0,
        Some(f) => f <= m.height() && m.base_height <= memory_start(f, m.height()),
    }
}

/// Every step keeps the window.
proof fn lemma_step_keeps_window(m: ChainModel, t: ChainModel)
    requires
        keeps_window(m),
        may_follow(m, t),
    ensures
        keeps_window(t),
        t.network == m.network,
{
    if exists|b: BlockModel, pre: Seq<Option<BlockchainError>>|
        b.header.height == m.height() + 1 && t == #[trigger] extended(m, b, pre) {
        let (b, pre) = choose|b: BlockModel, pre: Seq<Option<BlockchainError>>|
            b.header.height == m.height() + 1 && t == #[trigger] extended(m, b, pre);
        law_genesis_stays_in_memory(m, b, pre);
        lemma_extended_layout(m, b, pre);
        lemma_grown_layout(m, b, pre);
        let g = grown(m, b, pre);
        assert(g.floor() == m.floor());
        assert(t.floor() == m.floor());
    } else if exists|cp: CheckpointModel, tally: Tally, next_seed: Digest|
        #[trigger] checkpoint_refusal(m, cp.data, tally) is None && t == #[trigger] finalized_with(m, cp, next_seed) {
        let (cp, tally, next_seed) = choose|cp: CheckpointModel, tally: Tally, next_seed: Digest|
            #[trigger] checkpoint_refusal(m, cp.data, tally) is None && t == #[trigger] finalized_with(m, cp, next_seed);
        assert(t.checkpoints.last() == cp);
    }
}

/// Which heights are in memory, in every chain grown from a genesis by
/// blocks and checkpoints: the genesis; every height while nothing is
/// finalized; from the finality floor or the start of the window on, up to
/// the tip, afterwards. A block in memory stands at its height, and nothing
/// stands above the tip.
pub proof fn law_memory_of_every_chain(p: NetworkModel, history: Seq<ChainModel>, h: u64)
    requires
        grown_from(p, history),
    ensures
        ({
            let m = history.last();
            &&& m.laid_out()
            &&& m.rooted()
            &&& m.block(0) == Some(genesis_model(p))
            &&& m.floor() is None && h <= m.height() ==> m.block(h) is Some
            &&& m.floor() matches Some(f) ==> f <= m.height() && (memory_start(f, m.height()) <= h <= m.height()
                ==> m.block(h) is Some)
            &&& m.block(h) matches Some(b) ==> b.header.height == h
            &&& h > m.height() ==> m.block(h) is None
        }),
{
    lemma_grown_keeps_window(p, history);
    lemma_in_memory(history.last(), h);
}

/// Every chain so grown keeps the window.
proof fn lemma_grown_keeps_window(p: NetworkModel, history: Seq<ChainModel>)
    requires
        grown_from(p, history),
    ensures
        keeps_window(history.last()),
        history.last().network == p,
    decreases history.len(),
{
    if history.len() > 1 {
        let rest = history.drop_last();
        assert forall|i: int| 1 <= i < rest.len() implies may_follow(rest[i - 1], #[trigger] rest[i]) by {
            assert(may_follow(history[i - 1], history[i]));
        }
        lemma_grown_keeps_window(p, rest);
        assert(may_follow(history[history.len() - 2], history[history.len() - 1]));
        lemma_step_keeps_window(rest.last(), history.last());
    }
}

/// A height between the base and the tip is in memory, at its place.
proof fn lemma_in_memory(m: ChainModel, h: u64)
    requires
        m.laid_out(),
    ensures
        m.base_height <= h <= m.height() ==> m.block(h) is Some,
        m.block(h) matches Some(b) ==> b.header.height == h,
        h > m.height() ==> m.block(h) is None,
{
    let last = m.canonical.len() - 1;
    assert(m.canonical[last].header.height == m.height());
    if m.base_height == 0 {
        assert(m.canonical[last].header.height == last);
        if h <= m.height() {
            assert(m.canonical[h as int].header.height == h);
        }
    } else {
        assert(m.canonical[last].header.height == m.base_height + last - 1);
        if m.base_height <= h <= m.height() {
            assert(m.canonical[h - m.base_height + 1].header.height == h);
        }
    }
}

/// A chain at its genesis is linked.
pub proof fn law_genesis_is_linked(p: NetworkModel)
    ensures
        linked(genesis_chain(p)),
        windowed(genesis_chain(p)),
{
    let m = genesis_chain(p);
    assert(m.canonical[0] == genesis_model(p));
    assert(hash_of_header(genesis_model(p).header) == Ok::<BlockHash, BlockchainError>(genesis_digest(p)));
}

/// An accepted block keeps the chain linked: it builds on the tip and
/// becomes it.
pub proof fn law_push_keeps_links(
    m: ChainModel,
    b: BlockModel,
    hook: Option<BlockchainError>,
    producers: Seq<PublicKey>,
    pre: Seq<Option<BlockchainError>>,
)
    requires
        linked(m),
        block_fault(m, b, hook, producers) is None,
    ensures
        linked(extended(m, b, pre)),
        extended(m, b, pre).height() == m.height() + 1,
        b.header.prev_hash == m.tip,
        hash_of_header(b.header) == Ok::<BlockHash, BlockchainError>(extended(m, b, pre).tip),
{
    let g = grown(m, b, pre);
    let t = extended(m, b, pre);
    lemma_extended_layout(m, b, pre);
    lemma_grown_layout(m, b, pre);
    let top = m.canonical.len() - 1;
    assert(m.canonical[top].header.height == m.height());
    assert forall|i: int| 0 <= i < g.canonical.len() implies #[trigger] indexed_at(g, i) by {
        if i < m.canonical.len() {
            assert(indexed_at(m, i));
            assert(g.canonical[i] == m.canonical[i]);
            if m.base_height == 0 {
                assert(m.canonical[i].header.height == i);
            } else if i >= 1 {
                assert(m.canonical[i].header.height == m.base_height + i - 1);
                assert(m.canonical[top].header.height == m.base_height + top - 1);
            }
            assert(m.canonical[i].header.height <= m.height());
        }
    }
    assert forall|i: int| 1 <= i < g.canonical.len() && (g.base_height == 0 || i >= 2) implies #[trigger] builds_on_previous(
        g,
        i,
    ) by {
        if i < m.canonical.len() {
            assert(builds_on_previous(m, i));
            assert(g.canonical[i] == m.canonical[i]);
            assert(g.canonical[i - 1] == m.canonical[i - 1]);
        } else {
            assert(g.canonical[i - 1] == m.canonical.last());
        }
    }
    assert forall|n: u64| #[trigger] g.known.contains_key(n) implies g.block(n) is Some by {
        if n == b.header.height {
            lemma_block_at(g, g.canonical.len() - 1);
        } else {
            assert(m.known.contains_key(n));
            assert(m.block(n) is Some);
            let i = if n == 0 {
                0
            } else if m.base_height == 0 {
                n as int
            } else {
                n - m.base_height + 1
            };
            assert(g.canonical[i] == m.canonical[i]);
            lemma_block_at(g, i);
        }
    }
    assert(linked(g));
    lemma_evicted_links(g);
    assert(linked(g.evicted()));
    assert(t.canonical == g.evicted().canonical);
    assert forall|i: int| 0 <= i < t.canonical.len() implies #[trigger] indexed_at(t, i) by {
        assert(indexed_at(g.evicted(), i));
    }
    assert forall|i: int| 1 <= i < t.canonical.len() && (t.base_height == 0 || i >= 2) implies #[trigger] builds_on_previous(
        t,
        i,
    ) by {
        assert(builds_on_previous(g.evicted(), i));
    }
    assert forall|n: u64| #[trigger] t.known.contains_key(n) implies t.block(n) is Some by {
        assert(g.evicted().block(n) is Some);
    }
}

/// A block in memory is found at its height.
proof fn lemma_block_at(m: ChainModel, i: int)
    requires
        m.laid_out(),
        0 <= i < m.canonical.len(),
    ensures
        m.block(m.canonical[i].header.height) == Some(m.canonical[i]),
{
    if m.base_height == 0 {
        assert(m.canonical[i].header.height == i);
    } else if i >= 1 {
        assert(m.canonical[i].header.height == m.base_height + i - 1);
    }
}

/// Eviction keeps a chain linked.
proof fn lemma_evicted_links(m: ChainModel)
    requires
        linked(m),
    ensures
        linked(m.evicted()),
{
    let t = m.evicted();
    let low = m.next_base();
    lemma_evicted_layout(m);
    if low > m.base_height {
        let n = if m.base_height == 0 {
            low - 1
        } else {
            low - m.base_height
        };
        assert forall|i: int| 1 <= i < t.canonical.len() implies t.canonical[i] == m.canonical[i + n]
            && t.canonical[i].header.height == low + i - 1 by {}
        assert forall|i: int| 0 <= i < t.canonical.len() implies #[trigger] indexed_at(t, i) by {
            if i == 0 {
                assert(indexed_at(m, 0));
            } else {
                assert(t.canonical[i] == m.canonical[i + n]);
                assert(indexed_at(m, i + n));
            }
        }
        assert forall|i: int| 2 <= i < t.canonical.len() implies #[trigger] builds_on_previous(t, i) by {
            assert(t.canonical[i] == m.canonical[i + n]);
            assert(t.canonical[i - 1] == m.canonical[i - 1 + n]);
            assert(builds_on_previous(m, i + n));
        }
        assert forall|h: u64| #[trigger] t.known.contains_key(h) implies t.block(h) is Some by {
            assert(m.known.contains_key(h));
            assert(m.block(h) is Some);
            if h == 0 {
                lemma_block_at(t, 0);
            } else {
                assert(h >= low);
                let j = if m.base_height == 0 {
                    h as int
                } else {
                    h - m.base_height + 1
                };
                assert(t.canonical[j - n] == m.canonical[j]);
                lemma_block_at(t, j - n);
            }
        }
    }
}

/// The replay index holds what was included within the window, and only
/// that: an accepted block's transactions enter it at the block's height, and
/// an entry stays exactly while the tip is less than the window above it.
pub proof fn law_replay_window(m: ChainModel, b: BlockModel, pre: Seq<Option<BlockchainError>>)
    requires
        m.laid_out(),
        windowed(m),
        b.header.height == m.height() + 1,
    ensures
        windowed(extended(m, b, pre)),
        forall|i: int|
            0 <= i < b.txs.len() && tx_id(#[trigger] b.txs[i]) is Ok ==> {
                let id = tx_id(b.txs[i])->Ok_0;
                extended(m, b, pre).included.contains_key(id) && extended(m, b, pre).included[id]
                    == b.header.height
            },
        forall|id: Digest| #[trigger]
            m.included.contains_key(id) && m.included[id] + REPLAY_WINDOW_BLOCKS > b.header.height
                ==> extended(m, b, pre).included.contains_key(id),
{
    let t = extended(m, b, pre);
    lemma_extended_layout(m, b, pre);
    lemma_noted(m.included, b.txs, b.header.height);
}

/// What noting transactions makes of the index.
proof fn lemma_noted(included: Map<Digest, u64>, txs: Seq<TxModel>, height: u64)
    ensures
        forall|id: Digest| #[trigger]
            noted(included, txs, height).contains_key(id) ==> noted(included, txs, height)[id] == height || (
            included.contains_key(id) && included[id] == noted(included, txs, height)[id]),
        forall|id: Digest| #[trigger]
            included.contains_key(id) ==> noted(included, txs, height).contains_key(id),
        forall|i: int|
            0 <= i < txs.len() && tx_id(#[trigger] txs[i]) is Ok ==> noted(included, txs, height).contains_key(
                tx_id(txs[i])->Ok_0,
            ) && noted(included, txs, height)[tx_id(txs[i])->Ok_0] == height,
    decreases txs.len(),
{
    if txs.len() > 0 {
        let rest = txs.drop_last();
        lemma_noted(included, rest, height);
        let t = noted(included, rest, height);
        assert forall|id: Digest| #[trigger] noted(included, txs, height).contains_key(id) implies noted(
            included,
            txs,
            height,
        )[id] == height || (included.contains_key(id) && included[id] == noted(included, txs, height)[id]) by {
            if !(tx_id(txs.last()) is Ok && id == tx_id(txs.last())->Ok_0) {
                assert(t.contains_key(id));
            }
        }
        assert forall|i: int| 0 <= i < txs.len() && tx_id(#[trigger] txs[i]) is Ok implies noted(
            included,
            txs,
            height,
        ).contains_key(tx_id(txs[i])->Ok_0) && noted(included, txs, height)[tx_id(txs[i])->Ok_0] == height by {
            if i < rest.len() {
                assert(rest[i] == txs[i]);
            }
        }
    }
}

/// A block that holds a transaction of the replay index is never accepted.
pub proof fn law_replay_is_refused(
    m: ChainModel,
    b: BlockModel,
    hook: Option<BlockchainError>,
    producers: Seq<PublicKey>,
    i: int,
)
    requires
        0 <= i < b.txs.len(),
        tx_id(b.txs[i]) is Ok,
        m.included.contains_key(tx_id(b.txs[i])->Ok_0),
    ensures
        block_fault(m, b, hook, producers) is Some,
{
    assert(has_replay(m.included, b.txs));
}

/// An accepted block keeps the state's indexes and commitment in agreement
/// with its entries.
pub proof fn law_push_keeps_the_state_coherent(
    m: ChainModel,
    b: BlockModel,
    pre: Seq<Option<BlockchainError>>,
)
    requires
        clear_block(m, b, pre),
    ensures
        coherent(block_run(m, b, pre).0),
        coherent(extended(m, b, pre).state),
{
    law_block_rollback(m.state, m.network.network_id, b.txs, pre, m.canonical.last().header.timestamp);
}

/// An accepted block leaves the finalized checkpoints and the frozen base as
/// they are.
pub proof fn law_push_keeps_finality(m: ChainModel, b: BlockModel, pre: Seq<Option<BlockchainError>>)
    ensures
        extended(m, b, pre).checkpoints == m.checkpoints,
        extended(m, b, pre).finalized == m.finalized,
{
}

/// A checkpoint chains the one before it.
pub open spec fn chains_previous(cps: Seq<CheckpointModel>, i: int) -> bool {
    let prev = cps[i - 1];
    let cp = cps[i];
    &&& cp.data.epoch == prev.data.epoch + 1
    &&& cp.data.prev_checkpoint_hash == prev.hash
    &&& cp.data.height > prev.data.height
}

/// The checkpoints chain: epochs advance by one, each names the one before
/// it, heights advance and stay within the chain.
pub open spec fn checkpoints_chain(m: ChainModel) -> bool {
    &&& forall|i: int| 1 <= i < m.checkpoints.len() ==> #[trigger] chains_previous(m.checkpoints, i)
    &&& m.checkpoints.len() > 0 ==> m.checkpoints.last().data.height <= m.height()
}

/// Finalizing keeps the checkpoints chained, and the new one is the last.
pub proof fn law_finalizing_keeps_the_chain_of_checkpoints(
    m: ChainModel,
    cp: CheckpointModel,
    tally: Tally,
    next_seed: Digest,
)
    requires
        checkpoints_chain(m),
        checkpoint_refusal(m, cp.data, tally) is None,
    ensures
        checkpoints_chain(finalized_with(m, cp, next_seed)),
        finalized_with(m, cp, next_seed).checkpoints.last() == cp,
        finalized_with(m, cp, next_seed).floor() == Some(cp.data.height),
        m.floor() matches Some(h) ==> h < cp.data.height,
{
    let all = m.checkpoints.push(cp);
    let t = finalized_with(m, cp, next_seed);
    let skip = all.len() - t.checkpoints.len();
    assert forall|i: int| 0 <= i < t.checkpoints.len() implies t.checkpoints[i] == all[skip + i] by {}
    assert forall|i: int| 1 <= i < t.checkpoints.len() implies #[trigger] chains_previous(t.checkpoints, i) by {
        let j = skip + i;
        assert(t.checkpoints[i] == all[j]);
        assert(t.checkpoints[i - 1] == all[j - 1]);
        if j < m.checkpoints.len() {
            assert(all[j] == m.checkpoints[j]);
            assert(all[j - 1] == m.checkpoints[j - 1]);
            assert(chains_previous(m.checkpoints, j));
        } else {
            assert(all[j - 1] == m.checkpoints.last());
        }
    }
}

/// No finality without a committee at the floor and a met quorum, whatever
/// the checkpoint says.
pub proof fn law_no_finality_below_the_floor(m: ChainModel, d: CheckpointData, tally: Tally)
    requires
        tally.committee < m.network.protocol.min_finality_committee || !tally.met,
    ensures
        checkpoint_refusal(m, d, tally) is Some,
{
}

/// Of two chains of equal height with different tips exactly one beats the
/// other, so all nodes converge on the same one; a longer chain beats a
/// shorter one and is not beaten by it.
pub proof fn law_fork_choice_converges(a: ChainModel, b: ChainModel)
    requires
        a.tip != b.tip,
    ensures
        beats(a, b.height() as int, b.tip) == !beats(b, a.height() as int, a.tip),
        b.height() > a.height() ==> beats(a, b.height() as int, b.tip),
{
    if ordinal(a.tip) == ordinal(b.tip) {
        lemma_ordinal_injective(a.tip, b.tip);
    }
}

/// Replaying blocks in one go or in two is the same: a node that adopts a
/// branch ends with exactly the chain of a node that pushed its blocks.
pub proof fn law_replay_composes(
    m: ChainModel,
    first: Seq<BlockModel>,
    rest: Seq<BlockModel>,
    producers: Seq<Seq<PublicKey>>,
)
    requires
        producers.len() >= first.len() + rest.len(),
        replayed(m, first, producers) is Ok,
    ensures
        replayed(m, first + rest, producers) == replayed(
            replayed(m, first, producers)->Ok_0,
            rest,
            producers.skip(first.len() as int),
        ),
    decreases rest.len(),
{
    if rest.len() == 0 {
        assert(first + rest =~= first);
    } else {
        let all = first + rest;
        assert(all.drop_last() =~= first + rest.drop_last());
        assert(all.last() == rest.last());
        assert(producers.skip(first.len() as int)[rest.len() - 1] == producers[all.len() - 1]);
        law_replay_composes(m, first, rest.drop_last(), producers);
    }
}

/// What a replay from the genesis leaves in the hash index: the hash of the
/// block pushed at each height.
proof fn lemma_replayed_hashes(m: ChainModel, blocks: Seq<BlockModel>, producers: Seq<Seq<PublicKey>>)
    requires
        replayed(restarted(m), blocks, producers) is Ok,
    ensures
        ({
            let c = replayed(restarted(m), blocks, producers)->Ok_0;
            &&& c.height() == blocks.len()
            &&& c.laid_out()
            &&& forall|h: u64| #[trigger]
                c.known.contains_key(h) && h > 0 ==> h <= blocks.len() && hash_of_header(blocks[h - 1].header)
                    == Ok::<BlockHash, BlockchainError>(c.known[h])
        }),
    decreases blocks.len(),
{
    let c = replayed(restarted(m), blocks, producers)->Ok_0;
    if blocks.len() == 0 {
        assert(c.canonical[0].header.height == 0);
    } else {
        reveal(tried);
        let rest = blocks.drop_last();
        lemma_replayed_hashes(m, rest, producers);
        let d = replayed(restarted(m), rest, producers)->Ok_0;
        let b = blocks.last();
        lemma_extended_layout(d, b, open_pre(b.txs));
        assert forall|h: u64| #[trigger] c.known.contains_key(h) && h > 0 implies h <= blocks.len() && hash_of_header(
            blocks[h - 1].header,
        ) == Ok::<BlockHash, BlockchainError>(c.known[h]) by {
            if h != b.header.height {
                assert(d.known.contains_key(h));
                assert(rest[h - 1] == blocks[h - 1]);
            }
        }
    }
}

/// A finalized checkpoint is immutable: after any adopted branch, the block
/// in memory at the height of a finalized checkpoint is still that
/// checkpoint's block, and the checkpoints themselves are the same.
pub proof fn law_adoption_keeps_finalized_blocks(
    m: ChainModel,
    blocks: Seq<BlockModel>,
    producers: Seq<Seq<PublicKey>>,
    i: int,
)
    requires
        adoption(m, blocks) == Ok::<bool, BlockchainError>(true),
        switched(m, (blocks[0].header.height - 1) as u64, blocks, producers) is Ok,
        0 <= i < m.checkpoints.len(),
        m.checkpoints[i].data.height > 0,
    ensures
        ({
            let c = switched(m, (blocks[0].header.height - 1) as u64, blocks, producers)->Ok_0;
            let cp = m.checkpoints[i];
            &&& c.checkpoints == m.checkpoints
            &&& c.finalized == m.finalized
            &&& c.known.contains_key(cp.data.height) ==> c.known[cp.data.height] == cp.data.block_hash
        }),
{
    let base = (blocks[0].header.height - 1) as u64;
    let all = kept_blocks(m, base) + blocks;
    let c = switched(m, base, blocks, producers)->Ok_0;
    let cp = m.checkpoints[i];
    let h = cp.data.height;
    lemma_replay_keeps(restarted(m), all, producers);
    lemma_replayed_hashes(m, all, producers);
    assert(branch_holds(m, base, blocks, m.checkpoints[i]));
    if c.known.contains_key(h) {
        assert(branch_block(m, base, blocks, h) == Some(all[h - 1]));
    }
}

/// The same of a sister block that replaces the tip.
pub proof fn law_attachment_keeps_finalized_blocks(m: ChainModel, b: BlockModel, producers: Seq<Seq<PublicKey>>, i: int)
    requires
        linked(m),
        attachment(m, b) is None,
        b.header.prev_hash != m.tip,
        switched(m, (b.header.height - 1) as u64, seq![b], producers) is Ok,
        0 <= i < m.checkpoints.len(),
        0 < m.checkpoints[i].data.height <= m.height(),
        m.known.contains_key(m.checkpoints[i].data.height) ==> m.known[m.checkpoints[i].data.height]
            == m.checkpoints[i].data.block_hash,
    ensures
        ({
            let c = switched(m, (b.header.height - 1) as u64, seq![b], producers)->Ok_0;
            let cp = m.checkpoints[i];
            &&& c.checkpoints == m.checkpoints
            &&& c.finalized == m.finalized
            &&& c.known.contains_key(cp.data.height) ==> c.known[cp.data.height] == cp.data.block_hash
        }),
{
    let base = (b.header.height - 1) as u64;
    let all = kept_blocks(m, base) + seq![b];
    let c = switched(m, base, seq![b], producers)->Ok_0;
    let cp = m.checkpoints[i];
    let h = cp.data.height;
    lemma_replay_keeps(restarted(m), all, producers);
    lemma_replayed_hashes(m, all, producers);
    if c.known.contains_key(h) {
        if h == b.header.height {
            assert(all[h - 1] == b);
        } else {
            assert(m.block(h) is Some);
            assert(all[h - 1] == m.block(h)->0);
            let j = if m.base_height == 0 {
                h as int
            } else {
                h - m.base_height + 1
            };
            assert(m.canonical[j].header.height == h);
            assert(indexed_at(m, j));
        }
    }
}

} // verus!

//! What an accepted block promises, and what it does to the chain.
use vstd::prelude::*;
use crate::block_hash::hash_of_header;
use crate::block_hash::header_digest;
use crate::chain::rebuilt;
use crate::chain_model::ChainModel;
use crate::chain_model::block_fault;
use crate::chain_model::block_run;
use crate::chain_model::extended;
use crate::chain_model::grown;
use crate::chain_model::has_replay;
use crate::chain_model::lemma_evicted_layout;
use crate::chain_model::lemma_extended_layout;
use crate::chain_model::lemma_grown_layout;
use crate::chain_model::noted;
use crate::crypto::ed25519_key_decodes;
use crate::crypto::ed25519_verifies;
use crate::entry::digest_of;
use crate::error::BlockchainError;
use crate::finality::timestamp_at;
use crate::ids::BlockHash;
use crate::ids::Digest;
use crate::ids::MerkleRoot;
use crate::ids::PublicKey;
use crate::merkle::tx_root_of;
use crate::producer::BLOCK_SIGN_TAG;
use crate::state_laws::run_txs;
use crate::state_model::StateModel;
use crate::state_model::collected;
use crate::state_model::tx_applied;
use crate::state_model::tx_fault;
use crate::txid::TxId;
use crate::txid::tx_id;
use crate::types::BlockModel;
use crate::types::NetworkId;
use crate::types::ProtocolError;
use crate::types::TxModel;

verus! {

/// A lookup by height finds the block in memory that has this height, and
/// none if there is none.
pub proof fn law_block_lookup(m: ChainModel, height: u64)
    requires
        m.laid_out(),
    ensures
        m.block(height) matches Some(b) ==> b.header.height == height && exists|i: int|
            0 <= i < m.canonical.len() && b == #[trigger] m.canonical[i],
        m.block(height) is None ==> forall|i: int|
            0 <= i < m.canonical.len() ==> (#[trigger] m.canonical[i]).header.height != height,
        timestamp_at(m, height) == match m.block(height) {
            Some(b) => b.header.timestamp,
            None => 0,
        },
{
    assert(m.canonical[0].header.height == 0);
}

/// A block passes the checks before its transactions exactly if it stands on
/// the tip at the next height, speaks the network's version, holds no more
/// transactions than allowed, commits to them, repeats none of the replay
/// index, can be hashed, passes the consensus rules, and is signed by a
/// producer who may produce (or by anyone where production is open).
pub proof fn law_checked_blocks(
    m: ChainModel,
    b: BlockModel,
    hook: Option<BlockchainError>,
    producers: Seq<PublicKey>,
)
    ensures
        block_fault(m, b, hook, producers) is None <==> {
            let h = b.header;
            &&& h.prev_hash == m.tip
            &&& h.height == m.canonical.last().header.height + 1
            &&& h.version == m.network.protocol.version
            &&& b.txs.len() <= m.network.protocol.max_txs_per_block
            &&& tx_root_of(b.txs) == Ok::<MerkleRoot, BlockchainError>(h.tx_root)
            &&& forall|i: int|
                0 <= i < b.txs.len() && tx_id(#[trigger] b.txs[i]) is Ok ==> !m.included.contains_key(
                    tx_id(b.txs[i])->Ok_0,
                )
            &&& hash_of_header(h) is Ok
            &&& hook is None
            &&& h.consensus.len() == 110 && h.consensus.subrange(0, 14) == BLOCK_SIGN_TAG@
            &&& ed25519_key_decodes(h.consensus.subrange(14, 46))
            &&& header_digest(h.signing_encoding) matches Ok(d) && ed25519_verifies(
                digest_of(h.consensus.subrange(14, 46))@,
                BLOCK_SIGN_TAG@ + d@,
                h.consensus.subrange(46, 110),
            )
            &&& producers.len() > 0 ==> producers.contains(digest_of(h.consensus.subrange(14, 46)))
        },
{
}

/// A refusal names a rule that the block breaks.
pub proof fn law_refused_blocks(
    m: ChainModel,
    b: BlockModel,
    hook: Option<BlockchainError>,
    producers: Seq<PublicKey>,
)
    requires
        b.txs.len() <= usize::MAX,
    ensures
        ({
            let h = b.header;
            let known = exists|n: u64| #[trigger] m.known.contains_key(n) && m.known[n] == h.prev_hash;
            let fault = block_fault(m, b, hook, producers);
            &&& h.prev_hash != m.tip && known ==> fault == Some(BlockchainError::ParentNotTip)
            &&& h.prev_hash != m.tip && !known ==> fault == Some(
                if 2 <= h.height <= m.base_height {
                    BlockchainError::BlockPruned { height: (h.height - 1) as u64 }
                } else {
                    BlockchainError::UnknownParent
                },
            )
            &&& h.prev_hash == m.tip && h.height != m.canonical.last().header.height + 1 ==> (
            fault matches Some(BlockchainError::InvalidHeight { got, .. }) && got == h.height)
            &&& fault matches Some(BlockchainError::InvalidHeight { expected, .. })
                ==> m.canonical.last().header.height < u64::MAX && hook is None ==> expected
                == m.canonical.last().header.height + 1
            &&& h.prev_hash == m.tip && h.height == m.canonical.last().header.height + 1 ==> {
                let crowded = b.txs.len() > m.network.protocol.max_txs_per_block;
                &&& h.version != m.network.protocol.version ==> fault == Some(
                    BlockchainError::InvalidVersion(h.version),
                )
                &&& h.version == m.network.protocol.version && crowded ==> fault == Some(
                    BlockchainError::TooManyTransactions(b.txs.len() as usize),
                )
                &&& h.version == m.network.protocol.version && !crowded && tx_root_of(b.txs) is Ok
                    && tx_root_of(b.txs) != Ok::<MerkleRoot, BlockchainError>(h.tx_root) ==> fault == Some(
                    BlockchainError::MerkleMismatch,
                )
                &&& h.version == m.network.protocol.version && !crowded && tx_root_of(b.txs) == Ok::<
                    MerkleRoot,
                    BlockchainError,
                >(h.tx_root) && has_replay(m.included, b.txs) ==> fault == Some(BlockchainError::TxReplay)
            }
        }),
{
}

/// The states that a run of transactions goes through.
pub open spec fn steps_through(
    states: Seq<StateModel>,
    net: NetworkId,
    txs: Seq<TxModel>,
    pre: Seq<Option<BlockchainError>>,
    now: u64,
) -> bool {
    forall|i: int|
        0 <= i < txs.len() ==> {
            &&& pre[i] is None
            &&& tx_fault(states[i], net, #[trigger] txs[i], now) is None
            &&& states[i + 1] == tx_applied(states[i], txs[i], now)
        }
}

/// A run of transactions applies all of them in order or stops at the first
/// that is refused, with its refusal.
pub proof fn law_transactions_run_in_order(
    s: StateModel,
    net: NetworkId,
    txs: Seq<TxModel>,
    pre: Seq<Option<BlockchainError>>,
    now: u64,
) -> (states: Seq<StateModel>)
    ensures
        1 <= states.len() <= txs.len() + 1,
        states[0] == s,
        run_txs(s, net, txs, pre, now).0 == states[states.len() - 1],
        steps_through(states, net, txs.take(states.len() - 1), pre, now),
        run_txs(s, net, txs, pre, now).2 is None <==> states.len() == txs.len() + 1,
        states.len() <= txs.len() ==> {
            let at = states.len() - 1;
            run_txs(s, net, txs, pre, now).2 == if pre[at] is Some {
                pre[at]
            } else {
                tx_fault(states[at], net, txs[at], now)
            }
        },
    decreases txs.len(),
{
    if txs.len() == 0 {
        seq![s]
    } else {
        let front = txs.drop_last();
        let n = front.len() as int;
        let states = law_transactions_run_in_order(s, net, front, pre, now);
        let k = states.len() - 1;
        let (t, log, refusal) = run_txs(s, net, front, pre, now);
        assert(front.take(k) =~= txs.take(k));
        if refusal is Some {
            assert(txs[k] == front[k]);
            states
        } else if pre[n] is Some || tx_fault(t, net, txs.last(), now) is Some {
            states
        } else {
            let more = states.push(tx_applied(t, txs.last(), now));
            assert(txs.take(n + 1) =~= txs);
            assert(txs.take(k) =~= front);
            assert forall|i: int| 0 <= i < txs.len() implies {
                &&& pre[i] is None
                &&& tx_fault(more[i], net, #[trigger] txs[i], now) is None
                &&& more[i + 1] == tx_applied(more[i], txs[i], now)
            } by {
                if i < n {
                    assert(front[i] == txs[i]);
                    assert(front.take(k)[i] == front[i]);
                    assert(more[i] == states[i] && more[i + 1] == states[i + 1]);
                }
            }
            more
        }
    }
}

/// A block's transactions run at the time of its parent, on the state without
/// the domains that expired by then.
pub proof fn law_block_time_is_the_parents(m: ChainModel, b: BlockModel, pre: Seq<Option<BlockchainError>>)
    ensures
        ({
            let now = m.canonical[m.canonical.len() - 1].header.timestamp;
            let run = run_txs(collected(m.state, now).0, m.network.network_id, b.txs, pre, now);
            block_run(m, b, pre).0 == run.0 && block_run(m, b, pre).2 == run.2
        }),
{
}

/// What noting transactions makes of an index, for one id.
proof fn lemma_noted_id(included: Map<Digest, u64>, txs: Seq<TxModel>, height: u64, id: Digest)
    ensures
        ({
            let new = exists|i: int| 0 <= i < txs.len() && tx_id(#[trigger] txs[i]) == Ok::<Digest, ProtocolError>(id);
            let all = noted(included, txs, height);
            &&& all.contains_key(id) <==> new || included.contains_key(id)
            &&& new ==> all[id] == height
            &&& !new && included.contains_key(id) ==> all[id] == included[id]
        }),
    decreases txs.len(),
{
    if txs.len() > 0 {
        let front = txs.drop_last();
        lemma_noted_id(included, front, height, id);
        assert(txs[txs.len() - 1] == txs.last());
        if exists|i: int| 0 <= i < front.len() && tx_id(#[trigger] front[i]) == Ok::<Digest, ProtocolError>(id) {
            let i = choose|i: int|
                0 <= i < front.len() && tx_id(#[trigger] front[i]) == Ok::<Digest, ProtocolError>(id);
            assert(txs[i] == front[i]);
        }
        if exists|i: int| 0 <= i < txs.len() && tx_id(#[trigger] txs[i]) == Ok::<Digest, ProtocolError>(id) {
            let i = choose|i: int| 0 <= i < txs.len() && tx_id(#[trigger] txs[i]) == Ok::<Digest, ProtocolError>(id);
            if i < front.len() {
                assert(front[i] == txs[i]);
            }
        }
    }
}

/// What an accepted block makes of the chain: it is the new tip, with its
/// hash known at its height and the state after its transactions. Its
/// transactions are protected against replay at its height, and older ones
/// for 256 blocks. Finality and network stay.
pub proof fn law_extension(m: ChainModel, b: BlockModel, pre: Seq<Option<BlockchainError>>, id: Digest)
    requires
        m.laid_out(),
        b.header.height == m.canonical.last().header.height + 1,
        hash_of_header(b.header) is Ok,
    ensures
        ({
            let c = extended(m, b, pre);
            let new = exists|i: int|
                0 <= i < b.txs.len() && tx_id(#[trigger] b.txs[i]) == Ok::<Digest, ProtocolError>(id);
            &&& c.canonical[c.canonical.len() - 1] == b
            &&& hash_of_header(b.header) == Ok::<BlockHash, BlockchainError>(c.tip)
            &&& c.known.contains_key(b.header.height) && c.known[b.header.height] == c.tip
            &&& c.state == block_run(m, b, pre).0
            &&& c.network == m.network && c.checkpoints == m.checkpoints && c.finalized == m.finalized
            &&& new ==> c.included.contains_key(id) && c.included[id] == b.header.height
            &&& !new ==> (c.included.contains_key(id) <==> m.included.contains_key(id) && (b.header.height <= 256
                || m.included[id] + 256 > b.header.height))
            &&& !new && c.included.contains_key(id) ==> c.included[id] == m.included[id]
            &&& m.checkpoints.len() == 0 ==> c.canonical == m.canonical.push(b) && c.base_height == m.base_height
        }),
{
    lemma_extended_layout(m, b, pre);
    lemma_noted_id(m.included, b.txs, b.header.height, id);
    let g = grown(m, b, pre);
    lemma_grown_layout(m, b, pre);
    lemma_evicted_layout(g);
    assert(g.height() == b.header.height);
}

/// The blocks that stay in memory when the window slides: the genesis, the
/// last 512, and all from the last finalized one on.
pub proof fn law_window(m: ChainModel, b: BlockModel, pre: Seq<Option<BlockchainError>>, i: int)
    requires
        m.laid_out(),
        b.header.height == m.canonical.last().header.height + 1,
        0 <= i < m.canonical.len(),
        ({
            let h = m.canonical[i].header.height;
            h == 0 || h + 512 > b.header.height || (m.checkpoints.len() > 0 && h >= m.checkpoints.last().data.height)
        }),
    ensures
        exists|j: int|
            0 <= j < extended(m, b, pre).canonical.len() && #[trigger] extended(m, b, pre).canonical[j]
                == m.canonical[i],
{
    let c = extended(m, b, pre);
    let g = grown(m, b, pre);
    lemma_grown_layout(m, b, pre);
    lemma_evicted_layout(g);
    assert(g.canonical[i] == m.canonical[i]);
    assert(g.height() == b.header.height);
    let low = g.next_base();
    if low <= g.base_height {
        assert(c.canonical[i] == m.canonical[i]);
    } else if i == 0 {
        assert(c.canonical[0] == m.canonical[0]);
    } else {
        let n = if g.base_height == 0 {
            low - 1
        } else {
            low - g.base_height
        };
        assert(g.canonical[i].header.height == (if g.base_height == 0 {
            i
        } else {
            g.base_height + i - 1
        }));
        assert(g.canonical[i].header.height >= low);
        assert(c.canonical[i - n] == g.canonical[i]);
    }
}

/// A replay index rebuilt from stored inclusions holds each of them whose
/// height is in the window of 256 blocks up to the tip, the last one stored
/// where an id occurs more than once, and otherwise what was there.
pub proof fn law_rebuilt_index(included: Map<Digest, u64>, entries: Seq<(TxId, u64)>, tip: u64, id: Digest)
    ensures
        ({
            let all = rebuilt(included, entries, tip);
            let fresh = |i: int| entries[i].0@ == id && 1 <= entries[i].1 <= tip && entries[i].1 + 256 > tip;
            let some = exists|i: int| 0 <= i < entries.len() && #[trigger] fresh(i);
            &&& all.contains_key(id) <==> some || included.contains_key(id)
            &&& !some && included.contains_key(id) ==> all[id] == included[id]
            &&& some ==> exists|i: int|
                0 <= i < entries.len() && #[trigger] fresh(i) && all[id] == entries[i].1 && forall|j: int|
                    i < j < entries.len() ==> !#[trigger] fresh(j)
        }),
    decreases entries.len(),
{
    let fresh = |i: int| entries[i].0@ == id && 1 <= entries[i].1 <= tip && entries[i].1 + 256 > tip;
    if entries.len() > 0 {
        let front = entries.drop_last();
        let n = front.len() as int;
        let before = |i: int| front[i].0@ == id && 1 <= front[i].1 <= tip && front[i].1 + 256 > tip;
        law_rebuilt_index(included, front, tip, id);
        assert(entries[n] == entries.last());
        assert forall|i: int| 0 <= i < n implies #[trigger] fresh(i) == before(i) by {
            assert(front[i] == entries[i]);
        }
        if fresh(n) {
            assert(rebuilt(included, entries, tip)[id] == entries[n].1);
        } else {
            assert(rebuilt(included, entries, tip).contains_key(id) == rebuilt(included, front, tip).contains_key(id));
            if exists|i: int| 0 <= i < n && #[trigger] before(i) {
                let i = choose|i: int|
                    0 <= i < front.len() && #[trigger] before(i) && rebuilt(included, front, tip)[id] == front[i].1
                        && forall|j: int| i < j < front.len() ==> !#[trigger] before(j);
                assert(fresh(i));
                assert forall|j: int| i < j < entries.len() implies !#[trigger] fresh(j) by {
                    if j < n {
                        assert(!before(j));
                    }
                }
                assert(rebuilt(included, entries, tip)[id] == entries[i].1);
            }
            if exists|i: int| 0 <= i < entries.len() && #[trigger] fresh(i) {
                let i = choose|i: int| 0 <= i < entries.len() && #[trigger] fresh(i);
                assert(i < n);
                assert(before(i));
            }
        }
    }
}

} // verus!

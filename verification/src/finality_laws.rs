//! What finality promises: which checkpoints are accepted, what accepting
//! one changes, and who may produce blocks and vote.
use vstd::prelude::*;
use crate::block_hash::hash_of_header;
use crate::chain_model::ChainModel;
use crate::digest::blake3_digest;
use crate::error::BlockchainError;
use crate::error::CheckpointFault;
use crate::finality::DrawModel;
use crate::finality::SeedSource;
use crate::finality::Tally;
use crate::finality::base_draw;
use crate::finality::checkpoint_refusal;
use crate::finality::committee_draw;
use crate::finality::content_fault;
use crate::finality::finalized_with;
use crate::finality::members_of;
use crate::finality::production_draws;
use crate::finality::proposed;
use crate::finality::recovery_draws;
use crate::finality::time_since;
use crate::finality::timestamp_at;
use crate::finality::tip_checkpoint;
use crate::genesis::genesis_digest;
use crate::ids::BlockHash;
use crate::ids::Digest;
use crate::ids::PublicKey;
use crate::ids::ascending;
use crate::ids::zero_digest;
use crate::smt_model::lemma_sorted_list;
use crate::smt_model::smt_root;
use crate::smt_model::sorted_members;
use crate::state::STATE_SMT_TAG;
use crate::state::smt_state_root;
use crate::types::BaseModel;
use crate::types::CheckpointData;
use crate::types::CheckpointModel;

verus! {

/// A checkpoint is accepted as new exactly if it names a block height of our
/// chain, follows the last finalized one (or opens the chain of checkpoints),
/// keeps the recovery limits, is signed by a quorum of a committee that is
/// large enough, and, where it is for the tip, names the root of our state.
pub proof fn law_accepted_checkpoints(m: ChainModel, cp: CheckpointModel, tally: Tally)
    ensures
        checkpoint_refusal(m, cp.data, tally) is None <==> {
            let tip = m.canonical.last().header;
            &&& 1 <= cp.data.height <= tip.height
            &&& m.checkpoints.len() == 0 ==> cp.data.epoch == 0 && cp.data.prev_checkpoint_hash == zero_digest()
            &&& m.checkpoints.len() > 0 ==> {
                let last = m.checkpoints[m.checkpoints.len() - 1];
                let waited = tip.timestamp - timestamp_at(m, last.data.height);
                let delay = cp.data.recovery * m.network.consensus.epoch_secs;
                &&& cp.data.epoch == last.data.epoch + 1
                &&& cp.data.prev_checkpoint_hash == last.hash
                &&& cp.data.height > last.data.height
                &&& cp.data.recovery <= m.network.consensus.recovery_max_epochs
                &&& cp.data.recovery >= 1 ==> waited >= delay || delay <= 0
            }
            &&& tally.committee >= m.network.protocol.min_finality_committee
            &&& tally.met
            &&& cp.data.height == tip.height ==> cp.data.state_root == smt_state_root(m.state.leaves)
        },
{
}

/// A checkpoint for the tip that is accepted names the root of the state at
/// the tip, however many were finalized before.
pub proof fn law_accepted_root_is_our_root(m: ChainModel, cp: CheckpointModel, tally: Tally)
    requires
        checkpoint_refusal(m, cp.data, tally) is None,
        cp.data.height == m.canonical.last().header.height,
    ensures
        cp.data.state_root == blake3_digest(STATE_SMT_TAG@ + smt_root(m.state.leaves)@),
{
}

/// A refusal names a rule that the checkpoint breaks.
pub proof fn law_refusal_names_a_broken_rule(m: ChainModel, d: CheckpointData, tally: Tally)
    ensures
        checkpoint_refusal(m, d, tally) matches Some(f) ==> {
            let tip = m.canonical.last().header;
            let n = m.checkpoints.len();
            let last = m.checkpoints[n - 1];
            let delay = d.recovery * m.network.consensus.epoch_secs;
            match f {
                CheckpointFault::NotInOurChain => d.height == 0 || d.height > tip.height,
                CheckpointFault::FirstMustChainGenesis => n == 0 && (d.epoch != 0 || d.prev_checkpoint_hash
                    != zero_digest()),
                CheckpointFault::EpochNotNext => n > 0 && d.epoch != last.data.epoch + 1,
                CheckpointFault::DoesNotChain => n > 0 && d.prev_checkpoint_hash != last.hash,
                CheckpointFault::HeightNotAdvancing => n > 0 && d.height <= last.data.height,
                CheckpointFault::RecoveryBeyondLimit => n > 0 && d.recovery
                    > m.network.consensus.recovery_max_epochs,
                CheckpointFault::RecoveryTooEarly => n > 0 && d.recovery >= 1 && tip.timestamp - timestamp_at(
                    m,
                    last.data.height,
                ) < delay,
                CheckpointFault::CommitteeBelowFloor => tally.committee
                    < m.network.protocol.min_finality_committee,
                CheckpointFault::QuorumNotMet { need } => !tally.met && need == tally.quorum,
                CheckpointFault::StateRootMismatch => d.height == tip.height && d.state_root != smt_state_root(
                    m.state.leaves,
                ),
            }
        },
{
}

/// An accepted checkpoint ends the checkpoint chain, of which the newest 64
/// stay. The owners who can be elected now are frozen with it, in ascending
/// order, with the time of its block and the new seed. Neither the blocks nor
/// the state change.
pub proof fn law_finalizing(m: ChainModel, cp: CheckpointModel, next_seed: Digest)
    requires
        m.state.pool().finite(),
    ensures
        ({
            let t = finalized_with(m, cp, next_seed);
            let n = t.checkpoints.len();
            &&& n == if m.checkpoints.len() >= 64 {
                64
            } else {
                m.checkpoints.len() + 1
            }
            &&& t.checkpoints[n - 1] == cp
            &&& forall|i: int|
                0 <= i < n - 1 ==> #[trigger] t.checkpoints[i] == m.checkpoints[m.checkpoints.len() - (n - 1) + i]
            &&& t.finalized matches Some(base) && base.checkpoint == cp && base.seed == next_seed && base.block_ts
                == timestamp_at(m, cp.data.height) && ascending(base.pool) && (forall|k: PublicKey|
                base.pool.contains(k) <==> m.state.pool().contains(k))
            &&& t.canonical == m.canonical && t.tip == m.tip && t.known == m.known && t.base_height
                == m.base_height
            &&& t.state == m.state && t.included == m.included && t.network == m.network
        }),
{
    lemma_sorted_list(m.state.pool());
    let pool = sorted_members(m.state.pool());
    assert forall|k: PublicKey| pool.contains(k) <==> m.state.pool().contains(k) by {
        assert(pool.to_set().contains(k) <==> pool.contains(k));
    }
}

/// A node proposes its tip as soon as enough blocks stand above the last
/// finalized one, and what it proposes is what every node on the same chain
/// accepts once a quorum of a large enough committee signed it.
pub proof fn law_proposals_are_acceptable(m: ChainModel, tally: Tally)
    ensures
        proposed(m) is Some <==> {
            let tip = m.canonical.last().header;
            let last = if m.checkpoints.len() == 0 {
                0
            } else {
                m.checkpoints[m.checkpoints.len() - 1].data.height
            };
            &&& tip.height > last
            &&& tip.height >= last + m.network.consensus.epoch_min_blocks
            &&& hash_of_header(tip) is Ok
            &&& m.checkpoints.len() > 0 ==> m.checkpoints[m.checkpoints.len() - 1].data.epoch < u64::MAX
        },
        proposed(m) matches Some(d) ==> {
            &&& d.height == m.canonical.last().header.height
            &&& hash_of_header(m.canonical.last().header) == Ok::<BlockHash, BlockchainError>(d.block_hash)
            &&& d.state_root == smt_state_root(m.state.leaves)
            &&& d.recovery == 0
            &&& content_fault(m, d) is None
            &&& tally.met && tally.committee >= m.network.protocol.min_finality_committee ==> checkpoint_refusal(
                m,
                d,
                tally,
            ) is None
        },
{
}

/// Checkpoint content for the tip with a recovery counter differs from the
/// proposal in the counter alone.
pub proof fn law_recovery_content(m: ChainModel, recovery: u32)
    ensures
        match (tip_checkpoint(m, 0), tip_checkpoint(m, recovery)) {
            (Ok(a), Ok(b)) => b.recovery == recovery && a.epoch == b.epoch && a.height == b.height && a.block_hash
                == b.block_hash && a.prev_checkpoint_hash == b.prev_checkpoint_hash && a.state_root
                == b.state_root,
            (Err(a), Err(b)) => a == b,
            _ => false,
        },
{
}

/// The committee of the next epoch: before any checkpoint, elected from the
/// owners of live registrations by the genesis seed; after one, from the
/// frozen owners by the frozen seed, or by its recovery seed. There is no
/// recovery committee before the first checkpoint.
pub proof fn law_committee(m: ChainModel, recovery: u32)
    requires
        m.state.pool().finite(),
    ensures
        match m.finalized {
            None => {
                &&& committee_draw(m, recovery) is None <==> recovery != 0
                &&& committee_draw(m, recovery) matches Some(d) ==> d.seed == SeedSource::Genesis(
                    genesis_digest(m.network),
                ) && d.size == m.network.consensus.committee_size && ascending(d.pool) && (forall|k: PublicKey|
                    d.pool.contains(k) <==> m.state.pool().contains(k))
            },
            Some(base) => committee_draw(m, recovery) matches Some(d) && d.pool == base.pool && d.size
                == m.network.consensus.committee_size && d.seed == if recovery == 0 {
                SeedSource::Base(base.seed)
            } else {
                SeedSource::Recovery { seed: base.seed, counter: recovery }
            },
        },
{
    lemma_sorted_list(m.state.pool());
    let pool = sorted_members(m.state.pool());
    assert forall|k: PublicKey| pool.contains(k) <==> m.state.pool().contains(k) by {
        assert(pool.to_set().contains(k) <==> pool.contains(k));
    }
}

/// Which recovery draws are open.
proof fn lemma_recovery_draws(m: ChainModel, base: BaseModel, elapsed: u64, upto: u32, d: DrawModel)
    ensures
        recovery_draws(m, base, elapsed, upto).contains(d) <==> exists|k: u32|
            1 <= k <= upto && elapsed >= k * m.network.consensus.epoch_secs && d == #[trigger] base_draw(m, base, k),
    decreases upto,
{
    let all = recovery_draws(m, base, elapsed, upto);
    if upto > 0 {
        let prev = (upto - 1) as u32;
        let rest = recovery_draws(m, base, elapsed, prev);
        lemma_recovery_draws(m, base, elapsed, prev, d);
        let top = base_draw(m, base, upto);
        if elapsed >= upto * m.network.consensus.epoch_secs {
            assert(all == rest.push(top));
            if all.contains(d) {
                let i = choose|i: int| 0 <= i < all.len() && all[i] == d;
                if i < rest.len() {
                    assert(rest[i] == d);
                    assert(rest.contains(d));
                } else {
                    assert(d == base_draw(m, base, upto));
                }
            }
            if rest.contains(d) {
                let i = choose|i: int| 0 <= i < rest.len() && rest[i] == d;
                assert(all[i] == d);
            }
            if d == top {
                assert(all[rest.len() as int] == d);
            }
        } else {
            assert(all == rest);
        }
        if exists|k: u32|
            1 <= k <= upto && elapsed >= k * m.network.consensus.epoch_secs && d == #[trigger] base_draw(m, base, k) {
            let k = choose|k: u32|
                1 <= k <= upto && elapsed >= k * m.network.consensus.epoch_secs && d == #[trigger] base_draw(m, base, k);
            if k == upto {
                assert(all.contains(d));
            } else {
                assert(rest.contains(d));
            }
        }
    }
}

/// Who may produce a block with a timestamp. Before any checkpoint: the
/// committee drawn from the owners of live registrations, or everyone while
/// there are none. After one: the committee of the frozen owners, and each of
/// its recovery committees, up to the limit, whose delay since the finalized
/// block has passed.
pub proof fn law_production(m: ChainModel, block_ts: u64)
    ensures
        match m.finalized {
            None => {
                &&& production_draws(m, block_ts).len() == 0 <==> m.state.pool() == Set::<PublicKey>::empty()
                &&& production_draws(m, block_ts).len() > 0 ==> production_draws(m, block_ts).len() == 1 && Some(
                    production_draws(m, block_ts)[0],
                ) == committee_draw(m, 0)
            },
            Some(base) => {
                &&& production_draws(m, block_ts).len() > 0
                &&& Some(production_draws(m, block_ts)[0]) == committee_draw(m, 0)
                &&& forall|d: DrawModel| #[trigger]
                    production_draws(m, block_ts).contains(d) <==> Some(d) == committee_draw(m, 0) || exists|k: u32|
                        {
                            let delay = k * m.network.consensus.epoch_secs;
                            &&& 1 <= k <= m.network.consensus.recovery_max_epochs
                            &&& block_ts - base.block_ts >= delay || delay <= 0
                            &&& Some(d) == #[trigger] committee_draw(m, k)
                        }
            },
        },
{
    if let Some(base) = m.finalized {
        let elapsed = time_since(base.block_ts, block_ts);
        let max = m.network.consensus.recovery_max_epochs;
        let first = base_draw(m, base, 0);
        let rest = recovery_draws(m, base, elapsed, max);
        let all = production_draws(m, block_ts);
        assert(all == seq![first] + rest);
        assert(all[0] == first);
        assert forall|d: DrawModel| #[trigger] all.contains(d) <==> Some(d) == committee_draw(m, 0) || exists|k: u32|
            {
                let delay = k * m.network.consensus.epoch_secs;
                &&& 1 <= k <= max
                &&& block_ts - base.block_ts >= delay || delay <= 0
                &&& Some(d) == #[trigger] committee_draw(m, k)
            } by {
            lemma_recovery_draws(m, base, elapsed, max, d);
            if all.contains(d) {
                let i = choose|i: int| 0 <= i < all.len() && all[i] == d;
                if i > 0 {
                    assert(rest[i - 1] == d);
                    assert(rest.contains(d));
                    let k = choose|k: u32|
                        1 <= k <= max && elapsed >= k * m.network.consensus.epoch_secs && d == #[trigger] base_draw(
                            m,
                            base,
                            k,
                        );
                    assert(Some(d) == committee_draw(m, k));
                }
            }
            if exists|k: u32|
                {
                    let delay = k * m.network.consensus.epoch_secs;
                    &&& 1 <= k <= max
                    &&& block_ts - base.block_ts >= delay || delay <= 0
                    &&& Some(d) == #[trigger] committee_draw(m, k)
                } {
                let k = choose|k: u32|
                    {
                        let delay = k * m.network.consensus.epoch_secs;
                        &&& 1 <= k <= max
                        &&& block_ts - base.block_ts >= delay || delay <= 0
                        &&& Some(d) == #[trigger] committee_draw(m, k)
                    };
                assert(d == base_draw(m, base, k));
                assert(rest.contains(d));
                let i = choose|i: int| 0 <= i < rest.len() && rest[i] == d;
                assert(all[i + 1] == d);
            }
        }
    }
}

/// Someone is in some committees exactly if one of them holds them.
pub proof fn law_members_are_of_a_committee(committees: Seq<Vec<PublicKey>>, key: PublicKey)
    ensures
        members_of(committees).contains(key) <==> exists|i: int|
            0 <= i < committees.len() && (#[trigger] committees[i])@.contains(key),
    decreases committees.len(),
{
    if committees.len() > 0 {
        let front = committees.drop_last();
        law_members_are_of_a_committee(front, key);
        let n = committees.len() - 1;
        assert(committees[n] == committees.last());
        assert(committees.last()@.to_set().contains(key) <==> committees.last()@.contains(key));
        if members_of(front).contains(key) {
            let i = choose|i: int| 0 <= i < front.len() && (#[trigger] front[i])@.contains(key);
            assert(committees[i]@.contains(key));
        }
        if exists|i: int| 0 <= i < committees.len() && (#[trigger] committees[i])@.contains(key) {
            let i = choose|i: int| 0 <= i < committees.len() && (#[trigger] committees[i])@.contains(key);
            if i < n {
                assert(front[i]@.contains(key));
            }
        }
    }
}

} // verus!

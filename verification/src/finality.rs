//! Checkpoint finality.
//!
//! A checkpoint commits an epoch, a block of our chain, the previous
//! checkpoint and the state root, and is signed by a quorum of the committee
//! elected for its epoch. Checkpoints chain. Once accepted, a checkpoint
//! never leaves: the eligibility pool is frozen at its block, and the fork
//! choice refuses every branch that contradicts it.
//!
//! Before any finalized checkpoint, production is open to the owners of live
//! registrations, and to everyone while there are none.
//!
//! The draw itself (which keys of a pool a seed elects), the quorum rule and
//! the signature count are made by the caller: this module says what to draw
//! from and what follows from the outcome.
use vstd::prelude::*;
use crate::block_hash::block_hash;
use crate::block_hash::hash_of_header;
use crate::chain::Blockchain;
use crate::chain_model::ChainModel;
use crate::chain_model::newest;
use crate::consensus::Consensus;
use crate::error::BlockchainError;
use crate::error::CheckpointFault;
use crate::error::ConsensusFault;
use crate::genesis::genesis_digest;
use crate::genesis::genesis_hash_of;
use crate::ids::BlockHash;
use crate::ids::Digest;
use crate::ids::PublicKey;
use crate::ids::copy_digests;
use crate::ids::holds_member;
use crate::ids::same_id;
use crate::ids::zero_digest;
use crate::ids::zeros;
use crate::smt_model::sorted_members;
use crate::state::smt_state_root;
use crate::types::BaseModel;
use crate::types::Checkpoint;
use crate::types::CheckpointData;
use crate::types::CheckpointModel;
use crate::types::FinalizedBase;

verus! {

/// Seed of a draw.
#[derive(Clone, Copy, Debug, PartialEq, Eq)]
pub enum SeedSource {
    /// Derived from the genesis hash, before any checkpoint.
    Genesis(BlockHash),
    /// The seed frozen with the last finalized checkpoint.
    Base(Digest),
    /// The recovery seed of a counter over that frozen seed.
    Recovery { seed: Digest, counter: u32 },
}

/// A committee election: which keys of `pool` the seed elects into `size`
/// seats.
#[derive(Debug, PartialEq, Eq)]
pub struct Draw {
    pub seed: SeedSource,
    pub pool: Vec<PublicKey>,
    pub size: usize,
}

/// A draw as a value.
#[verifier::ext_equal]
pub struct DrawModel {
    pub seed: SeedSource,
    pub pool: Seq<PublicKey>,
    pub size: usize,
}

impl View for Draw {
    type V = DrawModel;

    open spec fn view(&self) -> DrawModel {
        DrawModel { seed: self.seed, pool: self.pool@, size: self.size }
    }
}

/// The values of a list of draws.
pub open spec fn draw_models(draws: Seq<Draw>) -> Seq<DrawModel> {
    draws.map_values(|d: Draw| d@)
}

/// The draw before any checkpoint: over the current eligibility pool.
pub open spec fn bootstrap_draw(m: ChainModel) -> DrawModel {
    DrawModel {
        seed: SeedSource::Genesis(genesis_digest(m.network)),
        pool: sorted_members(m.state.pool()),
        size: m.network.consensus.committee_size,
    }
}

/// The draw of a recovery counter over a frozen base; 0 is the elected
/// committee itself.
pub open spec fn base_draw(m: ChainModel, base: BaseModel, recovery: u32) -> DrawModel {
    DrawModel {
        seed: if recovery == 0 {
            SeedSource::Base(base.seed)
        } else {
            SeedSource::Recovery { seed: base.seed, counter: recovery }
        },
        pool: base.pool,
        size: m.network.consensus.committee_size,
    }
}

/// The draw of the committee for the next epoch. Before any checkpoint there
/// is no recovery committee.
pub open spec fn committee_draw(m: ChainModel, recovery: u32) -> Option<DrawModel> {
    match m.finalized {
        None => if recovery != 0 {
            None
        } else {
            Some(bootstrap_draw(m))
        },
        Some(base) => Some(base_draw(m, base, recovery)),
    }
}

/// The recovery draws up to a counter whose delay is reached.
pub open spec fn recovery_draws(m: ChainModel, base: BaseModel, elapsed: u64, upto: u32) -> Seq<DrawModel>
    decreases upto,
{
    if upto == 0 {
        Seq::empty()
    } else {
        let rest = recovery_draws(m, base, elapsed, (upto - 1) as u32);
        if elapsed >= upto * m.network.consensus.epoch_secs {
            rest.push(base_draw(m, base, upto))
        } else {
            rest
        }
    }
}

/// Time from one timestamp to a later one; zero if it is not later.
pub open spec fn time_since(start: u64, now: u64) -> u64 {
    if now >= start {
        (now - start) as u64
    } else {
        0
    }
}

/// The draws whose committees may produce a block with a timestamp. No draw
/// means open production.
pub open spec fn production_draws(m: ChainModel, block_ts: u64) -> Seq<DrawModel> {
    match m.finalized {
        None => if m.state.pool() == Set::<PublicKey>::empty() {
            Seq::empty()
        } else {
            seq![bootstrap_draw(m)]
        },
        Some(base) => seq![base_draw(m, base, 0)] + recovery_draws(
            m,
            base,
            time_since(base.block_ts, block_ts),
            m.network.consensus.recovery_max_epochs,
        ),
    }
}

/// Timestamp of the block in memory at a height; zero if there is none.
pub open spec fn timestamp_at(m: ChainModel, height: u64) -> u64 {
    match m.block(height) {
        Some(b) => b.header.timestamp,
        None => 0,
    }
}

/// Checkpoint content for the tip.
pub open spec fn tip_checkpoint(m: ChainModel, recovery: u32) -> Result<CheckpointData, BlockchainError> {
    match hash_of_header(m.canonical.last().header) {
        Err(e) => Err(e),
        Ok(block_hash) => Ok(
            CheckpointData {
                epoch: if m.checkpoints.len() == 0 {
                    0
                } else {
                    (m.checkpoints.last().data.epoch + 1) as u64
                },
                height: m.height(),
                block_hash,
                prev_checkpoint_hash: if m.checkpoints.len() == 0 {
                    zero_digest()
                } else {
                    m.checkpoints.last().hash
                },
                state_root: smt_state_root(m.state.leaves),
                recovery,
            },
        ),
    }
}

/// The checkpoint that a node proposes for its tip.
pub open spec fn proposed(m: ChainModel) -> Option<CheckpointData> {
    let last = match m.floor() {
        Some(h) => h,
        None => 0,
    };
    let due = m.height() > last && m.height() - last >= m.network.consensus.epoch_min_blocks;
    let open = m.checkpoints.len() > 0 ==> m.checkpoints.last().data.epoch < u64::MAX;
    if due && open && tip_checkpoint(m, 0) is Ok {
        Some(tip_checkpoint(m, 0)->Ok_0)
    } else {
        None
    }
}

/// Which content rule a checkpoint breaks on the chain, if any.
pub open spec fn content_fault(m: ChainModel, d: CheckpointData) -> Option<CheckpointFault> {
    if d.height == 0 || d.height > m.height() {
        Some(CheckpointFault::NotInOurChain)
    } else if m.checkpoints.len() == 0 {
        if d.epoch != 0 || d.prev_checkpoint_hash != zero_digest() {
            Some(CheckpointFault::FirstMustChainGenesis)
        } else {
            None
        }
    } else {
        let last = m.checkpoints.last();
        let elapsed = time_since(timestamp_at(m, last.data.height), m.canonical.last().header.timestamp);
        if d.epoch != last.data.epoch + 1 {
            Some(CheckpointFault::EpochNotNext)
        } else if d.prev_checkpoint_hash != last.hash {
            Some(CheckpointFault::DoesNotChain)
        } else if d.height <= last.data.height {
            Some(CheckpointFault::HeightNotAdvancing)
        } else if d.recovery > m.network.consensus.recovery_max_epochs {
            Some(CheckpointFault::RecoveryBeyondLimit)
        } else if d.recovery >= 1 && elapsed < d.recovery * m.network.consensus.epoch_secs {
            Some(CheckpointFault::RecoveryTooEarly)
        } else {
            None
        }
    }
}

/// Outcome of the election and the signature count for a checkpoint.
#[derive(Clone, Copy, Debug, PartialEq, Eq, Structural)]
pub struct Tally {
    /// Seats of the elected committee that are filled.
    pub committee: usize,
    /// Votes needed.
    pub quorum: usize,
    /// Whether enough members signed.
    pub met: bool,
}

/// Why a checkpoint is refused, if it is.
pub open spec fn checkpoint_refusal(m: ChainModel, d: CheckpointData, tally: Tally) -> Option<CheckpointFault> {
    if content_fault(m, d) is Some {
        content_fault(m, d)
    } else if tally.committee < m.network.protocol.min_finality_committee {
        Some(CheckpointFault::CommitteeBelowFloor)
    } else if !tally.met {
        Some(CheckpointFault::QuorumNotMet { need: tally.quorum })
    } else if d.height == m.height() && d.state_root != smt_state_root(m.state.leaves) {
        Some(CheckpointFault::StateRootMismatch)
    } else {
        None
    }
}

/// Whether a checkpoint is the last finalized one.
pub open spec fn is_last(m: ChainModel, cp: CheckpointModel) -> bool {
    m.checkpoints.len() > 0 && m.checkpoints.last().hash == cp.hash
}

/// The chain after a checkpoint is finalized: it ends the checkpoint chain,
/// and the current eligibility pool is frozen with it.
pub open spec fn finalized_with(m: ChainModel, cp: CheckpointModel, next_seed: Digest) -> ChainModel {
    ChainModel {
        checkpoints: newest(m.checkpoints.push(cp)),
        finalized: Some(
            BaseModel {
                checkpoint: cp,
                pool: sorted_members(m.state.pool()),
                block_ts: timestamp_at(m, cp.data.height),
                seed: next_seed,
            },
        ),
        ..m
    }
}

/// A refusal by a checkpoint rule.
pub open spec fn checkpoint_error(f: CheckpointFault) -> BlockchainError {
    BlockchainError::Consensus(ConsensusFault::Checkpoint(f))
}

/// Members of some committees.
pub open spec fn members_of(committees: Seq<Vec<PublicKey>>) -> Set<PublicKey>
    decreases committees.len(),
{
    if committees.len() == 0 {
        Set::empty()
    } else {
        members_of(committees.drop_last()).union(committees.last()@.to_set())
    }
}

/// Adds what is missing of a committee to a list.
fn add_members(all: &mut Vec<PublicKey>, committee: &Vec<PublicKey>)
    requires
        old(all)@.no_duplicates(),
    ensures
        final(all)@.no_duplicates(),
        final(all)@.to_set() == old(all)@.to_set().union(committee@.to_set()),
{
    let ghost before = all@;
    let mut j: usize = 0;
    assert(committee@.take(0).to_set() =~= Set::empty());
    assert(all@.to_set() =~= before.to_set().union(committee@.take(0).to_set()));
    while j < committee.len()
        invariant
            j <= committee@.len(),
            all@.no_duplicates(),
            all@.to_set() == before.to_set().union(committee@.take(j as int).to_set()),
        decreases committee@.len() - j,
    {
        let key: PublicKey = committee[j];
        let ghost held = all@;
        proof {
            assert(committee@.take(j + 1) =~= committee@.take(j as int).push(key));
            committee@.take(j as int).lemma_push_to_set_commute(key);
            held.lemma_push_to_set_commute(key);
        }
        if !holds_member(all, &key) {
            all.push(key);
        }
        assert(held.to_set().contains(key) == held.contains(key));
        assert(all@.to_set() =~= before.to_set().union(committee@.take(j + 1).to_set()));
        j += 1;
    }
    assert(committee@.take(j as int) =~= committee@);
}

/// Everyone that one of some committees holds, each once.
pub fn everyone_in(committees: &Vec<Vec<PublicKey>>) -> (all: Vec<PublicKey>)
    ensures
        all@.no_duplicates(),
        all@.to_set() == members_of(committees@),
{
    let mut all: Vec<PublicKey> = Vec::new();
    let mut i: usize = 0;
    assert(all@.to_set() =~= members_of(committees@.take(0)));
    while i < committees.len()
        invariant
            i <= committees@.len(),
            all@.no_duplicates(),
            all@.to_set() == members_of(committees@.take(i as int)),
        decreases committees@.len() - i,
    {
        add_members(&mut all, &committees[i]);
        assert(committees@.take(i + 1).drop_last() =~= committees@.take(i as int));
        i += 1;
    }
    assert(committees@.take(i as int) =~= committees@);
    all
}

impl<C: Consensus> Blockchain<C> {
    /// The draw before any checkpoint.
    fn bootstrap(&self, now: u64) -> (draw: Draw)
        requires
            self.wf(),
        ensures
            draw@ == bootstrap_draw(self@),
            draw.pool@.to_set() == self@.state.pool(),
    {
        let network = self.network();
        Draw {
            seed: SeedSource::Genesis(genesis_hash_of(&network)),
            pool: self.state().eligible_validators(now),
            size: network.consensus.committee_size,
        }
    }

    /// The draw that elects the committee of the next epoch, or its
    /// recovery committee; none means an empty committee.
    pub fn committee(&self, recovery: u32) -> (draw: Option<Draw>)
        requires
            self.wf(),
        ensures
            match draw {
                Some(d) => committee_draw(self@, recovery) == Some(d@),
                None => committee_draw(self@, recovery) is None,
            },
    {
        match self.finalized() {
            None => {
                if recovery != 0 {
                    None
                } else {
                    Some(self.bootstrap(self.tip().header.timestamp))
                }
            },
            Some(base) => Some(self.over_base(base, recovery)),
        }
    }

    /// The draw of a recovery counter over a frozen base.
    fn over_base(&self, base: &FinalizedBase, recovery: u32) -> (draw: Draw)
        requires
            self.wf(),
        ensures
            draw@ == base_draw(self@, base@, recovery),
    {
        Draw {
            seed: if recovery == 0 {
                SeedSource::Base(base.seed)
            } else {
                SeedSource::Recovery { seed: base.seed, counter: recovery }
            },
            pool: copy_digests(&base.pool),
            size: self.network().consensus.committee_size,
        }
    }

    /// The draws whose committees may produce a block with timestamp
    /// `block_ts`; none means open production.
    pub fn allowed_producers(&self, block_ts: u64) -> (draws: Vec<Draw>)
        requires
            self.wf(),
        ensures
            draw_models(draws@) == production_draws(self@, block_ts),
    {
        let mut draws: Vec<Draw> = Vec::new();
        match self.finalized() {
            None => {
                let draw = self.bootstrap(block_ts);
                let ghost pool = self@.state.pool();
                if draw.pool.len() == 0 {
                    proof {
                        assert(draw.pool@.to_set() =~= Set::<PublicKey>::empty());
                        assert(pool =~= Set::<PublicKey>::empty());
                        assert(draw_models(draws@) =~= Seq::empty());
                    }
                    return draws;
                }
                proof {
                    assert(pool.contains(draw.pool@[0])) by {
                        assert(draw.pool@.to_set().contains(draw.pool@[0]));
                    }
                }
                let ghost d = draw@;
                draws.push(draw);
                assert(draw_models(draws@) =~= seq![d]);
            },
            Some(base) => {
                let first = self.over_base(base, 0);
                draws.push(first);
                let params = self.network().consensus;
                let elapsed: u64 = block_ts.saturating_sub(base.block_ts);
                let mut k: u32 = 0;
                assert(draw_models(draws@) =~= seq![base_draw(self@, base@, 0)] + recovery_draws(
                    self@,
                    base@,
                    elapsed,
                    0,
                ));
                while k < params.recovery_max_epochs
                    invariant
                        self.wf(),
                        params == self@.network.consensus,
                        k <= params.recovery_max_epochs,
                        draw_models(draws@) == seq![base_draw(self@, base@, 0)] + recovery_draws(
                            self@,
                            base@,
                            elapsed,
                            k,
                        ),
                    decreases params.recovery_max_epochs - k,
                {
                    k += 1;
                    if delay_reached(elapsed, k, params.epoch_secs) {
                        let ghost before = draws@;
                        let draw = self.over_base(base, k);
                        draws.push(draw);
                        assert(draw_models(draws@) =~= draw_models(before).push(base_draw(self@, base@, k)));
                        assert(draw_models(draws@) =~= seq![base_draw(self@, base@, 0)] + recovery_draws(
                            self@,
                            base@,
                            elapsed,
                            k,
                        ));
                    }
                }
            },
        }
        draws
    }

    /// Checkpoint content for the current tip.
    pub fn checkpoint_data(&self, recovery: u32) -> (r: Result<CheckpointData, BlockchainError>)
        requires
            self.wf(),
            self@.checkpoints.len() > 0 ==> self@.checkpoints.last().data.epoch < u64::MAX,
        ensures
            r == tip_checkpoint(self@, recovery),
    {
        let tip = self.tip();
        let window = self.checkpoint_window();
        let n: usize = window.len();
        let (epoch, prev): (u64, Digest) = if n == 0 {
            (0, zeros())
        } else {
            assert(self@.checkpoints.last() == window@[n - 1]@);
            (window[n - 1].data.epoch + 1, window[n - 1].hash)
        };
        match block_hash(&tip.header) {
            Err(e) => Err(e),
            Ok(hash) => Ok(
                CheckpointData {
                    epoch,
                    height: tip.header.height,
                    block_hash: hash,
                    prev_checkpoint_hash: prev,
                    state_root: self.state().state_root_smt(),
                    recovery,
                },
            ),
        }
    }

    /// Content rules of a checkpoint: its height is one of our chain above
    /// the last finalized one, it chains that one exactly, and it keeps the
    /// recovery limits. Whether it names our block at that height is for the
    /// caller to ask: a node on another branch switches first.
    pub fn check_checkpoint_data(&self, d: &CheckpointData) -> (r: Result<(), BlockchainError>)
        requires
            self.wf(),
        ensures
            match content_fault(self@, *d) {
                Some(f) => r == Err::<(), BlockchainError>(checkpoint_error(f)),
                None => r == Ok::<(), BlockchainError>(()),
            },
    {
        match self.check_content(d) {
            Some(f) => Err(BlockchainError::Consensus(ConsensusFault::Checkpoint(f))),
            None => Ok(()),
        }
    }

    /// The content rule that a checkpoint breaks.
    fn check_content(&self, d: &CheckpointData) -> (fault: Option<CheckpointFault>)
        requires
            self.wf(),
        ensures
            fault == content_fault(self@, *d),
    {
        if d.height == 0 || d.height > self.height() {
            return Some(CheckpointFault::NotInOurChain);
        }
        let window = self.checkpoint_window();
        let n: usize = window.len();
        if n == 0 {
            let none = zeros();
            if d.epoch != 0 || !same_id(&d.prev_checkpoint_hash, &none) {
                return Some(CheckpointFault::FirstMustChainGenesis);
            }
            return None;
        }
        let last = &window[n - 1];
        assert(self@.checkpoints.last() == window@[n - 1]@);
        if last.data.epoch == u64::MAX || d.epoch != last.data.epoch + 1 {
            return Some(CheckpointFault::EpochNotNext);
        }
        if !same_id(&d.prev_checkpoint_hash, &last.hash) {
            return Some(CheckpointFault::DoesNotChain);
        }
        if d.height <= last.data.height {
            return Some(CheckpointFault::HeightNotAdvancing);
        }
        let params = self.network().consensus;
        if d.recovery > params.recovery_max_epochs {
            return Some(CheckpointFault::RecoveryBeyondLimit);
        }
        if d.recovery >= 1 {
            let elapsed: u64 = self.tip().header.timestamp.saturating_sub(self.timestamp_of(last.data.height));
            if !delay_reached(elapsed, d.recovery, params.epoch_secs) {
                return Some(CheckpointFault::RecoveryTooEarly);
            }
        }
        None
    }

    /// Timestamp of the block in memory at a height; zero if there is none.
    fn timestamp_of(&self, height: u64) -> (ts: u64)
        requires
            self.wf(),
        ensures
            ts == timestamp_at(self@, height),
    {
        match self.block(height) {
            Some(b) => b.header.timestamp,
            None => 0,
        }
    }

    /// The checkpoint that this node proposes for the current tip; none
    /// before the minimum number of blocks since the last one, nor after the
    /// last epoch.
    pub fn propose_checkpoint(&self) -> (data: Option<CheckpointData>)
        requires
            self.wf(),
        ensures
            data == proposed(self@),
    {
        let last: u64 = match self.finality_floor() {
            Some(h) => h,
            None => 0,
        };
        let height: u64 = self.height();
        let min_blocks: u64 = self.network().consensus.epoch_min_blocks;
        if height <= last || height - last < min_blocks {
            return None;
        }
        let window = self.checkpoint_window();
        let n: usize = window.len();
        if n > 0 {
            assert(self@.checkpoints.last() == window@[n - 1]@);
            if window[n - 1].data.epoch == u64::MAX {
                return None;
            }
        }
        match self.checkpoint_data(0) {
            Ok(d) => Some(d),
            Err(_) => None,
        }
    }

    /// Accepts a finalized checkpoint. `tally` is the outcome of the draw
    /// that `committee` asks for at the checkpoint's recovery counter, and
    /// of the signature count; `next_seed` is the seed derived from the
    /// checkpoint's hash. True when the checkpoint is new, false when it is
    /// the last finalized one. A refusal leaves the chain unchanged.
    pub fn accept_checkpoint(&mut self, cp: Checkpoint, tally: Tally, next_seed: Digest) -> (r: Result<
        bool,
        BlockchainError,
    >)
        requires
            old(self).wf(),
        ensures
            final(self).wf(),
            final(self).rules() == old(self).rules(),
            if is_last(old(self)@, cp@) {
                r == Ok::<bool, BlockchainError>(false) && final(self)@ == old(self)@
            } else {
                match checkpoint_refusal(old(self)@, cp@.data, tally) {
                    Some(f) => r == Err::<bool, BlockchainError>(checkpoint_error(f)) && final(self)@ == old(
                        self,
                    )@,
                    None => r == Ok::<bool, BlockchainError>(true) && final(self)@ == finalized_with(
                        old(self)@,
                        cp@,
                        next_seed,
                    ),
                }
            },
    {
        let ghost m = self@;
        let window = self.checkpoint_window();
        let n: usize = window.len();
        if n > 0 {
            assert(m.checkpoints.last() == window@[n - 1]@);
            if same_id(&window[n - 1].hash, &cp.hash) {
                return Ok(false);
            }
        }
        match self.refusal(&cp.data, tally) {
            Some(f) => {
                return Err(BlockchainError::Consensus(ConsensusFault::Checkpoint(f)));
            },
            None => {},
        }
        let block_ts: u64 = self.timestamp_of(cp.data.height);
        let pool = self.state().eligible_validators(block_ts);
        let base = FinalizedBase { checkpoint: cp.clone(), pool, block_ts, seed: next_seed };
        self.freeze(cp, base);
        Ok(true)
    }

    /// Why a checkpoint is refused.
    fn refusal(&self, d: &CheckpointData, tally: Tally) -> (fault: Option<CheckpointFault>)
        requires
            self.wf(),
        ensures
            fault == checkpoint_refusal(self@, *d, tally),
    {
        match self.check_content(d) {
            Some(f) => {
                return Some(f);
            },
            None => {},
        }
        if tally.committee < self.network().protocol.min_finality_committee {
            return Some(CheckpointFault::CommitteeBelowFloor);
        }
        if !tally.met {
            return Some(CheckpointFault::QuorumNotMet { need: tally.quorum });
        }
        if d.height == self.height() {
            let root = self.state().state_root_smt();
            if !same_id(&d.state_root, &root) {
                return Some(CheckpointFault::StateRootMismatch);
            }
        }
        None
    }
}

/// Whether `elapsed` reaches the delay of a recovery counter.
fn delay_reached(elapsed: u64, counter: u32, epoch_secs: u64) -> (r: bool)
    ensures
        r == (elapsed >= counter * epoch_secs),
{
    assert(counter as u128 * epoch_secs as u128 <= 0xffff_ffff * 0xffff_ffff_ffff_ffff) by (nonlinear_arith)
        requires
            counter <= 0xffff_ffff,
            epoch_secs <= 0xffff_ffff_ffff_ffff,
    ;
    elapsed as u128 >= counter as u128 * epoch_secs as u128
}

} // verus!

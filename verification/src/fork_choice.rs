//! Fork choice.
//!
//! A block on a known block that is not the tip opens a branch. A branch is
//! adopted only if it holds every finalized checkpoint's block, and then if
//! it is longer than our chain, or as long with a lower tip hash. A switch
//! replays the common prefix and the branch from the genesis.
use vstd::prelude::*;
use crate::block_hash::block_hash;
use crate::block_hash::hash_of_header;
use crate::chain::AppliedBlock;
use crate::chain::Blockchain;
use crate::chain_model::ChainModel;
use crate::chain_model::clear_block;
use crate::chain_model::next_expired;
use crate::consensus::PermissiveConsensus;
use crate::error::BlockchainError;
use crate::error::ConsensusFault;
use crate::finality::Draw;
use crate::finality::draw_models;
use crate::finality::production_draws;
use crate::fork_model::adopt_lists;
use crate::fork_model::adopted;
use crate::fork_model::adoption;
use crate::fork_model::attach_lists;
use crate::fork_model::attached;
use crate::fork_model::attachment;
use crate::fork_model::branch_holds;
use crate::fork_model::chain_fault;
use crate::fork_model::expired_in;
use crate::fork_model::finalized_otherwise;
use crate::fork_model::has_prefix;
use crate::fork_model::keeps_finality;
use crate::fork_model::kept_blocks;
use crate::fork_model::lemma_replay_grows;
use crate::fork_model::lemma_replay_stops;
use crate::fork_model::lemma_switch_network;
use crate::fork_model::open_pre;
use crate::fork_model::producer_lists;
use crate::fork_model::pushed;
use crate::fork_model::replayed;
use crate::fork_model::restarted;
use crate::fork_model::switched;
use crate::fork_model::tried;
use crate::ids::BlockHash;
use crate::ids::DomainId;
use crate::ids::PublicKey;
use crate::ids::id_before;
use crate::ids::same_id;
use crate::types::Block;
use crate::types::BlockModel;
use crate::types::block_models;
use crate::types::checkpoint_models;

verus! {

/// A switch to another branch in progress: the blocks of the common prefix
/// and of the branch are pushed one by one onto a fresh chain.
pub struct Replay {
    chain: Blockchain<PermissiveConsensus>,
    blocks: Vec<Block>,
    next: usize,
    kept: usize,
    expired: Vec<DomainId>,
}

/// A replay as a value.
#[verifier::ext_equal]
pub struct ReplayModel {
    /// The fresh chain so far.
    pub chain: ChainModel,
    /// All blocks to push.
    pub blocks: Seq<BlockModel>,
    /// Index of the next block to push.
    pub next: nat,
    /// Number of blocks of the common prefix.
    pub kept: nat,
    /// Domains that the branch's expiry collections took out so far.
    pub expired: Seq<DomainId>,
}

impl View for Replay {
    type V = ReplayModel;

    closed spec fn view(&self) -> ReplayModel {
        ReplayModel {
            chain: self.chain@,
            blocks: block_models(self.blocks@),
            next: self.next as nat,
            kept: self.kept as nat,
            expired: self.expired@,
        }
    }
}

/// Where a replay over `m` stands after pushing under some producers.
pub open spec fn replay_at(r: ReplayModel, m: ChainModel, producers: Seq<Seq<PublicKey>>) -> bool {
    let done = r.blocks.subrange(0, r.next as int);
    &&& r.next <= r.blocks.len()
    &&& replayed(restarted(m), done, producers) == Ok::<ChainModel, BlockchainError>(r.chain)
    &&& r.expired == expired_in(restarted(m), done, producers, r.kept)
}

impl Replay {
    /// Every part is in order.
    pub closed spec fn wf(&self) -> bool {
        self.chain.wf() && self.next <= self.blocks@.len()
    }

    /// Whether all blocks are pushed.
    pub fn is_done(&self) -> (r: bool)
        requires
            self.wf(),
        ensures
            r == (self@.next == self@.blocks.len()),
    {
        self.next == self.blocks.len()
    }

    /// Number of blocks still to push.
    pub fn remaining(&self) -> (n: usize)
        requires
            self.wf(),
        ensures
            n == self@.blocks.len() - self@.next,
    {
        self.blocks.len() - self.next
    }

    /// The draws whose committees may produce the next block; none means
    /// open production.
    pub fn allowed_producers(&self) -> (draws: Vec<Draw>)
        requires
            self.wf(),
            self@.next < self@.blocks.len(),
        ensures
            draw_models(draws@) == production_draws(
                self@.chain,
                self@.blocks[self@.next as int].header.timestamp,
            ),
    {
        let ts: u64 = self.blocks[self.next].header.timestamp;
        self.chain.allowed_producers(ts)
    }

    /// Pushes the next block under its producers. After a refusal the
    /// replay is of no further use.
    pub fn step(&mut self, producers: &Vec<PublicKey>) -> (r: Result<(), BlockchainError>)
        requires
            old(self).wf(),
            old(self)@.next < old(self)@.blocks.len(),
        ensures
            final(self).wf(),
            match pushed(old(self)@.chain, old(self)@.blocks[old(self)@.next as int], producers@) {
                Err(e) => r == Err::<(), BlockchainError>(e),
                Ok(c) => r == Ok::<(), BlockchainError>(()) && final(self)@ == (ReplayModel {
                    chain: c,
                    next: old(self)@.next + 1,
                    expired: if old(self)@.next >= old(self)@.kept {
                        old(self)@.expired + next_expired(old(self)@.chain)
                    } else {
                        old(self)@.expired
                    },
                    ..old(self)@
                }),
            },
    {
        let ghost before = self@;
        proof {
            let b = self.blocks@[self.next as int]@;
            assert(before.blocks[self.next as int] == b);
            assert(self.chain.pre_faults(b.txs) =~= open_pre(b.txs));
            reveal(tried);
        }
        let count: usize = self.blocks.len();
        match self.chain.push_block_with_gc(&self.blocks[self.next], producers) {
            Err(e) => Err(e),
            Ok(applied) => {
                if self.next >= self.kept {
                    let mut gone = applied.gc_removed_domains;
                    self.expired.append(&mut gone);
                }
                self.next = self.next + 1;
                Ok(())
            },
        }
    }
}

impl Blockchain<PermissiveConsensus> {
    /// Pushes a block; why it is refused, if it is.
    pub fn offer(&mut self, block: &Block, producers: &Vec<PublicKey>) -> (refusal: Option<BlockchainError>)
        requires
            old(self).wf(),
        ensures
            final(self).wf(),
            (final(self)@, refusal) == tried(old(self)@, block@, producers@),
    {
        proof {
            assert(self.pre_faults(block@.txs) =~= open_pre(block@.txs));
            reveal(tried);
        }
        match self.push_block_with_gc(block, producers) {
            Ok(_) => None,
            Err(e) => Some(e),
        }
    }

    /// A fresh chain about to push the blocks up to `height` and then
    /// `extension`.
    fn start_replay(&self, height: u64, extension: &Vec<Block>) -> (r: Result<Replay, BlockchainError>)
        requires
            self.wf(),
        ensures
            match r {
                Err(e) => e == BlockchainError::UnknownParent && !has_prefix(self@, height),
                Ok(replay) => {
                    &&& has_prefix(self@, height)
                    &&& replay.wf()
                    &&& replay@ == (ReplayModel {
                        chain: restarted(self@),
                        blocks: kept_blocks(self@, height) + block_models(extension@),
                        next: 0,
                        kept: height as nat,
                        expired: Seq::empty(),
                    })
                },
            },
    {
        let mut blocks: Vec<Block> = Vec::new();
        let mut h: u64 = 0;
        while h < height
            invariant
                self.wf(),
                h <= height,
                blocks@.len() == h,
                forall|x: u64| 1 <= x <= h ==> #[trigger] self@.block(x) is Some,
                forall|i: int| 0 <= i < h ==> self@.block((i + 1) as u64) == Some((#[trigger] blocks@[i])@),
            decreases height - h,
        {
            h += 1;
            match self.block(h) {
                None => {
                    return Err(BlockchainError::UnknownParent);
                },
                Some(b) => {
                    blocks.push(b.clone());
                },
            }
        }
        let kept: usize = blocks.len();
        assert(block_models(blocks@) =~= kept_blocks(self@, height));
        let ghost whole = kept_blocks(self@, height);
        let mut i: usize = 0;
        while i < extension.len()
            invariant
                i <= extension@.len(),
                block_models(blocks@) =~= whole + block_models(extension@.subrange(0, i as int)),
            decreases extension@.len() - i,
        {
            let ghost before = blocks@;
            blocks.push(extension[i].clone());
            proof {
                assert(block_models(blocks@) =~= block_models(before).push(extension@[i as int]@));
                assert(block_models(extension@.subrange(0, i + 1)) =~= block_models(
                    extension@.subrange(0, i as int),
                ).push(extension@[i as int]@));
            }
            i += 1;
        }
        assert(extension@.subrange(0, i as int) =~= extension@);
        let mut chain = Blockchain::with_consensus_for_network(PermissiveConsensus, self.network());
        chain.carry_finality(self);
        let expired: Vec<DomainId> = Vec::new();
        Ok(Replay { chain, blocks, next: 0, kept, expired })
    }

    /// Why a block does not attach: it builds neither on the tip nor beats
    /// it.
    fn check_attachment(&self, block: &Block) -> (fault: Option<BlockchainError>)
        requires
            self.wf(),
        ensures
            fault == attachment(self@, block@),
    {
        let header = &block.header;
        let tip = self.tip_hash();
        if same_id(&header.prev_hash, &tip) {
            return None;
        }
        if !self.knows(&header.prev_hash) {
            return Some(self.classify_parent_miss(header.height));
        }
        if header.height != self.height() || header.height == 0 {
            return Some(BlockchainError::ParentNotTip);
        }
        match block_hash(header) {
            Err(e) => Some(e),
            Ok(hash) => {
                if !id_before(&hash, &tip) {
                    return Some(BlockchainError::ParentNotTip);
                }
                let window = self.checkpoint_window();
                let mut i: usize = 0;
                while i < window.len()
                    invariant
                        i <= window@.len(),
                        checkpoint_models(window@) == self@.checkpoints,
                        block@.header.height == header.height,
                        hash_of_header(block@.header) == Ok::<BlockHash, BlockchainError>(hash),
                        attachment(self@, block@) == (if finalized_otherwise(self@, header.height, hash) {
                            Some(BlockchainError::Consensus(ConsensusFault::ContradictsFinalized))
                        } else {
                            None
                        }),
                        forall|j: int|
                            0 <= j < i ==> !((#[trigger] self@.checkpoints[j]).data.height == header.height
                                && self@.checkpoints[j].data.block_hash != hash),
                    decreases window@.len() - i,
                {
                    assert(self@.checkpoints[i as int] == window@[i as int]@);
                    if window[i].data.height == header.height && !same_id(&window[i].data.block_hash, &hash) {
                        return Some(BlockchainError::Consensus(ConsensusFault::ContradictsFinalized));
                    }
                    i += 1;
                }
                None
            },
        }
    }

    /// What attaching a block takes, when its parent is not the tip: the
    /// replay after which `switch_to` makes it the tip. None when its parent
    /// is the tip: then it is pushed.
    pub fn plan_attach(&self, block: &Block) -> (r: Result<Option<Replay>, BlockchainError>)
        requires
            self.wf(),
        ensures
            match attachment(self@, block@) {
                Some(e) => r == Err::<Option<Replay>, BlockchainError>(e),
                None => if block@.header.prev_hash == self@.tip {
                    r matches Ok(None)
                } else {
                    let base = (block@.header.height - 1) as u64;
                    if !has_prefix(self@, base) {
                        r == Err::<Option<Replay>, BlockchainError>(BlockchainError::UnknownParent)
                    } else {
                        r matches Ok(Some(replay)) && replay.wf() && replay@ == (ReplayModel {
                            chain: restarted(self@),
                            blocks: kept_blocks(self@, base) + seq![block@],
                            next: 0,
                            kept: base as nat,
                            expired: Seq::empty(),
                        })
                    }
                },
            },
    {
        match self.check_attachment(block) {
            Some(e) => {
                return Err(e);
            },
            None => {},
        }
        let tip = self.tip_hash();
        if same_id(&block.header.prev_hash, &tip) {
            return Ok(None);
        }
        let mut one: Vec<Block> = Vec::new();
        one.push(block.clone());
        assert(block_models(one@) =~= seq![block@]);
        match self.start_replay(block.header.height - 1, &one) {
            Err(e) => Err(e),
            Ok(replay) => Ok(Some(replay)),
        }
    }

    /// Attaches a block: pushes it when its parent is the tip, or replaces
    /// the tip by it when it is a sister of the tip with a lower hash.
    /// `producers` holds, for each block to push, the keys that may produce
    /// it: one list for a push, the lists of the whole replay for a switch,
    /// none for a refusal at first sight. A refusal leaves the chain as it
    /// was.
    pub fn try_attach(&mut self, block: &Block, producers: &Vec<Vec<PublicKey>>) -> (r: Result<
        AppliedBlock,
        BlockchainError,
    >)
        requires
            old(self).wf(),
            producers@.len() >= attach_lists(old(self)@, block@),
        ensures
            final(self).wf(),
            final(self)@ == attached(old(self)@, block@, producer_lists(producers@)).0,
            r is Ok <==> attached(old(self)@, block@, producer_lists(producers@)).1 is None,
            ({
                let m = old(self)@;
                let b = block@;
                let lists = producer_lists(producers@);
                let base = (b.header.height - 1) as u64;
                match attachment(m, b) {
                    Some(e) => r == Err::<AppliedBlock, BlockchainError>(e) && final(self)@ == m,
                    None => if b.header.prev_hash == m.tip {
                        match pushed(m, b, lists[0]) {
                            Err(e) => {
                                &&& r == Err::<AppliedBlock, BlockchainError>(e)
                                &&& clear_block(m, b, open_pre(b.txs)) ==> final(self)@ == m
                            },
                            Ok(c) => {
                                &&& r is Ok
                                &&& r->Ok_0.hash == c.tip
                                &&& r->Ok_0.gc_removed_domains@ == next_expired(m)
                                &&& final(self)@ == c
                            },
                        }
                    } else {
                        match switched(m, base, seq![b], lists) {
                            Err(e) => r == Err::<AppliedBlock, BlockchainError>(e) && final(self)@ == m,
                            Ok(c) => {
                                &&& r is Ok
                                &&& r->Ok_0.hash == c.tip
                                &&& r->Ok_0.gc_removed_domains@ == expired_in(
                                    restarted(m),
                                    kept_blocks(m, base) + seq![b],
                                    lists,
                                    base as nat,
                                )
                                &&& final(self)@ == c
                            },
                        }
                    },
                }
            }),
    {
        let ghost m = self@;
        let ghost b = block@;
        proof {
            assert(self.pre_faults(b.txs) =~= open_pre(b.txs));
            reveal(tried);
            lemma_switch_network(m, (b.header.height - 1) as u64, seq![b], producer_lists(producers@));
        }
        match self.plan_attach(block) {
            Err(e) => Err(e),
            Ok(None) => self.push_block_with_gc(block, &producers[0]),
            Ok(Some(replay)) => match run_replay(replay, producers, Ghost(m)) {
                Err(e) => Err(e),
                Ok(done) => Ok(self.switch_to(done)),
            },
        }
    }

    /// Whether a branch wins, or why it is refused.
    fn check_adoption(&self, blocks: &Vec<Block>) -> (r: Result<bool, BlockchainError>)
        requires
            self.wf(),
        ensures
            r == adoption(self@, block_models(blocks@)),
    {
        let ghost models = block_models(blocks@);
        let n: usize = blocks.len();
        if n == 0 {
            return Ok(false);
        }
        let mut i: usize = 1;
        while i < n
            invariant
                1 <= i <= n,
                n == blocks@.len(),
                models == block_models(blocks@),
                chain_fault(models, 0) == chain_fault(models, i as nat),
                models.len() == n,
            decreases n - i,
        {
            assert(models[i as int] == blocks@[i as int]@);
            assert(models[i - 1] == blocks@[i - 1]@);
            match block_hash(&blocks[i - 1].header) {
                Err(e) => {
                    assert(chain_fault(models, 0) == Some(e));
                    return Err(e);
                },
                Ok(h) => {
                    if !same_id(&blocks[i].header.prev_hash, &h) {
                        return Err(BlockchainError::Consensus(ConsensusFault::BranchDoesNotChain));
                    }
                },
            }
            i += 1;
        }
        let first = &blocks[0];
        assert(models[0] == first@);
        if first.header.height == 0 {
            return Err(BlockchainError::UnknownParent);
        }
        let base: u64 = first.header.height - 1;
        match self.block(base) {
            None => {
                return Err(self.classify_parent_miss(first.header.height));
            },
            Some(b) => match block_hash(&b.header) {
                Err(e) => {
                    return Err(e);
                },
                Ok(h) => {
                    if !same_id(&first.header.prev_hash, &h) {
                        return Err(BlockchainError::UnknownParent);
                    }
                },
            },
        }
        if !self.branch_keeps_finality(base, blocks) {
            return Err(BlockchainError::Consensus(ConsensusFault::ContradictsFinalized));
        }
        assert(models.last() == blocks@[n - 1]@);
        match block_hash(&blocks[n - 1].header) {
            Err(e) => Err(e),
            Ok(candidate) => {
                let tip = self.tip_hash();
                let height: u128 = base as u128 + n as u128;
                let ours: u128 = self.height() as u128;
                Ok(height > ours || (height == ours && id_before(&candidate, &tip)))
            },
        }
    }

    /// Whether a branch above `base` holds the block of every finalized
    /// checkpoint.
    fn branch_keeps_finality(&self, base: u64, blocks: &Vec<Block>) -> (r: bool)
        requires
            self.wf(),
        ensures
            r == keeps_finality(self@, base, block_models(blocks@)),
    {
        let ghost models = block_models(blocks@);
        let window = self.checkpoint_window();
        let mut i: usize = 0;
        while i < window.len()
            invariant
                self.wf(),
                i <= window@.len(),
                models == block_models(blocks@),
                checkpoint_models(window@) == self@.checkpoints,
                forall|j: int| 0 <= j < i ==> branch_holds(self@, base, models, #[trigger] self@.checkpoints[j]),
            decreases window@.len() - i,
        {
            let cp = &window[i];
            assert(self@.checkpoints[i as int] == cp@);
            let height: u64 = cp.data.height;
            let found: Option<&Block> = if height <= base {
                self.block(height)
            } else {
                let offset: u64 = height - base - 1;
                if offset < blocks.len() as u64 {
                    assert(models[offset as int] == blocks@[offset as int]@);
                    Some(&blocks[offset as usize])
                } else {
                    None
                }
            };
            let holds = match found {
                None => false,
                Some(b) => match block_hash(&b.header) {
                    Err(_) => false,
                    Ok(h) => same_id(&h, &cp.data.block_hash),
                },
            };
            if !holds {
                assert(!branch_holds(self@, base, models, self@.checkpoints[i as int]));
                return false;
            }
            i += 1;
        }
        true
    }

    /// The replay after which `switch_to` adopts a branch; none if it does
    /// not beat our chain.
    pub fn plan_adoption(&self, blocks: &Vec<Block>) -> (r: Result<Option<Replay>, BlockchainError>)
        requires
            self.wf(),
        ensures
            ({
                let b = block_models(blocks@);
                match adoption(self@, b) {
                    Err(e) => r == Err::<Option<Replay>, BlockchainError>(e),
                    Ok(false) => r matches Ok(None),
                    Ok(true) => {
                        let base = (b[0].header.height - 1) as u64;
                        if !has_prefix(self@, base) {
                            r == Err::<Option<Replay>, BlockchainError>(BlockchainError::UnknownParent)
                        } else {
                            r matches Ok(Some(replay)) && replay.wf() && replay@ == (ReplayModel {
                                chain: restarted(self@),
                                blocks: kept_blocks(self@, base) + b,
                                next: 0,
                                kept: base as nat,
                                expired: Seq::empty(),
                            })
                        }
                    },
                }
            }),
    {
        match self.check_adoption(blocks) {
            Err(e) => Err(e),
            Ok(wins) => {
                if !wins {
                    return Ok(None);
                }
                assert(block_models(blocks@)[0] == blocks@[0]@);
                match self.start_replay(blocks[0].header.height - 1, blocks) {
                    Err(e) => Err(e),
                    Ok(replay) => Ok(Some(replay)),
                }
            },
        }
    }

    /// Adopts a competing branch if it beats our chain and contradicts no
    /// finalized checkpoint. `producers` holds the keys that may produce
    /// each block of the replay, common prefix first. A refusal leaves the
    /// chain as it was.
    pub fn adopt_branch(&mut self, blocks: &Vec<Block>, producers: &Vec<Vec<PublicKey>>) -> (r: Result<
        bool,
        BlockchainError,
    >)
        requires
            old(self).wf(),
            producers@.len() >= adopt_lists(old(self)@, block_models(blocks@)),
        ensures
            final(self).wf(),
            (final(self)@, r == Ok::<bool, BlockchainError>(true)) == adopted(
                old(self)@,
                block_models(blocks@),
                producer_lists(producers@),
            ),
            ({
                let m = old(self)@;
                let b = block_models(blocks@);
                match adoption(m, b) {
                    Err(e) => r == Err::<bool, BlockchainError>(e) && final(self)@ == m,
                    Ok(false) => r == Ok::<bool, BlockchainError>(false) && final(self)@ == m,
                    Ok(true) => match switched(
                        m,
                        (b[0].header.height - 1) as u64,
                        b,
                        producer_lists(producers@),
                    ) {
                        Err(e) => r == Err::<bool, BlockchainError>(e) && final(self)@ == m,
                        Ok(c) => r == Ok::<bool, BlockchainError>(true) && final(self)@ == c,
                    },
                }
            }),
    {
        let ghost m = self@;
        match self.plan_adoption(blocks) {
            Err(e) => Err(e),
            Ok(None) => Ok(false),
            Ok(Some(replay)) => {
                proof {
                    let b = block_models(blocks@);
                    assert(b[0] == blocks@[0]@);
                    lemma_switch_network(m, (b[0].header.height - 1) as u64, b, producer_lists(producers@));
                }
                match run_replay(replay, producers, Ghost(m)) {
                    Err(e) => Err(e),
                    Ok(done) => {
                        self.switch_to(done);
                        Ok(true)
                    },
                }
            },
        }
    }

    /// Makes the chain of a finished replay ours.
    pub fn switch_to(&mut self, replay: Replay) -> (applied: AppliedBlock)
        requires
            old(self).wf(),
            replay.wf(),
            replay@.next == replay@.blocks.len(),
            replay@.chain.network == old(self)@.network,
        ensures
            final(self).wf(),
            final(self)@ == replay@.chain,
            applied.hash == replay@.chain.tip,
            applied.gc_removed_domains@ == replay@.expired,
    {
        let hash = replay.chain.tip_hash();
        let gc_removed_domains = replay.expired;
        self.take_over(replay.chain);
        AppliedBlock { hash, gc_removed_domains }
    }
}

/// Runs a replay to its end under given producers.
fn run_replay(plan: Replay, producers: &Vec<Vec<PublicKey>>, Ghost(m): Ghost<ChainModel>) -> (r: Result<
    Replay,
    BlockchainError,
>)
    requires
        plan.wf(),
        plan@.next == 0,
        plan@.chain == restarted(m),
        plan@.expired == Seq::<DomainId>::empty(),
        producers@.len() >= plan@.blocks.len(),
    ensures
        match replayed(restarted(m), plan@.blocks, producer_lists(producers@)) {
            Err(e) => r == Err::<Replay, BlockchainError>(e),
            Ok(c) => {
                &&& r is Ok
                &&& r->Ok_0.wf()
                &&& r->Ok_0@ == (ReplayModel {
                    chain: c,
                    next: plan@.blocks.len(),
                    expired: expired_in(
                        restarted(m),
                        plan@.blocks,
                        producer_lists(producers@),
                        plan@.kept,
                    ),
                    ..plan@
                })
            },
        },
{
    let ghost lists = producer_lists(producers@);
    let ghost first = plan@;
    let ghost start = restarted(m);
    let mut replay = plan;
    assert(first.blocks.subrange(0, 0) =~= Seq::empty());
    while !replay.is_done()
        invariant
            replay.wf(),
            replay@.blocks == first.blocks,
            replay@.kept == first.kept,
            lists == producer_lists(producers@),
            producers@.len() >= first.blocks.len(),
            replay_at(replay@, m, lists),
            start == restarted(m),
            first == plan@,
        decreases first.blocks.len() - replay@.next,
    {
        let i: usize = replay.next;
        proof {
            assert(lists[i as int] == producers@[i as int]@);
            lemma_replay_grows(start, first.blocks, lists, i as int, first.kept, replay@.chain);
        }
        match replay.step(&producers[i]) {
            Err(e) => {
                proof {
                    lemma_replay_stops(start, first.blocks, lists, i + 1);
                }
                return Err(e);
            },
            Ok(_) => {},
        }
    }
    assert(first.blocks.subrange(0, replay@.next as int) =~= first.blocks);
    Ok(replay)
}

} // verus!

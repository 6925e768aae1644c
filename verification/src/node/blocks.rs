//! How a node moves its chain: linear pushes, branch switches and its own
//! blocks.
use vstd::prelude::*;
use crate::block_hash::block_hash;
use crate::block_hash::encoded_header_hash;
use crate::block_hash::hash_of_header;
use crate::block_hash::header_digest;
use crate::builder::BlockBuilder;
use crate::builder::HeaderDraft;
use crate::chain_model::ChainModel;
use crate::crypto::ed25519_public;
use crate::crypto::ed25519_signature;
use crate::error::BlockchainError;
use crate::fork_model::adopt_lists;
use crate::fork_model::adopted;
use crate::fork_model::producer_lists;
use crate::fork_model::tried;
use crate::ids::Digest;
use crate::ids::PublicKey;
use crate::ids::same_id;
use crate::merkle::tx_root_of;
use crate::node::NodeModel;
use crate::node::SimNode;
use crate::node::fits_tip;
use crate::node::pool_models;
use crate::node::precheck_fault;
use crate::node::precheck_tx;
use crate::parking::best_branch;
use crate::parking::best_parked_branch;
use crate::parking::find_next;
use crate::parking::next_parked;
use crate::parking::parked_models;
use crate::producer::BLOCK_SIGN_TAG;
use crate::producer::encode_producer_payload;
use crate::producer::producer_message;
use crate::producer::sign_block_hash;
use crate::rejections::RejectKind;
use crate::rejections::classify;
use crate::rejections::kind_of;
use crate::txid::TxId;
use crate::types::Block;
use crate::types::BlockModel;
use crate::types::Encoded;
use crate::types::HeaderModel;
use crate::types::ProtocolError;
use crate::types::Transaction;
use crate::types::TxModel;
use crate::types::block_models;
use crate::types::copy_txs;
use crate::types::tx_models;

verus! {

/// The node after it tried to push a block on its tip, and whether it did. A
/// block that is not the next one changes nothing.
pub open spec fn extended_by(n: NodeModel, b: BlockModel, producers: Seq<PublicKey>) -> (NodeModel, bool) {
    if fits_tip(n.chain, b) {
        let (c, refusal) = tried(n.chain, b, producers);
        (NodeModel { chain: c, ..n }, refusal is None)
    } else {
        (n, false)
    }
}

/// The node after it tried to push the next parked block, and whether it did.
pub open spec fn drained(n: NodeModel, producers: Seq<PublicKey>) -> (NodeModel, bool) {
    match next_parked(n.parked, n.chain.tip, n.chain.height()) {
        None => (n, false),
        Some(k) => {
            let (c, refusal) = tried(n.chain, n.parked[k], producers);
            if refusal is None {
                (NodeModel { chain: c, parked: n.parked.remove(k), ..n }, true)
            } else {
                (NodeModel { chain: c, ..n }, false)
            }
        },
    }
}

/// The parking without some blocks.
pub open spec fn unparked(p: Map<Digest, BlockModel>, blocks: Seq<BlockModel>) -> Map<Digest, BlockModel>
    decreases blocks.len(),
{
    if blocks.len() == 0 {
        p
    } else {
        let rest = unparked(p, blocks.drop_last());
        match hash_of_header(blocks.last().header) {
            Ok(h) => rest.remove(h),
            Err(_) => rest,
        }
    }
}

/// The node after it tried to switch to its best parked branch, and the
/// blocks of that branch if it did.
pub open spec fn readopted(n: NodeModel, lists: Seq<Seq<PublicKey>>) -> (NodeModel, Option<Seq<BlockModel>>) {
    let branch = best_branch(n.parked, n.chain);
    if branch.len() == 0 {
        (n, None)
    } else {
        match adopted(n.chain, branch, lists) {
            (c, true) => (NodeModel { chain: c, parked: unparked(n.parked, branch), ..n }, Some(branch)),
            (c, false) => (NodeModel { chain: c, ..n }, None),
        }
    }
}

/// The node after a branch was offered to it, and whether it switched.
pub open spec fn switched_to(n: NodeModel, blocks: Seq<BlockModel>, lists: Seq<Seq<PublicKey>>) -> (NodeModel, bool) {
    let (c, won) = adopted(n.chain, blocks, lists);
    (NodeModel { chain: c, ..n }, won)
}

/// Kinds of the waiting transactions that a chain refuses at first sight, and
/// the others.
pub open spec fn screened(m: ChainModel, pool: Seq<(Digest, TxModel)>) -> (Seq<RejectKind>, Seq<TxModel>)
    decreases pool.len(),
{
    if pool.len() == 0 {
        (Seq::empty(), Seq::empty())
    } else {
        let (kinds, txs) = screened(m, pool.drop_last());
        let (id, t) = pool.last();
        if m.included.contains_key(id) {
            (kinds.push(RejectKind::TxReplay), txs)
        } else {
            match precheck_fault(m, t) {
                None => (kinds, txs.push(t)),
                Some(e) => (kinds.push(kind_of(e)), txs),
            }
        }
    }
}

/// The block that a node builds on its tip, under given header encodings: of
/// the header without consensus payload, and of the header.
pub open spec fn own_block(
    n: NodeModel,
    timestamp: u64,
    txs: Seq<TxModel>,
    signing: Result<Seq<u8>, ProtocolError>,
    encoding: Result<Seq<u8>, ProtocolError>,
) -> Result<BlockModel, BlockchainError> {
    match header_digest(signing) {
        Err(e) => Err(BlockchainError::Protocol(e)),
        Ok(h) => match tx_root_of(txs) {
            Err(e) => Err(e),
            Ok(root) => match encoding {
                Err(e) => Err(BlockchainError::Protocol(e)),
                Ok(bytes) => Ok(
                    BlockModel {
                        header: HeaderModel {
                            version: n.chain.network.protocol.version,
                            height: (n.chain.height() + 1) as u64,
                            prev_hash: n.chain.tip,
                            tx_root: root,
                            timestamp,
                            consensus: BLOCK_SIGN_TAG@ + ed25519_public(n.seed) + ed25519_signature(
                                n.seed,
                                producer_message(h),
                            ),
                            encoding: Ok(bytes),
                            signing_encoding: signing,
                        },
                        txs,
                    },
                ),
            },
        },
    }
}

/// What became of an attempt at an own block.
pub enum Attempt {
    /// The block is the new tip.
    Produced(Block),
    /// No block could be built.
    NotBuilt(RejectKind),
    /// The chain refused the block.
    Refused(RejectKind),
}

/// An attempt as a value.
pub enum AttemptModel {
    Produced(BlockModel),
    NotBuilt(RejectKind),
    Refused(RejectKind),
}

impl View for Attempt {
    type V = AttemptModel;

    open spec fn view(&self) -> AttemptModel {
        match self {
            Attempt::Produced(b) => AttemptModel::Produced(b@),
            Attempt::NotBuilt(k) => AttemptModel::NotBuilt(*k),
            Attempt::Refused(k) => AttemptModel::Refused(*k),
        }
    }
}

/// The node after an attempt at an own block, and what became of it.
pub open spec fn attempted(
    n: NodeModel,
    timestamp: u64,
    txs: Seq<TxModel>,
    signing: Result<Seq<u8>, ProtocolError>,
    encoding: Result<Seq<u8>, ProtocolError>,
    producers: Seq<PublicKey>,
) -> (NodeModel, AttemptModel) {
    if n.chain.height() == u64::MAX {
        (n, AttemptModel::NotBuilt(RejectKind::Other))
    } else {
        match own_block(n, timestamp, txs, signing, encoding) {
            Err(e) => (n, AttemptModel::NotBuilt(kind_of(e))),
            Ok(b) => match tried(n.chain, b, producers) {
                (c, None) => (NodeModel { chain: c, ..n }, AttemptModel::Produced(b)),
                (c, Some(e)) => (NodeModel { chain: c, ..n }, AttemptModel::Refused(kind_of(e))),
            },
        }
    }
}

impl SimNode {
    /// Pushes a block if it is the next one; whether it was accepted.
    pub fn push_next(&mut self, block: &Block, producers: &Vec<PublicKey>) -> (accepted: bool)
        requires
            old(self).wf(),
        ensures
            final(self).wf(),
            (final(self)@, accepted) == extended_by(old(self)@, block@, producers@),
    {
        let h = &block.header;
        let tip = self.chain.tip_hash();
        if h.height > 0 && h.height - 1 == self.chain.height() && same_id(&h.prev_hash, &tip) {
            self.chain.offer(block, producers).is_none()
        } else {
            false
        }
    }

    /// The parked block that comes next on the tip.
    pub fn next_waiting(&self) -> (block: Option<&Block>)
        requires
            self.wf(),
        ensures
            match (next_parked(self@.parked, self@.chain.tip, self@.chain.height()), block) {
                (None, None) => true,
                (Some(k), Some(b)) => b@ == self@.parked[k],
                _ => false,
            },
    {
        let tip = self.chain.tip_hash();
        match find_next(&self.parked, &tip, self.chain.height()) {
            None => None,
            Some(k) => {
                assert(self.parked@.contains_key(k));
                self.parked.get(&k)
            },
        }
    }

    /// Pushes the parked block that comes next on the tip; whether one was
    /// accepted.
    pub fn drain_parked(&mut self, producers: &Vec<PublicKey>) -> (accepted: bool)
        requires
            old(self).wf(),
        ensures
            final(self).wf(),
            (final(self)@, accepted) == drained(old(self)@, producers@),
    {
        let ghost n = self@;
        let tip = self.chain.tip_hash();
        let k: Digest = match find_next(&self.parked, &tip, self.chain.height()) {
            None => {
                return false;
            },
            Some(k) => k,
        };
        assert(self.parked@.contains_key(k));
        match self.parked.get(&k) {
            None => false,
            Some(b) => {
                assert(n.parked[k] == b@);
                let refusal = self.chain.offer(b, producers);
                if refusal.is_none() {
                    let ghost p = self.parked@;
                    self.parked.remove(&k);
                    assert(parked_models(self.parked@) =~= parked_models(p).remove(k));
                    true
                } else {
                    false
                }
            },
        }
    }

    /// The parked branch that the chain may switch to.
    pub fn parked_branch(&self) -> (blocks: Vec<Block>)
        requires
            self.wf(),
        ensures
            block_models(blocks@) == best_branch(self@.parked, self@.chain),
    {
        best_parked_branch(&self.parked, &self.chain)
    }

    /// Takes blocks out of the parking.
    fn unpark(&mut self, blocks: &Vec<Block>)
        requires
            old(self).wf(),
        ensures
            final(self).wf(),
            final(self)@ == (NodeModel {
                parked: unparked(old(self)@.parked, block_models(blocks@)),
                ..old(self)@
            }),
    {
        let ghost n = self@;
        let ghost all = block_models(blocks@);
        let mut i: usize = 0;
        assert(all.take(0) =~= Seq::empty());
        while i < blocks.len()
            invariant
                self.wf(),
                i <= blocks@.len(),
                all == block_models(blocks@),
                self@ == (NodeModel { parked: unparked(n.parked, all.take(i as int)), ..n }),
            decreases blocks@.len() - i,
        {
            proof {
                assert(all.take(i + 1).drop_last() =~= all.take(i as int));
                assert(all.take(i + 1).last() == blocks@[i as int]@);
            }
            match block_hash(&blocks[i].header) {
                Ok(h) => {
                    let ghost p = self.parked@;
                    self.parked.remove(&h);
                    assert(parked_models(self.parked@) =~= parked_models(p).remove(h));
                },
                Err(_) => {},
            }
            i += 1;
        }
        assert(all.take(i as int) =~= all);
    }

    /// Switches to the best parked branch if it wins; its blocks.
    pub fn try_adopt(&mut self, producers: &Vec<Vec<PublicKey>>) -> (blocks: Option<Vec<Block>>)
        requires
            old(self).wf(),
            producers@.len() >= adopt_lists(
                old(self)@.chain,
                best_branch(old(self)@.parked, old(self)@.chain),
            ),
        ensures
            final(self).wf(),
            ({
                let (n, branch) = readopted(old(self)@, producer_lists(producers@));
                &&& final(self)@ == n
                &&& match (branch, blocks) {
                    (None, None) => true,
                    (Some(b), Some(v)) => block_models(v@) == b,
                    _ => false,
                }
            }),
    {
        let branch = self.parked_branch();
        assert(block_models(branch@).len() == branch@.len());
        if branch.len() == 0 {
            return None;
        }
        match self.chain.adopt_branch(&branch, producers) {
            Ok(true) => {
                self.unpark(&branch);
                Some(branch)
            },
            _ => None,
        }
    }

    /// Switches to a branch if it wins; whether it did.
    pub fn switch_if_better(&mut self, blocks: &Vec<Block>, producers: &Vec<Vec<PublicKey>>) -> (won: bool)
        requires
            old(self).wf(),
            producers@.len() >= adopt_lists(old(self)@.chain, block_models(blocks@)),
        ensures
            final(self).wf(),
            (final(self)@, won) == switched_to(old(self)@, block_models(blocks@), producer_lists(producers@)),
    {
        match self.chain.adopt_branch(blocks, producers) {
            Ok(b) => b,
            Err(_) => false,
        }
    }

    /// Empties the waiting transactions: the kinds of those that the chain
    /// refuses at first sight, and the others.
    pub fn take_candidates(&mut self) -> (r: (Vec<RejectKind>, Vec<Transaction>))
        requires
            old(self).wf(),
        ensures
            final(self).wf(),
            final(self)@ == (NodeModel { mempool: Seq::empty(), ..old(self)@ }),
            (r.0@, tx_models(r.1@)) == screened(old(self)@.chain, old(self)@.mempool),
    {
        let ghost n = self@;
        let mut pool: Vec<(TxId, Transaction)> = Vec::new();
        std::mem::swap(&mut pool, &mut self.mempool);
        assert(pool_models(self.mempool@) =~= Seq::empty());
        let ghost all = pool_models(pool@);
        assert(all == n.mempool);
        let mut kinds: Vec<RejectKind> = Vec::new();
        let mut txs: Vec<Transaction> = Vec::new();
        let mut i: usize = 0;
        proof {
            assert(all.take(0) =~= Seq::empty());
            assert(tx_models(txs@) =~= Seq::empty());
        }
        while i < pool.len()
            invariant
                self.wf(),
                self@ == (NodeModel { mempool: Seq::empty(), ..n }),
                i <= pool@.len(),
                all == pool_models(pool@),
                (kinds@, tx_models(txs@)) == screened(n.chain, all.take(i as int)),
            decreases pool@.len() - i,
        {
            proof {
                assert(all.take(i + 1).drop_last() =~= all.take(i as int));
                assert(all.take(i + 1).last() == (pool@[i as int].0@, pool@[i as int].1@));
            }
            let entry = &pool[i];
            if self.chain.is_tx_included(&entry.0) {
                kinds.push(RejectKind::TxReplay);
            } else {
                match precheck_tx(&self.chain, &entry.1) {
                    None => {
                        let ghost before = txs@;
                        txs.push(entry.1.clone());
                        assert(tx_models(txs@) =~= tx_models(before).push(entry.1@));
                    },
                    Some(e) => {
                        kinds.push(classify(&e));
                    },
                }
            }
            i += 1;
        }
        assert(all.take(i as int) =~= all);
        (kinds, txs)
    }

    /// The header of an own block with some transactions, without consensus
    /// payload, to be encoded.
    pub fn draft_header(&self, timestamp: u64, txs: &Vec<Transaction>) -> (r: Result<HeaderDraft, BlockchainError>)
        requires
            self.wf(),
            self@.chain.height() < u64::MAX,
        ensures
            match tx_root_of(tx_models(txs@)) {
                Err(e) => r == Err::<HeaderDraft, BlockchainError>(e),
                Ok(root) => {
                    &&& r is Ok
                    &&& r->Ok_0.version == self@.chain.network.protocol.version
                    &&& r->Ok_0.height == self@.chain.height() + 1
                    &&& r->Ok_0.prev_hash == self@.chain.tip
                    &&& r->Ok_0.tx_root == root
                    &&& r->Ok_0.timestamp == timestamp
                    &&& r->Ok_0.consensus@ == Seq::<u8>::empty()
                },
            },
    {
        let limits = self.chain.network().protocol;
        BlockBuilder::after(self.chain.height(), self.chain.tip_hash(), limits).with_timestamp(timestamp).with_txs(
            copy_txs(txs),
        ).draft()
    }

    /// The consensus payload of an own block, over the encoding of its header
    /// without payload.
    pub fn own_payload(&self, signing_encoding: &Encoded) -> (r: Result<Vec<u8>, BlockchainError>)
        requires
            self.wf(),
        ensures
            match header_digest(signing_encoding@) {
                Err(e) => r == Err::<Vec<u8>, BlockchainError>(BlockchainError::Protocol(e)),
                Ok(h) => r is Ok && r->Ok_0@ == BLOCK_SIGN_TAG@ + ed25519_public(self@.seed) + ed25519_signature(
                    self@.seed,
                    producer_message(h),
                ),
            },
    {
        match encoded_header_hash(signing_encoding) {
            Err(e) => Err(BlockchainError::Protocol(e)),
            Ok(h) => {
                let signature = sign_block_hash(&self.key, &h);
                Ok(encode_producer_payload(&self.pk, &signature))
            },
        }
    }

    /// Builds an own block on the tip and pushes it.
    pub fn attempt_block(
        &mut self,
        timestamp: u64,
        txs: &Vec<Transaction>,
        signing_encoding: &Encoded,
        encoding: &Encoded,
        producers: &Vec<PublicKey>,
    ) -> (outcome: Attempt)
        requires
            old(self).wf(),
        ensures
            final(self).wf(),
            (final(self)@, outcome@) == attempted(
                old(self)@,
                timestamp,
                tx_models(txs@),
                signing_encoding@,
                encoding@,
                producers@,
            ),
    {
        if self.chain.height() == u64::MAX {
            return Attempt::NotBuilt(RejectKind::Other);
        }
        let limits = self.chain.network().protocol;
        let builder = BlockBuilder::after(self.chain.height(), self.chain.tip_hash(), limits).with_timestamp(
            timestamp,
        ).with_txs(copy_txs(txs));
        let signed = match builder.with_producer(&self.key, signing_encoding) {
            Err(e) => {
                return Attempt::NotBuilt(classify(&e));
            },
            Ok(b) => b,
        };
        match signed.build(encoding.clone(), signing_encoding.clone()) {
            Err(e) => Attempt::NotBuilt(classify(&e)),
            Ok(block) => match self.chain.offer(&block, producers) {
                None => Attempt::Produced(block),
                Some(e) => Attempt::Refused(classify(&e)),
            },
        }
    }
}

} // verus!

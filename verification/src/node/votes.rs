//! How a node collects, casts and counts checkpoint votes.
//!
//! A node commits to the first content that it sees of an epoch, signs only
//! what it can check against its own chain, and finalizes only its own
//! blocks: on another branch it switches first.
use vstd::prelude::*;
use crate::chain_model::ChainModel;
use crate::crypto::ed25519_signature;
use crate::entry::lemma_digest_of;
use crate::finality::Tally;
use crate::finality::checkpoint_refusal;
use crate::finality::content_fault;
use crate::finality::finalized_with;
use crate::finality::is_last;
use crate::finality::proposed;
use crate::idmap::IdMap;
use crate::ids::Digest;
use crate::ids::PublicKey;
use crate::ids::Signature;
use crate::ids::holds_member;
use crate::ids::same_id;
use crate::node::Aggregate;
use crate::node::NodeModel;
use crate::node::SimNode;
use crate::node::aggregate_models;
use crate::signer::PendingSignature;
use crate::signer::context_list;
use crate::signer::records;
use crate::signer::sign_fault;
use crate::signer::signed;
use crate::smt_model::sorted_members;
use crate::state::map_keys_ascending;
use crate::types::Checkpoint;
use crate::types::CheckpointData;
use crate::types::CheckpointModel;
use crate::types::checkpoint_models;

verus! {

/// Checkpoint contents for which a node collects signatures, at most.
pub const PENDING_CP_CAP: usize = 64;

/// A checkpoint content with some signatures.
pub struct Proposal {
    pub data: CheckpointData,
    pub signing_hash: Digest,
    pub signatures: Vec<(PublicKey, Signature)>,
}

/// A proposal as a value.
#[verifier::ext_equal]
pub struct ProposalModel {
    pub data: CheckpointData,
    pub signing_hash: Digest,
    pub signatures: Seq<(PublicKey, Signature)>,
}

impl View for Proposal {
    type V = ProposalModel;

    open spec fn view(&self) -> ProposalModel {
        ProposalModel { data: self.data, signing_hash: self.signing_hash, signatures: self.signatures@ }
    }
}

impl Clone for Proposal {
    fn clone(&self) -> (copy: Proposal)
        ensures
            copy@ == self@,
    {
        let mut signatures: Vec<(PublicKey, Signature)> = Vec::new();
        let mut i: usize = 0;
        while i < self.signatures.len()
            invariant
                i <= self.signatures@.len(),
                signatures@ =~= self.signatures@.take(i as int),
            decreases self.signatures@.len() - i,
        {
            signatures.push(self.signatures[i]);
            i += 1;
        }
        assert(signatures@ =~= self.signatures@);
        Proposal { data: self.data, signing_hash: self.signing_hash, signatures }
    }
}

/// The proposal of a finalized checkpoint.
pub open spec fn proposal_of(c: CheckpointModel) -> ProposalModel {
    ProposalModel { data: c.data, signing_hash: c.signing_hash, signatures: c.signatures }
}

/// Signatures in the order of their keys.
pub open spec fn sig_list(sigs: Map<PublicKey, Signature>) -> Seq<(PublicKey, Signature)> {
    sorted_members(sigs.dom()).map_values(|k: PublicKey| (k, sigs[k]))
}

/// Signatures with more of them; a later one of a key replaces an earlier.
pub open spec fn more_sigs(sigs: Map<PublicKey, Signature>, list: Seq<(PublicKey, Signature)>) -> Map<
    PublicKey,
    Signature,
>
    decreases list.len(),
{
    if list.len() == 0 {
        sigs
    } else {
        more_sigs(sigs, list.drop_last()).insert(list.last().0, list.last().1)
    }
}

/// What a node has collected under a content hash; nothing yet for a new
/// one.
pub open spec fn collected_at(n: NodeModel, d: CheckpointData, h: Digest) -> (
    CheckpointData,
    Map<PublicKey, Signature>,
) {
    if n.pending.contains_key(h) {
        n.pending[h]
    } else {
        (d, Map::empty())
    }
}

/// Collected contents down to the cap: those with the lowest hashes leave.
pub open spec fn capped(pending: Map<Digest, (CheckpointData, Map<PublicKey, Signature>)>) -> Map<
    Digest,
    (CheckpointData, Map<PublicKey, Signature>),
>
    decreases pending.len(),
    when pending.dom().finite()
{
    if pending.len() > PENDING_CP_CAP {
        let k = sorted_members(pending.dom())[0];
        if pending.contains_key(k) {
            capped(pending.remove(k))
        } else {
            pending
        }
    } else {
        pending
    }
}

/// Whether a checkpoint content is one that the chain can take: it keeps the
/// content rules and names the chain's own block.
pub open spec fn is_ours(m: ChainModel, d: CheckpointData) -> bool {
    &&& content_fault(m, d) is None
    &&& m.known.contains_key(d.height)
    &&& m.known[d.height] == d.block_hash
}

/// Whether a checkpoint content is among the finalized ones in memory.
pub open spec fn is_finalized(m: ChainModel, d: CheckpointData) -> bool {
    exists|i: int| 0 <= i < m.checkpoints.len() && (#[trigger] m.checkpoints[i]).data == d
}

/// The node after it merged the signatures of a proposal, and the merged
/// proposal if anything was new.
pub open spec fn merged(n: NodeModel, p: ProposalModel) -> (NodeModel, Option<ProposalModel>) {
    if is_finalized(n.chain, p.data) || !is_ours(n.chain, p.data) {
        (n, None)
    } else {
        let (d, before) = collected_at(n, p.data, p.signing_hash);
        let after = more_sigs(before, p.signatures);
        let pending = capped(n.pending.insert(p.signing_hash, (d, after)));
        let news = if pending.contains_key(p.signing_hash) && after.len() != before.len() {
            Some(ProposalModel { data: d, signing_hash: p.signing_hash, signatures: sig_list(after) })
        } else {
            None
        };
        (NodeModel { pending, ..n }, news)
    }
}

/// The node after it saw a content of an epoch, and whether that is the one
/// that it committed to.
pub open spec fn committed(n: NodeModel, epoch: u64, h: Digest) -> (NodeModel, bool) {
    if n.epoch_committed.contains_key(epoch) {
        (n, n.epoch_committed[epoch] == h)
    } else {
        (NodeModel { epoch_committed: n.epoch_committed.insert(epoch, h), ..n }, true)
    }
}

/// What a node does about a vote.
pub enum Ballot {
    /// It does not vote.
    Abstain,
    /// It committed to another content of the epoch.
    Conflict,
    /// Its guard refused.
    Refused,
    /// It signed. The signature is withheld until the guard's state is
    /// stored.
    Signed(PendingSignature),
}

/// A ballot as a value: the withheld signature and the state to store.
pub enum BallotModel {
    Abstain,
    Conflict,
    Refused,
    Signed(Seq<u8>, Seq<u8>),
}

impl View for Ballot {
    type V = BallotModel;

    open spec fn view(&self) -> BallotModel {
        match self {
            Ballot::Abstain => BallotModel::Abstain,
            Ballot::Conflict => BallotModel::Conflict,
            Ballot::Refused => BallotModel::Refused,
            Ballot::Signed(p) => BallotModel::Signed(p.withheld(), p.to_store()),
        }
    }
}

/// The node after it signed a content through its guard, and its ballot.
pub open spec fn balloted(n: NodeModel, d: CheckpointData, h: Digest) -> (NodeModel, BallotModel) {
    if n.signed_cps.contains(h) {
        (n, BallotModel::Abstain)
    } else if sign_fault(n.guard, n.pk, d.epoch, h) is Some {
        (n, BallotModel::Refused)
    } else {
        let g = signed(n.guard, n.pk, d, h);
        (
            NodeModel { guard: g, ..n },
            BallotModel::Signed(ed25519_signature(n.seed, h@), records(context_list(g.last))),
        )
    }
}

/// The node after a proposal reached it, and its ballot. It votes as a
/// member of the committee, on a proposal that another member signed and
/// that its own chain can take.
pub open spec fn voted(n: NodeModel, p: ProposalModel, committee: Seq<PublicKey>) -> (NodeModel, BallotModel) {
    if !n.alive {
        (n, BallotModel::Abstain)
    } else {
        let (c, ours) = committed(n, p.data.epoch, p.signing_hash);
        if !ours {
            (c, BallotModel::Conflict)
        } else if !is_ours(c.chain, p.data) || committee.len() < c.chain.network.protocol.min_finality_committee
            || !committee.contains(c.pk) || !has_signer(p.signatures, committee) {
            (c, BallotModel::Abstain)
        } else {
            balloted(c, p.data, p.signing_hash)
        }
    }
}

/// Whether one of some keys is among the signers.
pub open spec fn has_signer(signatures: Seq<(PublicKey, Signature)>, keys: Seq<PublicKey>) -> bool {
    exists|i: int| 0 <= i < signatures.len() && keys.contains((#[trigger] signatures[i]).0)
}

/// Whether a height is one at which checkpoints are proposed.
pub open spec fn is_anchor_height(height: u64, interval: u64) -> bool {
    if interval == 0 {
        height == 0
    } else {
        height % interval == 0
    }
}

/// Whether it is a node's turn to propose a checkpoint.
pub open spec fn is_anchor(n: NodeModel, interval: u64, committee: Seq<PublicKey>) -> bool {
    &&& n.alive
    &&& is_anchor_height(n.chain.height(), interval)
    &&& committee.len() >= n.chain.network.protocol.min_finality_committee
    &&& committee.len() > 0
    &&& proposed(n.chain) is Some
    &&& committee[proposed(n.chain)->0.epoch as int % committee.len() as int] == n.pk
}

/// The node after a checkpoint round, and its ballot. The designated member
/// of the committee signs the content of its tip.
pub open spec fn anchored(n: NodeModel, interval: u64, committee: Seq<PublicKey>, h: Digest) -> (
    NodeModel,
    BallotModel,
) {
    if !is_anchor(n, interval, committee) {
        (n, BallotModel::Abstain)
    } else {
        let d = proposed(n.chain)->0;
        let (c, ours) = committed(n, d.epoch, h);
        if !ours {
            (c, BallotModel::Conflict)
        } else {
            balloted(c, d, h)
        }
    }
}

/// The node after its vote is out: the content counts as signed, and its
/// signature is collected with those of the proposal.
pub open spec fn cast(n: NodeModel, p: ProposalModel, signature: Signature) -> NodeModel {
    let (d, before) = collected_at(n, p.data, p.signing_hash);
    NodeModel {
        signed_cps: n.signed_cps.insert(p.signing_hash),
        pending: n.pending.insert(p.signing_hash, (d, more_sigs(before, p.signatures).insert(n.pk, signature))),
        ..n
    }
}

/// The signatures of a list that are by some keys.
pub open spec fn picked(list: Seq<(PublicKey, Signature)>, keys: Seq<PublicKey>) -> Seq<(PublicKey, Signature)>
    decreases list.len(),
{
    if list.len() == 0 {
        list
    } else if keys.contains(list.last().0) {
        picked(list.drop_last(), keys).push(list.last())
    } else {
        picked(list.drop_last(), keys)
    }
}

/// The signatures by some keys, in the order of the keys.
pub open spec fn sigs_of(sigs: Map<PublicKey, Signature>, keys: Seq<PublicKey>) -> Seq<(PublicKey, Signature)> {
    picked(sig_list(sigs), keys)
}

/// What a node does about a collected content.
pub enum Count {
    /// It stays, or has left.
    Pass,
    /// A quorum of the committee signed it: to be finalized.
    Quorum(Proposal),
}

/// A count as a value.
pub enum CountModel {
    Pass,
    Quorum(ProposalModel),
}

impl View for Count {
    type V = CountModel;

    open spec fn view(&self) -> CountModel {
        match self {
            Count::Pass => CountModel::Pass,
            Count::Quorum(p) => CountModel::Quorum(p@),
        }
    }
}

/// The node after it counted the signatures of a collected content, and the
/// outcome. A content that the chain can no longer take leaves; one of
/// another branch stays, for the chain may switch to it.
pub open spec fn counted_votes(n: NodeModel, h: Digest, committee: Seq<PublicKey>, quorum: usize) -> (
    NodeModel,
    CountModel,
) {
    let dropped = NodeModel { pending: n.pending.remove(h), ..n };
    if !n.pending.contains_key(h) {
        (n, CountModel::Pass)
    } else {
        let (d, sigs) = n.pending[h];
        if content_fault(n.chain, d) is Some {
            (dropped, CountModel::Pass)
        } else if !is_ours(n.chain, d) {
            (n, CountModel::Pass)
        } else if committee.len() < n.chain.network.protocol.min_finality_committee {
            (dropped, CountModel::Pass)
        } else if sigs_of(sigs, committee).len() < quorum {
            (n, CountModel::Pass)
        } else {
            (
                n,
                CountModel::Quorum(
                    ProposalModel { data: d, signing_hash: h, signatures: sigs_of(sigs, committee) },
                ),
            )
        }
    }
}

/// The node after it offered a checkpoint to its chain, and whether the
/// chain took it. Either way the content is no longer collected.
pub open spec fn sealed(n: NodeModel, cp: CheckpointModel, tally: Tally, next_seed: Digest) -> (NodeModel, bool) {
    let pending = n.pending.remove(cp.signing_hash);
    if is_last(n.chain, cp) {
        (NodeModel { pending, ..n }, true)
    } else if checkpoint_refusal(n.chain, cp.data, tally) is Some {
        (NodeModel { pending, ..n }, false)
    } else {
        (NodeModel { chain: finalized_with(n.chain, cp, next_seed), pending, ..n }, true)
    }
}

/// Whether two checkpoint contents are the same.
pub fn same_data(a: &CheckpointData, b: &CheckpointData) -> (same: bool)
    ensures
        same == (*a == *b),
{
    a.epoch == b.epoch && a.height == b.height && a.recovery == b.recovery && same_id(&a.block_hash, &b.block_hash)
        && same_id(&a.prev_checkpoint_hash, &b.prev_checkpoint_hash) && same_id(&a.state_root, &b.state_root)
}

/// Adds signatures to a map.
fn add_sigs(sigs: &mut IdMap<Signature>, list: &Vec<(PublicKey, Signature)>)
    requires
        old(sigs).wf(),
    ensures
        final(sigs).wf(),
        final(sigs)@ == more_sigs(old(sigs)@, list@),
{
    let ghost before = sigs@;
    let mut i: usize = 0;
    assert(list@.take(0) =~= Seq::empty());
    while i < list.len()
        invariant
            sigs.wf(),
            i <= list@.len(),
            sigs@ == more_sigs(before, list@.take(i as int)),
        decreases list@.len() - i,
    {
        proof {
            assert(list@.take(i + 1).drop_last() =~= list@.take(i as int));
            assert(list@.take(i + 1).last() == list@[i as int]);
        }
        sigs.insert(list[i].0, list[i].1);
        i += 1;
    }
    assert(list@.take(i as int) =~= list@);
}

/// The signatures of a map in the order of their keys.
fn list_sigs(sigs: &IdMap<Signature>) -> (list: Vec<(PublicKey, Signature)>)
    requires
        sigs.wf(),
    ensures
        list@ == sig_list(sigs@),
{
    let n: usize = sigs.len();
    let mut list: Vec<(PublicKey, Signature)> = Vec::new();
    let mut i: usize = 0;
    let ghost items = sigs.items();
    while i < n
        invariant
            sigs.wf(),
            items == sigs.items(),
            n == items.len(),
            i <= n,
            list@ =~= items.take(i as int),
        decreases n - i,
    {
        let e = sigs.entry(i);
        list.push((e.0, e.1));
        i += 1;
    }
    proof {
        sigs.lemma_items_sorted();
        assert(list@ =~= sig_list(sigs@));
    }
    list
}

/// The signatures of a map by some keys.
fn pick_sigs(sigs: &IdMap<Signature>, keys: &Vec<PublicKey>) -> (list: Vec<(PublicKey, Signature)>)
    requires
        sigs.wf(),
    ensures
        list@ == sigs_of(sigs@, keys@),
{
    let all = list_sigs(sigs);
    let mut list: Vec<(PublicKey, Signature)> = Vec::new();
    let mut i: usize = 0;
    assert(all@.take(0) =~= Seq::empty());
    while i < all.len()
        invariant
            i <= all@.len(),
            list@ == picked(all@.take(i as int), keys@),
        decreases all@.len() - i,
    {
        proof {
            assert(all@.take(i + 1).drop_last() =~= all@.take(i as int));
            assert(all@.take(i + 1).last() == all@[i as int]);
        }
        if holds_member(keys, &all[i].0) {
            list.push(all[i]);
        }
        i += 1;
    }
    assert(all@.take(i as int) =~= all@);
    list
}

/// Whether one of some keys is among the signers.
fn any_signer(signatures: &Vec<(PublicKey, Signature)>, keys: &Vec<PublicKey>) -> (r: bool)
    ensures
        r == has_signer(signatures@, keys@),
{
    let mut i: usize = 0;
    while i < signatures.len()
        invariant
            i <= signatures@.len(),
            forall|j: int| 0 <= j < i ==> !keys@.contains((#[trigger] signatures@[j]).0),
        decreases signatures@.len() - i,
    {
        if holds_member(keys, &signatures[i].0) {
            assert(keys@.contains(signatures@[i as int].0));
            return true;
        }
        i += 1;
    }
    false
}

impl SimNode {
    /// Whether the chain can take a checkpoint content.
    fn owns(&self, d: &CheckpointData) -> (r: bool)
        requires
            self.wf(),
        ensures
            r == is_ours(self@.chain, *d),
    {
        if self.chain.check_checkpoint_data(d).is_err() {
            return false;
        }
        match self.chain.block_hash_at(d.height) {
            Some(h) => same_id(&h, &d.block_hash),
            None => false,
        }
    }

    /// Whether a content is among the finalized ones in memory.
    fn has_finalized(&self, d: &CheckpointData) -> (r: bool)
        requires
            self.wf(),
        ensures
            r == is_finalized(self@.chain, *d),
    {
        let window = self.chain.checkpoint_window();
        let mut i: usize = 0;
        while i < window.len()
            invariant
                i <= window@.len(),
                checkpoint_models(window@) == self@.chain.checkpoints,
                forall|j: int| 0 <= j < i ==> (#[trigger] self@.chain.checkpoints[j]).data != *d,
            decreases window@.len() - i,
        {
            assert(self@.chain.checkpoints[i as int] == window@[i as int]@);
            if same_data(&window[i].data, d) {
                return true;
            }
            i += 1;
        }
        false
    }

    /// What is collected under a content hash.
    fn aggregate(&self, d: &CheckpointData, h: &Digest) -> (a: Aggregate)
        requires
            self.wf(),
        ensures
            a.sigs.wf(),
            (a.data, a.sigs@) == collected_at(self@, *d, *h),
    {
        match self.pending.get(h) {
            Some(a) => Aggregate { data: a.data, sigs: a.sigs.clone() },
            None => Aggregate { data: *d, sigs: IdMap::new() },
        }
    }

    /// Drops collected contents down to the cap.
    fn cap_pending(&mut self)
        requires
            old(self).wf(),
        ensures
            final(self).wf(),
            final(self)@ == (NodeModel { pending: capped(old(self)@.pending), ..old(self)@ }),
    {
        let ghost n = self@;
        let mut size: usize = self.pending.len();
        while size > PENDING_CP_CAP
            invariant
                self.wf(),
                size == self.pending.items().len(),
                size == self.pending@.len(),
                self@ == (NodeModel { pending: self@.pending, ..n }),
                capped(self@.pending) == capped(n.pending),
            decreases size,
        {
            let ghost p = self.pending@;
            let k: Digest = self.pending.entry(0).0;
            proof {
                self.pending.lemma_items_sorted();
                self.pending.lemma_items();
                assert(aggregate_models(p).dom() =~= p.dom());
                assert(aggregate_models(p.remove(k)) =~= aggregate_models(p).remove(k));
                assert(sorted_members(p.dom())[0] == self.pending.items()[0].0);
            }
            self.pending.remove(&k);
            size = self.pending.len();
        }
        proof {
            assert(self@.pending.dom() =~= self.pending@.dom());
            self.pending.lemma_items();
        }
    }

    /// Merges the signatures of a proposal into those collected; the merged
    /// proposal, if anything was new.
    pub fn merge_checkpoint(&mut self, p: &Proposal) -> (news: Option<Proposal>)
        requires
            old(self).wf(),
        ensures
            final(self).wf(),
            ({
                let (n, m) = merged(old(self)@, p@);
                &&& final(self)@ == n
                &&& match (m, news) {
                    (None, None) => true,
                    (Some(a), Some(b)) => b@ == a,
                    _ => false,
                }
            }),
    {
        let ghost n = self@;
        if self.has_finalized(&p.data) || !self.owns(&p.data) {
            return None;
        }
        let h: Digest = p.signing_hash;
        let mut a = self.aggregate(&p.data, &h);
        let ghost before = a.sigs@;
        let old_len: usize = a.sigs.len();
        add_sigs(&mut a.sigs, &p.signatures);
        let new_len: usize = a.sigs.len();
        let list = list_sigs(&a.sigs);
        let data = a.data;
        let ghost after = a.sigs@;
        let ghost q = self.pending@;
        self.pending.insert(h, a);
        assert(aggregate_models(self.pending@) =~= aggregate_models(q).insert(h, (data, after)));
        self.cap_pending();
        let there = self.pending.contains_key(&h);
        assert(there == self@.pending.contains_key(h));
        if there && new_len != old_len {
            Some(Proposal { data, signing_hash: h, signatures: list })
        } else {
            None
        }
    }

    /// Sees a content of an epoch; whether it is the one that the node
    /// committed to, which is the first.
    pub fn commit_epoch(&mut self, epoch: u64, signing_hash: &Digest) -> (ours: bool)
        requires
            old(self).wf(),
        ensures
            final(self).wf(),
            (final(self)@, ours) == committed(old(self)@, epoch, *signing_hash),
    {
        broadcast use vstd::std_specs::hash::group_hash_axioms;

        match self.epoch_committed.get(&epoch) {
            Some(h) => same_id(h, signing_hash),
            None => {
                self.epoch_committed.insert(epoch, *signing_hash);
                true
            },
        }
    }

    /// Signs a content through the guard, unless it was signed before.
    fn sign_content(&mut self, d: &CheckpointData, signing_hash: &Digest) -> (ballot: Ballot)
        requires
            old(self).wf(),
        ensures
            final(self).wf(),
            (final(self)@, ballot@) == balloted(old(self)@, *d, *signing_hash),
    {
        if self.signed_cps.contains_key(signing_hash) {
            return Ballot::Abstain;
        }
        proof {
            lemma_digest_of(self.pk);
        }
        match self.chain.sign_checkpoint(&mut self.guard, &self.key, d, signing_hash) {
            Err(_) => Ballot::Refused,
            Ok(p) => Ballot::Signed(p),
        }
    }

    /// Votes on a proposal. `committee` is the committee elected for its
    /// recovery counter.
    pub fn checkpoint_vote(&mut self, p: &Proposal, committee: &Vec<PublicKey>) -> (ballot: Ballot)
        requires
            old(self).wf(),
        ensures
            final(self).wf(),
            (final(self)@, ballot@) == voted(old(self)@, p@, committee@),
    {
        if !self.alive {
            return Ballot::Abstain;
        }
        if !self.commit_epoch(p.data.epoch, &p.signing_hash) {
            return Ballot::Conflict;
        }
        if !self.owns(&p.data) {
            return Ballot::Abstain;
        }
        let floor: usize = self.chain.network().protocol.min_finality_committee;
        if committee.len() < floor || !holds_member(committee, &self.pk) || !any_signer(&p.signatures, committee) {
            return Ballot::Abstain;
        }
        self.sign_content(&p.data, &p.signing_hash)
    }

    /// Proposes a checkpoint of the tip, if it is the node's turn.
    /// `committee` is the committee elected for the next epoch, and
    /// `signing_hash` that of the content that the chain proposes.
    pub fn anchor_round(&mut self, interval: u64, committee: &Vec<PublicKey>, signing_hash: &Digest) -> (ballot: Ballot)
        requires
            old(self).wf(),
        ensures
            final(self).wf(),
            (final(self)@, ballot@) == anchored(old(self)@, interval, committee@, *signing_hash),
    {
        let height: u64 = self.chain.height();
        let turn = if interval == 0 { height == 0 } else { height % interval == 0 };
        if !self.alive || !turn {
            return Ballot::Abstain;
        }
        let floor: usize = self.chain.network().protocol.min_finality_committee;
        if committee.len() < floor || committee.len() == 0 {
            return Ballot::Abstain;
        }
        let data = match self.chain.propose_checkpoint() {
            None => {
                return Ballot::Abstain;
            },
            Some(d) => d,
        };
        let seat: u64 = data.epoch % (committee.len() as u64);
        if !same_id(&committee[seat as usize], &self.pk) {
            return Ballot::Abstain;
        }
        if !self.commit_epoch(data.epoch, signing_hash) {
            return Ballot::Conflict;
        }
        self.sign_content(&data, signing_hash)
    }

    /// Takes note of an own signature that is out: the content counts as
    /// signed, and the signature is collected with those of the proposal.
    /// All signatures collected.
    pub fn cast_vote(&mut self, p: &Proposal, signature: Signature) -> (all: Proposal)
        requires
            old(self).wf(),
        ensures
            final(self).wf(),
            final(self)@ == cast(old(self)@, p@, signature),
            all@ == (ProposalModel {
                signatures: sig_list(cast(old(self)@, p@, signature).pending[p@.signing_hash].1),
                ..p@
            }),
    {
        let ghost n = self@;
        let h: Digest = p.signing_hash;
        let mut a = self.aggregate(&p.data, &h);
        add_sigs(&mut a.sigs, &p.signatures);
        a.sigs.insert(self.pk, signature);
        let signatures = list_sigs(&a.sigs);
        let ghost entry = (a.data, a.sigs@);
        let ghost q = self.pending@;
        self.signed_cps.insert(h, ());
        self.pending.insert(h, a);
        proof {
            assert(aggregate_models(self.pending@) =~= aggregate_models(q).insert(h, entry));
            assert(self@.signed_cps =~= n.signed_cps.insert(h));
        }
        Proposal { data: p.data, signing_hash: h, signatures }
    }

    /// The content hashes under which signatures are collected, in order.
    pub fn pending_hashes(&self) -> (hashes: Vec<Digest>)
        requires
            self.wf(),
        ensures
            hashes@ == sorted_members(self@.pending.dom()),
    {
        assert(self@.pending.dom() =~= self.pending@.dom());
        map_keys_ascending(&self.pending)
    }

    /// The recovery counter of a collected content.
    pub fn pending_recovery(&self, h: &Digest) -> (recovery: Option<u32>)
        requires
            self.wf(),
        ensures
            recovery == (if self@.pending.contains_key(*h) {
                Some(self@.pending[*h].0.recovery)
            } else {
                None
            }),
    {
        match self.pending.get(h) {
            Some(a) => Some(a.data.recovery),
            None => None,
        }
    }

    /// Counts the signatures of a collected content. `committee` is the
    /// committee elected for its recovery counter.
    pub fn count_votes(&mut self, h: &Digest, committee: &Vec<PublicKey>, quorum: usize) -> (count: Count)
        requires
            old(self).wf(),
        ensures
            final(self).wf(),
            (final(self)@, count@) == counted_votes(old(self)@, *h, committee@, quorum),
    {
        let ghost n = self@;
        let ghost q = self.pending@;
        let a = match self.pending.get(h) {
            None => {
                return Count::Pass;
            },
            Some(a) => a,
        };
        assert(n.pending[*h] == (a.data, a.sigs@));
        assert(aggregate_models(q.remove(*h)) =~= aggregate_models(q).remove(*h));
        if self.chain.check_checkpoint_data(&a.data).is_err() {
            self.pending.remove(h);
            return Count::Pass;
        }
        if !self.owns(&a.data) {
            return Count::Pass;
        }
        let floor: usize = self.chain.network().protocol.min_finality_committee;
        if committee.len() < floor {
            self.pending.remove(h);
            return Count::Pass;
        }
        let signatures = pick_sigs(&a.sigs, committee);
        if signatures.len() < quorum {
            return Count::Pass;
        }
        Count::Quorum(Proposal { data: a.data, signing_hash: *h, signatures })
    }

    /// Offers a checkpoint to the chain; whether the chain took it.
    pub fn seal(&mut self, cp: Checkpoint, tally: Tally, next_seed: Digest) -> (taken: bool)
        requires
            old(self).wf(),
        ensures
            final(self).wf(),
            (final(self)@, taken) == sealed(old(self)@, cp@, tally, next_seed),
    {
        let h: Digest = cp.signing_hash;
        let taken = self.chain.accept_checkpoint(cp, tally, next_seed).is_ok();
        let ghost q = self.pending@;
        self.pending.remove(&h);
        assert(aggregate_models(self.pending@) =~= aggregate_models(q).remove(h));
        taken
    }
}

} // verus!

//! Checkpoint rounds of the network: proposals, votes and their count.
use vstd::prelude::*;
use crate::finality::Tally;
use crate::finality::proposed;
use crate::ids::Digest;
use crate::ids::PublicKey;
use crate::ids::Signature;
use crate::net::NetModel;
use crate::net::SimNet;
use crate::net::Task;
use crate::net::TaskModel;
use crate::net::blocks::no_tasks;
use crate::net::blocks::one_task;
use crate::net::blocks::push_task;
use crate::net::gossiped;
use crate::net::task_models;
use crate::node::NodeModel;
use crate::node::votes::Ballot;
use crate::node::votes::BallotModel;
use crate::node::votes::Count;
use crate::node::votes::CountModel;
use crate::node::votes::Proposal;
use crate::node::votes::ProposalModel;
use crate::node::votes::anchored;
use crate::node::votes::cast;
use crate::node::votes::committed;
use crate::node::votes::counted_votes;
use crate::node::votes::is_ours;
use crate::node::votes::merged;
use crate::node::votes::proposal_of;
use crate::node::votes::sealed;
use crate::node::votes::sig_list;
use crate::node::votes::voted;
use crate::rejections::RejectKind;
use crate::signer::PendingSignature;
use crate::signer::sign_fault;
use crate::smt_model::sorted_members;
use crate::transport::MsgModel;
use crate::transport::SimMsg;
use crate::transport::SimStats;
use crate::transport::add_up;
use crate::transport::plus;
use crate::types::Checkpoint;
use crate::types::CheckpointModel;

verus! {

/// The signature that bytes spell.
pub open spec fn signature_of(bytes: Seq<u8>) -> Signature {
    choose|s: Signature| s@ == bytes
}

/// The network after a proposal reached a node, and what follows: news is
/// passed on and voted on, and the votes are counted in any case.
pub open spec fn proposal_handled(s: NetModel, node: usize, p: ProposalModel) -> (NetModel, Seq<TaskModel>) {
    let (n, news) = merged(s.nodes[node as int], p);
    let t = s.with_node(node, n);
    match news {
        Some(a) => (
            gossiped(t, node, MsgModel::Checkpoint(a)),
            seq![TaskModel::Vote { node, proposal: p }, TaskModel::Finalize { node }],
        ),
        None => (t, seq![TaskModel::Finalize { node }]),
    }
}

/// The network after a node's ballot, and what follows: a signature goes out
/// once the guard's state is stored.
pub open spec fn ballot_followed(s: NetModel, node: usize, p: ProposalModel, ballot: BallotModel, alone: bool) -> (
    NetModel,
    Seq<TaskModel>,
) {
    match ballot {
        BallotModel::Abstain => (s, Seq::empty()),
        BallotModel::Conflict => (s.noting(RejectKind::CheckpointConflict), Seq::empty()),
        BallotModel::Refused => (s.noting(RejectKind::SignerRefused), Seq::empty()),
        BallotModel::Signed(signature, state) => (
            s,
            seq![TaskModel::Store { node, proposal: p, signature, state, alone }],
        ),
    }
}

/// The content that a node proposes, without signatures.
pub open spec fn own_proposal(n: NodeModel, h: Digest) -> ProposalModel {
    ProposalModel { data: proposed(n.chain)->0, signing_hash: h, signatures: Seq::empty() }
}

/// The network after a node's checkpoint round, and what follows.
pub open spec fn anchor_held(s: NetModel, node: usize, committee: Seq<PublicKey>, h: Digest) -> (
    NetModel,
    Seq<TaskModel>,
) {
    let (n, ballot) = anchored(s.nodes[node as int], s.params.sign_interval, committee, h);
    ballot_followed(s.with_node(node, n), node, own_proposal(s.nodes[node as int], h), ballot, true)
}

/// The network after a node voted on a proposal, and what follows.
pub open spec fn vote_held(s: NetModel, node: usize, p: ProposalModel, committee: Seq<PublicKey>) -> (
    NetModel,
    Seq<TaskModel>,
) {
    let (n, ballot) = voted(s.nodes[node as int], p, committee);
    ballot_followed(s.with_node(node, n), node, p, ballot, false)
}

/// The network after a guard's state was stored, or not, and what follows: a
/// stored signature is collected and passed on.
pub open spec fn vote_released(
    s: NetModel,
    node: usize,
    p: ProposalModel,
    signature: Signature,
    alone: bool,
    stored: bool,
) -> (NetModel, Seq<TaskModel>) {
    if !stored {
        (s.noting(RejectKind::SignerRefused), Seq::empty())
    } else {
        let n = cast(s.nodes[node as int], p, signature);
        let signatures = if alone {
            seq![(n.pk, signature)]
        } else {
            sig_list(n.pending[p.signing_hash].1)
        };
        (
            gossiped(s.with_node(node, n), node, MsgModel::Checkpoint(ProposalModel { signatures, ..p })),
            seq![TaskModel::Finalize { node }],
        )
    }
}

/// The task of counting the votes of some contents, if there are any.
pub open spec fn count_tasks(node: usize, hashes: Seq<Digest>) -> Seq<TaskModel> {
    if hashes.len() == 0 {
        Seq::empty()
    } else {
        seq![TaskModel::Count { node, hashes }]
    }
}

/// The network after the votes of the first of some contents were counted,
/// and what follows: a quorum is sealed, else the next is counted.
pub open spec fn votes_counted(
    s: NetModel,
    node: usize,
    hashes: Seq<Digest>,
    committee: Seq<PublicKey>,
    quorum: usize,
) -> (NetModel, Seq<TaskModel>) {
    let (n, count) = counted_votes(s.nodes[node as int], hashes[0], committee, quorum);
    let t = s.with_node(node, n);
    let rest = hashes.skip(1);
    match count {
        CountModel::Pass => (t, count_tasks(node, rest)),
        CountModel::Quorum(p) => (
            t,
            seq![
                TaskModel::Seal { node, proposal: p, committee: committee.len() as usize, quorum, hashes: rest },
            ],
        ),
    }
}

/// The network after a checkpoint was finalized on some node.
pub open spec fn finality_recorded(s: NetModel, epoch: u64, signing_hash: Digest) -> NetModel {
    NetModel {
        stats: SimStats { checkpoints_finalized: plus(s.stats.checkpoints_finalized, 1), ..s.stats },
        finalized: s.finalized.insert((epoch, signing_hash)),
        ..s
    }
}

/// The network after a node offered a checkpoint to its chain, and what
/// follows: a finalized one is recorded and passed on, else the next content
/// is counted.
pub open spec fn checkpoint_sealed(
    s: NetModel,
    node: usize,
    cp: CheckpointModel,
    tally: Tally,
    next_seed: Digest,
    hashes: Seq<Digest>,
) -> (NetModel, Seq<TaskModel>) {
    let (n, taken) = sealed(s.nodes[node as int], cp, tally, next_seed);
    let t = s.with_node(node, n);
    if taken {
        (
            gossiped(
                finality_recorded(t, cp.data.epoch, cp.signing_hash),
                node,
                MsgModel::Checkpoint(proposal_of(cp)),
            ),
            Seq::empty(),
        )
    } else {
        (t, count_tasks(node, hashes))
    }
}

/// Two contents of one epoch are never both recorded as long as every
/// finalized content of an epoch is the same.
pub proof fn law_recording_one_content_keeps_epochs_apart(s: NetModel, epoch: u64, h: Digest)
    requires
        one_content_per_epoch(s.finalized),
        forall|x: Digest| #[trigger] s.finalized.contains((epoch, x)) ==> x == h,
    ensures
        one_content_per_epoch(finality_recorded(s, epoch, h).finalized),
{
    let t = finality_recorded(s, epoch, h).finalized;
    assert forall|e: u64, a: Digest, b: Digest| #[trigger] t.contains((e, a)) && #[trigger] t.contains(
        (e, b),
    ) implies a == b by {
        if e != epoch {
            assert(s.finalized.contains((e, a)) && s.finalized.contains((e, b)));
        }
    }
}

/// Whether no epoch has two finalized contents.
pub open spec fn one_content_per_epoch(finalized: Set<(u64, Digest)>) -> bool {
    forall|e: u64, a: Digest, b: Digest| #[trigger]
        finalized.contains((e, a)) && #[trigger] finalized.contains((e, b)) ==> a == b
}

/// A node that committed to a content of an epoch abstains from or refuses
/// every other content of that epoch, as a voter and as an anchor.
pub proof fn law_no_vote_against_the_commitment(
    n: NodeModel,
    p: ProposalModel,
    committee: Seq<PublicKey>,
    interval: u64,
    h: Digest,
)
    requires
        n.epoch_committed.contains_key(p.data.epoch),
        n.epoch_committed[p.data.epoch] != p.signing_hash,
    ensures
        !(voted(n, p, committee).1 is Signed),
        proposed(n.chain) is Some && proposed(n.chain)->0.epoch == p.data.epoch && h
            != n.epoch_committed[p.data.epoch] ==> !(anchored(n, interval, committee, h).1 is Signed),
{
}

/// A commitment stays: whatever a node sees later of an epoch, the first
/// content is the one.
pub proof fn law_commitment_is_final(n: NodeModel, epoch: u64, h: Digest, again: u64, other: Digest)
    ensures
        ({
            let c = committed(n, epoch, h).0;
            let d = committed(c, again, other).0;
            c.epoch_committed.contains_key(epoch) && d.epoch_committed.contains_key(epoch)
                && d.epoch_committed[epoch] == c.epoch_committed[epoch]
        }),
{
}

/// A node signs a content only if its own chain can take it and names its own
/// block, as a member of a committee at the floor.
pub proof fn law_votes_are_for_own_blocks(n: NodeModel, p: ProposalModel, committee: Seq<PublicKey>)
    requires
        voted(n, p, committee).1 is Signed,
    ensures
        n.alive,
        is_ours(n.chain, p.data),
        committee.contains(n.pk),
        committee.len() >= n.chain.network.protocol.min_finality_committee,
        sign_fault(n.guard, n.pk, p.data.epoch, p.signing_hash) is None,
{
}

impl SimNet {
    /// Merges a proposal on a node.
    pub fn handle_checkpoint(&mut self, node: usize, proposal: Proposal) -> (tasks: Vec<Task>)
        requires
            old(self).wf(),
            node < old(self)@.nodes.len(),
        ensures
            final(self).wf(),
            (final(self)@, task_models(tasks@)) == proposal_handled(old(self)@, node, proposal@),
    {
        let ghost s = self@;
        let ghost p = proposal@;
        let news = self.nodes[node].merge_checkpoint(&proposal);
        proof {
            let n = merged(s.nodes[node as int], p).0;
            assert(self@.nodes =~= s.nodes.update(node as int, n));
            assert(self@ =~= s.with_node(node, n));
        }
        match news {
            Some(a) => {
                self.gossip(node, &SimMsg::Checkpoint(a));
                let mut tasks = one_task(Task::Vote { node, proposal });
                push_task(&mut tasks, Task::Finalize { node });
                assert(task_models(tasks@) =~= proposal_handled(s, node, p).1);
                tasks
            },
            None => one_task(Task::Finalize { node }),
        }
    }

    /// Takes a node's ballot.
    fn follow_ballot(&mut self, node: usize, proposal: Proposal, ballot: Ballot, alone: bool) -> (tasks: Vec<Task>)
        requires
            old(self).wf(),
        ensures
            final(self).wf(),
            (final(self)@, task_models(tasks@)) == ballot_followed(old(self)@, node, proposal@, ballot@, alone),
    {
        match ballot {
            Ballot::Abstain => no_tasks(),
            Ballot::Conflict => {
                self.rejections.count(RejectKind::CheckpointConflict);
                no_tasks()
            },
            Ballot::Refused => {
                self.rejections.count(RejectKind::SignerRefused);
                no_tasks()
            },
            Ballot::Signed(signature) => one_task(Task::Store { node, proposal, signature, alone }),
        }
    }

    /// Holds a node's checkpoint round. `committee` is the committee elected
    /// for the next epoch, and `signing_hash` that of the content that the
    /// node's chain proposes.
    pub fn anchor_round(&mut self, node: usize, committee: &Vec<PublicKey>, signing_hash: &Digest) -> (tasks: Vec<Task>)
        requires
            old(self).wf(),
            node < old(self)@.nodes.len(),
        ensures
            final(self).wf(),
            (final(self)@, task_models(tasks@)) == anchor_held(old(self)@, node, committee@, *signing_hash),
    {
        let ghost s = self@;
        assert(s.nodes[node as int] == self.nodes@[node as int]@);
        let interval: u64 = self.params.sign_interval;
        let data = self.nodes[node].chain().propose_checkpoint();
        let ballot = self.nodes[node].anchor_round(interval, committee, signing_hash);
        proof {
            let n = anchored(s.nodes[node as int], interval, committee@, *signing_hash).0;
            assert(self@.nodes =~= s.nodes.update(node as int, n));
            assert(self@ =~= s.with_node(node, n));
        }
        match data {
            Some(d) => {
                let proposal = Proposal { data: d, signing_hash: *signing_hash, signatures: Vec::new() };
                assert(proposal@ =~= own_proposal(s.nodes[node as int], *signing_hash));
                self.follow_ballot(node, proposal, ballot, true)
            },
            None => no_tasks(),
        }
    }

    /// Lets a node vote on a proposal. `committee` is the committee elected
    /// for its recovery counter.
    pub fn checkpoint_vote(&mut self, node: usize, proposal: Proposal, committee: &Vec<PublicKey>) -> (tasks: Vec<Task>)
        requires
            old(self).wf(),
            node < old(self)@.nodes.len(),
        ensures
            final(self).wf(),
            (final(self)@, task_models(tasks@)) == vote_held(old(self)@, node, proposal@, committee@),
    {
        let ghost s = self@;
        let ballot = self.nodes[node].checkpoint_vote(&proposal, committee);
        proof {
            let n = voted(s.nodes[node as int], proposal@, committee@).0;
            assert(self@.nodes =~= s.nodes.update(node as int, n));
            assert(self@ =~= s.with_node(node, n));
        }
        self.follow_ballot(node, proposal, ballot, false)
    }

    /// Lets a signature out once the guard's state is stored; a failure to
    /// store withholds it.
    pub fn release_vote(
        &mut self,
        node: usize,
        proposal: Proposal,
        signature: PendingSignature,
        alone: bool,
        stored: bool,
    ) -> (tasks: Vec<Task>)
        requires
            old(self).wf(),
            node < old(self)@.nodes.len(),
        ensures
            final(self).wf(),
            (final(self)@, task_models(tasks@)) == vote_released(
                old(self)@,
                node,
                proposal@,
                signature_of(signature.withheld()),
                alone,
                stored,
            ),
    {
        let ghost s = self@;
        let ghost p = proposal@;
        let ghost bytes = signature.withheld();
        let sig: Signature = match signature.release(stored) {
            Err(_) => {
                self.rejections.count(RejectKind::SignerRefused);
                return no_tasks();
            },
            Ok(sig) => sig,
        };
        proof {
            assert(signature_of(bytes)@ == sig@);
            assert(signature_of(bytes) =~= sig);
        }
        let pk = self.nodes[node].public_key();
        assert(s.nodes[node as int] == self.nodes@[node as int]@);
        let all = self.nodes[node].cast_vote(&proposal, sig);
        let ghost n = cast(s.nodes[node as int], p, sig);
        proof {
            assert(self@.nodes =~= s.nodes.update(node as int, n));
            assert(self@ =~= s.with_node(node, n));
        }
        let out = if alone {
            let mut signatures: Vec<(PublicKey, Signature)> = Vec::new();
            signatures.push((pk, sig));
            assert(signatures@ =~= seq![(pk, sig)]);
            Proposal { data: proposal.data, signing_hash: proposal.signing_hash, signatures }
        } else {
            all
        };
        self.gossip(node, &SimMsg::Checkpoint(out));
        one_task(Task::Finalize { node })
    }

    /// Starts the count of the votes that a node has collected.
    pub fn begin_finalize(&self, node: usize) -> (tasks: Vec<Task>)
        requires
            self.wf(),
            node < self@.nodes.len(),
        ensures
            task_models(tasks@) == count_tasks(node, sorted_members(self@.nodes[node as int].pending.dom())),
    {
        assert(self@.nodes[node as int] == self.nodes@[node as int]@);
        let hashes = self.nodes[node].pending_hashes();
        if hashes.len() == 0 {
            no_tasks()
        } else {
            one_task(Task::Count { node, hashes })
        }
    }

    /// Counts the votes of the first of some contents. `committee` is the
    /// committee elected for its recovery counter.
    pub fn try_finalize(&mut self, node: usize, hashes: Vec<Digest>, committee: &Vec<PublicKey>, quorum: usize) -> (
    tasks: Vec<Task>)
        requires
            old(self).wf(),
            node < old(self)@.nodes.len(),
            hashes@.len() > 0,
        ensures
            final(self).wf(),
            (final(self)@, task_models(tasks@)) == votes_counted(old(self)@, node, hashes@, committee@, quorum),
    {
        let ghost s = self@;
        let first: Digest = hashes[0];
        let count = self.nodes[node].count_votes(&first, committee, quorum);
        proof {
            let n = counted_votes(s.nodes[node as int], first, committee@, quorum).0;
            assert(self@.nodes =~= s.nodes.update(node as int, n));
            assert(self@ =~= s.with_node(node, n));
        }
        let mut head = hashes;
        let rest = head.split_off(1);
        assert(rest@ =~= hashes@.skip(1));
        match count {
            Count::Pass => {
                if rest.len() == 0 {
                    no_tasks()
                } else {
                    one_task(Task::Count { node, hashes: rest })
                }
            },
            Count::Quorum(proposal) => one_task(
                Task::Seal { node, proposal, committee: committee.len(), quorum, hashes: rest },
            ),
        }
    }

    /// Records a checkpoint that a node finalized.
    fn record_finalized(&mut self, epoch: u64, signing_hash: Digest)
        requires
            old(self).wf(),
        ensures
            final(self).wf(),
            final(self)@ == finality_recorded(old(self)@, epoch, signing_hash),
    {
        self.stats.checkpoints_finalized = add_up(self.stats.checkpoints_finalized, 1);
        self.finalized.insert(epoch, signing_hash);
    }

    /// Offers a checkpoint to a node's chain, else goes on counting. `tally`
    /// is the outcome of the signature count, and `next_seed` the seed
    /// derived from the checkpoint's hash.
    pub fn seal(
        &mut self,
        node: usize,
        checkpoint: Checkpoint,
        tally: Tally,
        next_seed: Digest,
        hashes: Vec<Digest>,
    ) -> (tasks: Vec<Task>)
        requires
            old(self).wf(),
            node < old(self)@.nodes.len(),
        ensures
            final(self).wf(),
            (final(self)@, task_models(tasks@)) == checkpoint_sealed(
                old(self)@,
                node,
                checkpoint@,
                tally,
                next_seed,
                hashes@,
            ),
    {
        let ghost s = self@;
        let ghost cp = checkpoint@;
        let copy = checkpoint.clone();
        let taken = self.nodes[node].seal(checkpoint, tally, next_seed);
        proof {
            let n = sealed(s.nodes[node as int], cp, tally, next_seed).0;
            assert(self@.nodes =~= s.nodes.update(node as int, n));
            assert(self@ =~= s.with_node(node, n));
        }
        if taken {
            let proposal = Proposal {
                data: copy.data,
                signing_hash: copy.signing_hash,
                signatures: copy.signatures,
            };
            self.record_finalized(copy.data.epoch, copy.signing_hash);
            self.gossip(node, &SimMsg::Checkpoint(proposal));
            no_tasks()
        } else if hashes.len() == 0 {
            no_tasks()
        } else {
            one_task(Task::Count { node, hashes })
        }
    }
}

} // verus!

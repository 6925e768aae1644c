//! A deterministic network of nodes on a virtual clock.
//!
//! Nothing here runs by itself. An event comes from the queue; handling it
//! changes nodes, sends messages and leaves tasks. A task may need something
//! from outside: which keys a draw elects, the hash of a checkpoint content,
//! the encoding of a header, whether a guard's state was stored. Whoever
//! drives the network gets that and hands it to the function of the task,
//! which changes the network and leaves further tasks. Tasks are carried out
//! in the order in which they are left, each with what it leaves before the
//! next.
pub mod blocks;
pub mod laws;
pub mod rounds;
pub mod runs;
pub mod votes;

use vstd::prelude::*;
use std::collections::HashMap;
use crate::chain::Blockchain;
use crate::consensus::PermissiveConsensus;
use crate::expiry::ExpiryQueue;
use crate::expiry::pairs_ascending;
use crate::ids::BlockHash;
use crate::ids::Digest;
use crate::ids::PublicKey;
use crate::ids::same_id;
use crate::net::blocks::no_tasks;
use crate::net::blocks::one_task;
use crate::net::rounds::stepped;
use crate::node::NodeModel;
use crate::node::SimNode;
use crate::node::TxOutcome;
use crate::node::crashed;
use crate::node::fresh_node;
use crate::node::received;
use crate::node::restarted_node;
use crate::node::votes::Proposal;
use crate::node::votes::ProposalModel;
use crate::rejections::RejectKind;
use crate::rejections::Rejections;
use crate::rejections::no_rejections;
use crate::rejections::tallied;
use crate::signer::PendingSignature;
use crate::signer::StoredState;
use crate::state::smt_state_root;
use crate::transport::Event;
use crate::transport::EventModel;
use crate::transport::EventQueue;
use crate::transport::MsgModel;
use crate::transport::SimMsg;
use crate::transport::SimParams;
use crate::transport::SimStats;
use crate::transport::add_up;
use crate::transport::all_fit;
use crate::transport::drawn;
use crate::transport::event_fits;
use crate::transport::is_gossip;
use crate::transport::lemma_placed_fits;
use crate::transport::no_stats;
use crate::transport::placed;
use crate::transport::plus;
use crate::transport::send_draw;
use crate::types::Block;
use crate::types::BlockModel;
use crate::types::NetworkModel;
use crate::types::NetworkParams;
use crate::types::Transaction;
use crate::types::TxModel;
use crate::types::block_models;
use crate::types::tx_models;

verus! {

/// Seconds of block time per height.
pub const BLOCK_TS_STEP: u64 = 10;

/// Blocks per reply to a request for blocks.
pub const SYNC_BATCH: u64 = 64;

/// Group of an isolated node. It reaches nobody.
pub const NO_GROUP: usize = usize::MAX;

/// Something to do next.
pub enum Task {
    /// Offer a block to a node.
    Block { node: usize, block: Block },
    /// Push the blocks of a batch from a position on, while they fit.
    SyncPush { node: usize, blocks: Vec<Block>, done: usize },
    /// Offer the rest of a batch as a branch.
    SyncAdopt { node: usize, blocks: Vec<Block> },
    /// A block became part of a node's chain.
    Progress { node: usize, block: Block },
    /// Send a message to the node's group.
    Announce { node: usize, msg: SimMsg },
    /// Hold a node's checkpoint round.
    Anchor { node: usize },
    /// Push parked blocks; so many were pushed already.
    Drain { node: usize, count: u64 },
    /// Switch to a parked branch, after so many blocks were pushed.
    Adopt { node: usize, drained: u64 },
    /// Merge a proposal.
    Checkpoint { node: usize, proposal: Proposal },
    /// Vote on a proposal.
    Vote { node: usize, proposal: Proposal },
    /// Store the guard's state, then let the signature out: alone, or with
    /// all that are collected.
    Store { node: usize, proposal: Proposal, signature: PendingSignature, alone: bool },
    /// Count the votes that a node has collected.
    Finalize { node: usize },
    /// Count the votes of some contents.
    Count { node: usize, hashes: Vec<Digest> },
    /// Finalize a content, else go on counting.
    Seal { node: usize, proposal: Proposal, committee: usize, quorum: usize, hashes: Vec<Digest> },
    /// Let a group produce a block.
    Produce { group: usize },
    /// Build a block from some transactions.
    Build { node: usize, timestamp: u64, txs: Vec<Transaction> },
    /// Let a node ask a peer for blocks.
    Sync { tick: u64, node: usize },
}

/// A task as a value.
pub enum TaskModel {
    Block { node: usize, block: BlockModel },
    SyncPush { node: usize, blocks: Seq<BlockModel>, done: usize },
    SyncAdopt { node: usize, blocks: Seq<BlockModel> },
    Progress { node: usize, block: BlockModel },
    Announce { node: usize, msg: MsgModel },
    Anchor { node: usize },
    Drain { node: usize, count: u64 },
    Adopt { node: usize, drained: u64 },
    Checkpoint { node: usize, proposal: ProposalModel },
    Vote { node: usize, proposal: ProposalModel },
    Store { node: usize, proposal: ProposalModel, signature: Seq<u8>, state: Seq<u8>, alone: bool },
    Finalize { node: usize },
    Count { node: usize, hashes: Seq<Digest> },
    Seal { node: usize, proposal: ProposalModel, committee: usize, quorum: usize, hashes: Seq<Digest> },
    Produce { group: usize },
    Build { node: usize, timestamp: u64, txs: Seq<TxModel> },
    Sync { tick: u64, node: usize },
}

impl View for Task {
    type V = TaskModel;

    open spec fn view(&self) -> TaskModel {
        match self {
            Task::Block { node, block } => TaskModel::Block { node: *node, block: block@ },
            Task::SyncPush { node, blocks, done } => TaskModel::SyncPush {
                node: *node,
                blocks: block_models(blocks@),
                done: *done,
            },
            Task::SyncAdopt { node, blocks } => TaskModel::SyncAdopt { node: *node, blocks: block_models(blocks@) },
            Task::Progress { node, block } => TaskModel::Progress { node: *node, block: block@ },
            Task::Announce { node, msg } => TaskModel::Announce { node: *node, msg: msg@ },
            Task::Anchor { node } => TaskModel::Anchor { node: *node },
            Task::Drain { node, count } => TaskModel::Drain { node: *node, count: *count },
            Task::Adopt { node, drained } => TaskModel::Adopt { node: *node, drained: *drained },
            Task::Checkpoint { node, proposal } => TaskModel::Checkpoint { node: *node, proposal: proposal@ },
            Task::Vote { node, proposal } => TaskModel::Vote { node: *node, proposal: proposal@ },
            Task::Store { node, proposal, signature, alone } => TaskModel::Store {
                node: *node,
                proposal: proposal@,
                signature: signature.withheld(),
                state: signature.to_store(),
                alone: *alone,
            },
            Task::Finalize { node } => TaskModel::Finalize { node: *node },
            Task::Count { node, hashes } => TaskModel::Count { node: *node, hashes: hashes@ },
            Task::Seal { node, proposal, committee, quorum, hashes } => TaskModel::Seal {
                node: *node,
                proposal: proposal@,
                committee: *committee,
                quorum: *quorum,
                hashes: hashes@,
            },
            Task::Produce { group } => TaskModel::Produce { group: *group },
            Task::Build { node, timestamp, txs } => TaskModel::Build {
                node: *node,
                timestamp: *timestamp,
                txs: tx_models(txs@),
            },
            Task::Sync { tick, node } => TaskModel::Sync { tick: *tick, node: *node },
        }
    }
}

/// The values of a list of tasks.
pub open spec fn task_models(tasks: Seq<Task>) -> Seq<TaskModel> {
    tasks.map_values(|t: Task| t@)
}

/// The network.
pub struct SimNet {
    params: SimParams,
    nodes: Vec<SimNode>,
    queue: EventQueue,
    logical_tick: u64,
    send_seq: u64,
    groups: Vec<usize>,
    producing: bool,
    finalized: ExpiryQueue,
    archive: HashMap<u64, Block>,
    rejections: Rejections,
    stats: SimStats,
    steps: u64,
}

/// The network as a value.
#[verifier::ext_equal]
pub struct NetModel {
    pub params: SimParams,
    pub nodes: Seq<NodeModel>,
    /// Events to come.
    pub queue: Seq<(u64, EventModel)>,
    /// The virtual time.
    pub tick: u64,
    /// Messages sent.
    pub send_seq: u64,
    /// Group of each node. Messages stay within a group.
    pub groups: Seq<usize>,
    pub producing: bool,
    /// Epochs and contents of the checkpoints finalized on any node.
    pub finalized: Set<(u64, Digest)>,
    /// Blocks that were a tip, by height: the last one of each.
    pub archive: Map<u64, BlockModel>,
    pub rejections: Map<RejectKind, usize>,
    pub stats: SimStats,
    /// Events handled.
    pub steps: u64,
}

/// The values of a list of nodes.
pub open spec fn node_models(nodes: Seq<SimNode>) -> Seq<NodeModel> {
    nodes.map_values(|n: SimNode| n@)
}

impl View for SimNet {
    type V = NetModel;

    closed spec fn view(&self) -> NetModel {
        NetModel {
            params: self.params,
            nodes: node_models(self.nodes@),
            queue: self.queue@,
            tick: self.logical_tick,
            send_seq: self.send_seq,
            groups: self.groups@,
            producing: self.producing,
            finalized: self.finalized@,
            archive: self.archive@.map_values(|b: Block| b@),
            rejections: self.rejections@,
            stats: self.stats,
            steps: self.steps,
        }
    }
}

impl NetModel {
    /// The network with another state of one node.
    pub open spec fn with_node(self, i: usize, n: NodeModel) -> NetModel {
        NetModel { nodes: self.nodes.update(i as int, n), ..self }
    }

    /// The network after a refusal was noted.
    pub open spec fn noting(self, k: RejectKind) -> NetModel {
        NetModel { rejections: tallied(self.rejections, k), ..self }
    }

    /// The network with more accepted blocks.
    pub open spec fn accepting(self, n: u64) -> NetModel {
        NetModel {
            stats: SimStats { blocks_accepted: plus(self.stats.blocks_accepted, n), ..self.stats },
            ..self
        }
    }

    /// The network after a branch switch of some blocks on a node.
    pub open spec fn switching(self, i: usize, n: u64) -> NetModel {
        let s = self.accepting(n);
        NetModel {
            stats: SimStats { reorgs: plus(s.stats.reorgs, 1), ..s.stats },
            nodes: s.nodes.update(i as int, NodeModel { stuck_rounds: 0, ..s.nodes[i as int] }),
            ..s
        }
    }
}

/// The tasks that follow when blocks became part of a node's chain.
pub open spec fn progress_tasks(node: usize, blocks: Seq<BlockModel>) -> Seq<TaskModel> {
    blocks.map_values(|b: BlockModel| TaskModel::Progress { node, block: b })
}

/// Whether a node reaches another: they are in one group, and not isolated.
pub open spec fn reaches(groups: Seq<usize>, a: usize, b: usize) -> bool {
    groups[a as int] == groups[b as int] && groups[a as int] != NO_GROUP
}

/// The network after a message was sent, or not: partitions and crashed
/// nodes stop it, chance may lose it or deliver it twice.
pub open spec fn sent(s: NetModel, from: usize, to: usize, msg: MsgModel) -> NetModel {
    if !reaches(s.groups, from, to) {
        NetModel {
            stats: SimStats { partition_dropped: plus(s.stats.partition_dropped, 1), ..s.stats },
            ..s
        }
    } else if !s.nodes[to as int].alive {
        s
    } else {
        let draw = drawn(s.params, s.send_seq);
        let out = NetModel {
            send_seq: plus(s.send_seq, 1),
            stats: SimStats { sent: plus(s.stats.sent, 1), ..s.stats },
            ..s
        };
        if draw.lost {
            NetModel { stats: SimStats { lost: plus(out.stats.lost, 1), ..out.stats }, ..out }
        } else {
            let tick = plus(s.tick, draw.latency);
            let once = NetModel {
                queue: placed(out.queue, tick, EventModel::Deliver { from, to, msg, copy: 0 }),
                ..out
            };
            if is_gossip(msg) && draw.dup {
                NetModel {
                    queue: placed(
                        once.queue,
                        plus(tick, draw.dup_delay),
                        EventModel::Deliver { from, to, msg, copy: 1 },
                    ),
                    stats: SimStats { duplicates_sent: plus(once.stats.duplicates_sent, 1), ..once.stats },
                    ..once
                }
            } else {
                once
            }
        }
    }
}

/// The network after a message was sent to the first `n` nodes of the
/// sender's group, except the sender.
pub open spec fn spread(s: NetModel, from: usize, msg: MsgModel, n: nat) -> NetModel
    decreases n,
{
    if n == 0 {
        s
    } else {
        let t = spread(s, from, msg, (n - 1) as nat);
        let to = (n - 1) as usize;
        if to != from && reaches(s.groups, from, to) {
            sent(t, from, to, msg)
        } else {
            t
        }
    }
}

/// The network after a message was sent to the sender's group.
pub open spec fn gossiped(s: NetModel, from: usize, msg: MsgModel) -> NetModel {
    spread(s, from, msg, s.nodes.len())
}

/// The network after a transaction reached a node: a new one is passed on, a
/// refusal is noted.
pub open spec fn tx_reached(s: NetModel, node: usize, t: TxModel) -> NetModel {
    let (n, outcome) = received(s.nodes[node as int], t);
    let out = s.with_node(node, n);
    match outcome {
        TxOutcome::New => gossiped(out, node, MsgModel::Tx(t)),
        TxOutcome::Duplicate => out,
        TxOutcome::Rejected(k) => out.noting(k),
    }
}

/// What sending changes: not the nodes, nor the groups, nor the parameters.
pub open spec fn only_sends(s: NetModel, t: NetModel) -> bool {
    s.nodes == t.nodes && s.groups == t.groups && s.params == t.params && s.tick == t.tick
}

/// Sending to some nodes changes no node.
proof fn lemma_spread_keeps(s: NetModel, from: usize, msg: MsgModel, n: nat)
    ensures
        only_sends(s, spread(s, from, msg, n)),
    decreases n,
{
    if n > 0 {
        lemma_spread_keeps(s, from, msg, (n - 1) as nat);
    }
}

/// Gossip changes no node: it only sends.
pub proof fn law_gossip_changes_no_node(s: NetModel, from: usize, msg: MsgModel)
    ensures
        only_sends(s, gossiped(s, from, msg)),
{
    lemma_spread_keeps(s, from, msg, s.nodes.len());
}

/// A partition drops every message between its groups, and all that an
/// isolated node sends or should get.
pub proof fn law_partition_drops_messages(s: NetModel, from: usize, to: usize, msg: MsgModel)
    requires
        s.groups[from as int] != s.groups[to as int] || s.groups[from as int] == NO_GROUP,
    ensures
        sent(s, from, to, msg).queue == s.queue,
        sent(s, from, to, msg).send_seq == s.send_seq,
{
}

/// What is delivered is delivered later: every event of a send lies behind
/// the current tick, and a second copy behind the first, as far as the clock
/// reaches.
pub proof fn law_delivery_takes_time(p: SimParams, seq: u64, tick: u64)
    requires
        p.usable(),
        tick + p.latency_ticks.1 + 8 <= u64::MAX,
    ensures
        plus(tick, drawn(p, seq).latency) > tick,
        plus(plus(tick, drawn(p, seq).latency), drawn(p, seq).dup_delay) > plus(tick, drawn(p, seq).latency),
{
}

/// The queue of a fresh network: the first production round, then the first
/// request of each of `n` nodes.
pub open spec fn first_events(n: nat) -> Seq<(u64, EventModel)>
    decreases n,
{
    if n == 0 {
        placed(Seq::empty(), 10, EventModel::ProduceRound)
    } else {
        placed(
            first_events((n - 1) as nat),
            plus(25, times_five((n - 1) as nat)),
            EventModel::Sync { node: (n - 1) as usize },
        )
    }
}

/// Five times a number, up to the largest number.
pub open spec fn times_five(n: nat) -> u64 {
    if n * 5 > u64::MAX {
        u64::MAX
    } else {
        (n * 5) as u64
    }
}

/// A network whose nodes have just started.
pub open spec fn fresh_net(params: SimParams, p: NetworkModel) -> NetModel {
    NetModel {
        params,
        nodes: Seq::new(params.nodes as nat, |i: int| fresh_node(i as usize, p, StoredState::Missing)),
        queue: first_events(params.nodes as nat),
        tick: 0,
        send_seq: 0,
        groups: Seq::new(params.nodes as nat, |i: int| 0usize),
        producing: true,
        finalized: Set::empty(),
        archive: Map::empty(),
        rejections: no_rejections(),
        stats: no_stats(),
        steps: 0,
    }
}

/// Groups of nodes after some of them were put into one group.
pub open spec fn assigned(groups: Seq<usize>, members: Seq<usize>, g: usize) -> Seq<usize>
    decreases members.len(),
{
    if members.len() == 0 {
        groups
    } else {
        assigned(groups, members.drop_last(), g).update(members.last() as int, g)
    }
}

/// Groups of `n` nodes after a partition into the given ones, in order; a
/// node in none of them is isolated.
pub open spec fn partitioned(n: nat, parts: Seq<Seq<usize>>) -> Seq<usize>
    decreases parts.len(),
{
    if parts.len() == 0 {
        Seq::new(n, |i: int| NO_GROUP)
    } else {
        assigned(partitioned(n, parts.drop_last()), parts.last(), (parts.len() - 1) as usize)
    }
}

/// The members of the parts of a partition.
pub open spec fn part_lists(parts: Seq<Vec<usize>>) -> Seq<Seq<usize>> {
    parts.map_values(|p: Vec<usize>| p@)
}

/// What two nodes agree on when they converged: height, tip and state root.
pub open spec fn summary(n: NodeModel) -> (u64, BlockHash, Digest) {
    (n.chain.height(), n.chain.tip, smt_state_root(n.chain.state.leaves))
}

/// Whether all running nodes have the same height, tip and state root.
pub open spec fn has_converged(s: NetModel) -> bool {
    forall|i: int, j: int|
        0 <= i < s.nodes.len() && 0 <= j < s.nodes.len() && (#[trigger] s.nodes[i]).alive && (
        #[trigger] s.nodes[j]).alive ==> summary(s.nodes[i]) == summary(s.nodes[j])
}

/// A fresh network has converged.
pub proof fn law_fresh_network_has_converged(params: SimParams, p: NetworkModel)
    ensures
        has_converged(fresh_net(params, p)),
{
}

/// A crashed node starts again like one that starts for the first time, but
/// for the clock and for the guard, which is the one that was stored.
pub proof fn law_restart_resumes_at_genesis(n: NodeModel, tick: u64, stored: StoredState)
    ensures
        restarted_node(crashed(n), tick, stored) == (NodeModel {
            seed: n.seed,
            pk: n.pk,
            last_progress_tick: tick,
            ..fresh_node(0, n.chain.network, stored)
        }),
{
}

impl SimNet {
    /// Every part is in order.
    pub closed spec fn wf(&self) -> bool {
        &&& self.params.usable()
        &&& self.nodes@.len() == self.params.nodes
        &&& self.groups@.len() == self.params.nodes
        &&& forall|i: int| 0 <= i < self.nodes@.len() ==> (#[trigger] self.nodes@[i]).wf()
        &&& all_fit(self.queue@, self.nodes@.len())
        &&& self.finalized.wf()
        &&& self.rejections.wf()
    }

    /// Schedules an event.
    fn schedule(&mut self, tick: u64, event: Event)
        requires
            old(self).wf(),
            event_fits(event@, old(self)@.nodes.len()),
        ensures
            final(self).wf(),
            final(self)@ == (NetModel { queue: placed(old(self)@.queue, tick, event@), ..old(self)@ }),
    {
        proof {
            lemma_placed_fits(self.queue@, tick, event@, self.nodes@.len());
        }
        self.queue.place(tick, event);
    }

    /// Sends a message.
    fn net_send(&mut self, from: usize, to: usize, msg: SimMsg)
        requires
            old(self).wf(),
            from < old(self)@.nodes.len(),
            to < old(self)@.nodes.len(),
        ensures
            final(self).wf(),
            final(self)@ == sent(old(self)@, from, to, msg@),
    {
        let ghost s = self@;
        if self.groups[from] != self.groups[to] || self.groups[from] == NO_GROUP {
            self.stats.partition_dropped = add_up(self.stats.partition_dropped, 1);
            return;
        }
        assert(s.nodes[to as int] == self.nodes@[to as int]@);
        if !self.nodes[to].is_alive() {
            return;
        }
        let draw = send_draw(&self.params, self.send_seq);
        self.send_seq = add_up(self.send_seq, 1);
        self.stats.sent = add_up(self.stats.sent, 1);
        if draw.lost {
            self.stats.lost = add_up(self.stats.lost, 1);
            return;
        }
        let tick: u64 = add_up(self.logical_tick, draw.latency);
        let twice = msg.duplicable() && draw.dup;
        if twice {
            let second = msg.clone();
            self.schedule(tick, Event::Deliver { from, to, msg, copy: 0 });
            self.stats.duplicates_sent = add_up(self.stats.duplicates_sent, 1);
            self.schedule(add_up(tick, draw.dup_delay), Event::Deliver { from, to, msg: second, copy: 1 });
        } else {
            self.schedule(tick, Event::Deliver { from, to, msg, copy: 0 });
        }
    }

    /// Sends a message to the sender's group.
    pub fn gossip(&mut self, from: usize, msg: &SimMsg)
        requires
            old(self).wf(),
            from < old(self)@.nodes.len(),
        ensures
            final(self).wf(),
            final(self)@ == gossiped(old(self)@, from, msg@),
    {
        let ghost s = self@;
        let n: usize = self.nodes.len();
        let mut to: usize = 0;
        while to < n
            invariant
                self.wf(),
                s.nodes.len() == n,
                s.groups.len() == n,
                from < n,
                to <= n,
                self@ == spread(s, from, msg@, to as nat),
                only_sends(s, self@),
            decreases n - to,
        {
            proof {
                lemma_spread_keeps(s, from, msg@, (to + 1) as nat);
            }
            if to != from && self.groups[to] == self.groups[from] && self.groups[from] != NO_GROUP {
                self.net_send(from, to, msg.clone());
            }
            to += 1;
        }
    }

    /// A transaction reaches a node.
    fn handle_tx_in(&mut self, node: usize, tx: Transaction)
        requires
            old(self).wf(),
            node < old(self)@.nodes.len(),
        ensures
            final(self).wf(),
            final(self)@ == tx_reached(old(self)@, node, tx@),
    {
        let ghost s = self@;
        let outcome = self.nodes[node].accept_tx(&tx);
        proof {
            assert(self@.nodes =~= s.nodes.update(node as int, received(s.nodes[node as int], tx@).0));
            assert(self@ =~= s.with_node(node, received(s.nodes[node as int], tx@).0));
        }
        match outcome {
            TxOutcome::New => {
                self.gossip(node, &SimMsg::Tx(tx));
            },
            TxOutcome::Duplicate => {},
            TxOutcome::Rejected(k) => {
                self.rejections.count(k);
            },
        }
    }
}

impl SimNet {
    /// A network whose nodes have just started, with a production round and
    /// requests for blocks scheduled.
    pub fn new(params: SimParams, network: NetworkParams) -> (net: SimNet)
        requires
            params.usable(),
        ensures
            net.wf(),
            net@ == fresh_net(params, network@),
    {
        broadcast use vstd::std_specs::hash::group_hash_axioms;

        let mut nodes: Vec<SimNode> = Vec::new();
        let mut groups: Vec<usize> = Vec::new();
        let mut i: usize = 0;
        while i < params.nodes
            invariant
                i <= params.nodes,
                nodes@.len() == i,
                groups@.len() == i,
                forall|j: int| 0 <= j < i ==> (#[trigger] nodes@[j]).wf(),
                forall|j: int|
                    0 <= j < i ==> (#[trigger] nodes@[j])@ == fresh_node(j as usize, network@, StoredState::Missing),
                forall|j: int| 0 <= j < i ==> groups@[j] == 0,
            decreases params.nodes - i,
        {
            nodes.push(SimNode::new(i, network.clone(), StoredState::Missing));
            groups.push(0);
            i += 1;
        }
        let mut net = SimNet {
            params,
            nodes,
            queue: EventQueue::new(),
            logical_tick: 0,
            send_seq: 0,
            groups,
            producing: true,
            finalized: ExpiryQueue::new(),
            archive: HashMap::new(),
            rejections: Rejections::new(),
            stats: SimStats::default(),
            steps: 0,
        };
        let ghost fresh = fresh_net(params, network@);
        proof {
            assert(net@.nodes =~= fresh.nodes);
            assert(net@.groups =~= fresh.groups);
            assert(net@.archive =~= fresh.archive);
        }
        net.schedule(10, Event::ProduceRound);
        let mut k: usize = 0;
        while k < params.nodes
            invariant
                net.wf(),
                k <= params.nodes,
                params.nodes == net@.nodes.len(),
                net@ == (NetModel { queue: first_events(k as nat), ..fresh }),
                fresh == fresh_net(params, network@),
            decreases params.nodes - k,
        {
            let late: u64 = if k as u64 > u64::MAX / 5 { u64::MAX } else { 5 * (k as u64) };
            net.schedule(add_up(25, late), Event::Sync { node: k });
            k += 1;
        }
        net
    }

    /// Handles the next event, if there is one; what follows.
    pub fn step(&mut self) -> (tasks: Option<Vec<Task>>)
        requires
            old(self).wf(),
        ensures
            final(self).wf(),
            match tasks {
                None => old(self)@.queue.len() == 0 && final(self)@ == old(self)@,
                Some(list) => old(self)@.queue.len() > 0 && (final(self)@, task_models(list@)) == stepped(
                    old(self)@,
                ),
            },
    {
        let ghost s = self@;
        let (tick, event) = match self.queue.pop_first() {
            None => {
                return None;
            },
            Some(e) => e,
        };
        proof {
            assert(event_fits(s.queue[0].1, s.nodes.len()));
            assert(all_fit(s.queue.skip(1), s.nodes.len())) by {
                assert forall|i: int| 0 <= i < s.queue.skip(1).len() implies event_fits(
                    (#[trigger] s.queue.skip(1)[i]).1,
                    s.nodes.len(),
                ) by {
                    assert(s.queue.skip(1)[i] == s.queue[i + 1]);
                }
            }
        }
        if event.is_real() && tick > self.logical_tick {
            self.logical_tick = tick;
        }
        self.steps = add_up(self.steps, 1);
        match event {
            Event::Deliver { from, to, msg, .. } => {
                self.stats.delivered = add_up(self.stats.delivered, 1);
                Some(self.handle_deliver(from, to, msg))
            },
            Event::ProduceRound => Some(self.produce_round(tick)),
            Event::Sync { node } => Some(one_task(Task::Sync { tick, node })),
            Event::Submit { node, tx } => {
                assert(self@.nodes[node as int] == self.nodes@[node as int]@);
                if self.nodes[node].is_alive() {
                    self.handle_tx_in(node, tx);
                }
                Some(no_tasks())
            },
        }
    }

    /// Whether the run is over: no event is left, or the clock is at the
    /// horizon.
    pub fn is_over(&self) -> (r: bool)
        ensures
            r == (self@.queue.len() == 0 || self@.tick >= self@.params.horizon),
    {
        self.queue.is_empty() || self.logical_tick >= self.params.horizon
    }

    /// Submits a transaction to a node.
    pub fn submit(&mut self, node: usize, tx: Transaction)
        requires
            old(self).wf(),
            node < old(self)@.nodes.len(),
        ensures
            final(self).wf(),
            final(self)@ == (NetModel {
                queue: placed(old(self)@.queue, old(self)@.tick, EventModel::Submit { node, tx: tx@ }),
                ..old(self)@
            }),
    {
        let tick: u64 = self.logical_tick;
        self.schedule(tick, Event::Submit { node, tx });
    }

    /// Stops production; messages and requests go on.
    pub fn stop_production(&mut self)
        requires
            old(self).wf(),
        ensures
            final(self).wf(),
            final(self)@ == (NetModel { producing: false, ..old(self)@ }),
    {
        self.producing = false;
    }

    /// Splits the network into groups. Messages between groups are dropped.
    pub fn partition(&mut self, parts: &Vec<Vec<usize>>)
        requires
            old(self).wf(),
            forall|i: int, j: int|
                0 <= i < parts@.len() && 0 <= j < parts@[i]@.len() ==> (#[trigger] parts@[i]@[j])
                    < old(self)@.nodes.len(),
        ensures
            final(self).wf(),
            final(self)@ == (NetModel {
                groups: partitioned(old(self)@.nodes.len(), part_lists(parts@)),
                ..old(self)@
            }),
    {
        let ghost s = self@;
        let n: usize = self.nodes.len();
        let mut groups: Vec<usize> = Vec::new();
        while groups.len() < n
            invariant
                groups@.len() <= n,
                forall|j: int| 0 <= j < groups@.len() ==> groups@[j] == NO_GROUP,
            decreases n - groups@.len(),
        {
            groups.push(NO_GROUP);
        }
        let ghost lists = part_lists(parts@);
        let mut g: usize = 0;
        proof {
            assert(lists.take(0) =~= Seq::empty());
            assert(groups@ =~= partitioned(n as nat, lists.take(0)));
        }
        while g < parts.len()
            invariant
                g <= parts@.len(),
                groups@.len() == n,
                lists == part_lists(parts@),
                groups@ == partitioned(n as nat, lists.take(g as int)),
                forall|i: int, j: int|
                    0 <= i < parts@.len() && 0 <= j < parts@[i]@.len() ==> (#[trigger] parts@[i]@[j]) < n,
            decreases parts@.len() - g,
        {
            let ghost before = groups@;
            let members = &parts[g];
            let mut k: usize = 0;
            assert(members@.take(0) =~= Seq::empty());
            while k < members.len()
                invariant
                    k <= members@.len(),
                    groups@.len() == n,
                    members@ == parts@[g as int]@,
                    g < parts@.len(),
                    groups@ == assigned(before, members@.take(k as int), g),
                    forall|i: int, j: int|
                        0 <= i < parts@.len() && 0 <= j < parts@[i]@.len() ==> (#[trigger] parts@[i]@[j]) < n,
                decreases members@.len() - k,
            {
                proof {
                    assert(members@.take(k + 1).drop_last() =~= members@.take(k as int));
                    assert(members@.take(k + 1).last() == parts@[g as int]@[k as int]);
                }
                groups.set(members[k], g);
                k += 1;
            }
            proof {
                assert(members@.take(k as int) =~= members@);
                assert(lists.take(g + 1).drop_last() =~= lists.take(g as int));
                assert(lists.take(g + 1).last() == members@);
            }
            g += 1;
        }
        assert(lists.take(g as int) =~= lists);
        self.groups = groups;
    }

    /// Heals every partition.
    pub fn heal(&mut self)
        requires
            old(self).wf(),
        ensures
            final(self).wf(),
            final(self)@ == (NetModel {
                groups: Seq::new(old(self)@.nodes.len(), |i: int| 0usize),
                ..old(self)@
            }),
    {
        let ghost s = self@;
        let n: usize = self.nodes.len();
        let mut groups: Vec<usize> = Vec::new();
        while groups.len() < n
            invariant
                groups@.len() <= n,
                forall|j: int| 0 <= j < groups@.len() ==> groups@[j] == 0,
            decreases n - groups@.len(),
        {
            groups.push(0);
        }
        self.groups = groups;
        assert(self@.groups =~= Seq::new(s.nodes.len(), |i: int| 0usize));
    }

    /// Crashes a node: what it held in memory is lost.
    pub fn crash(&mut self, node: usize)
        requires
            old(self).wf(),
            node < old(self)@.nodes.len(),
        ensures
            final(self).wf(),
            final(self)@ == old(self)@.with_node(node, crashed(old(self)@.nodes[node as int])),
    {
        let ghost s = self@;
        self.nodes[node].crash();
        assert(self@.nodes =~= s.nodes.update(node as int, crashed(s.nodes[node as int])));
    }

    /// Starts a node again, with the guard as it is stored.
    pub fn restart(&mut self, node: usize, stored: StoredState)
        requires
            old(self).wf(),
            node < old(self)@.nodes.len(),
        ensures
            final(self).wf(),
            final(self)@ == old(self)@.with_node(
                node,
                restarted_node(old(self)@.nodes[node as int], old(self)@.tick, stored),
            ),
    {
        let ghost s = self@;
        let tick: u64 = self.logical_tick;
        self.nodes[node].restart(tick, stored);
        assert(self@.nodes =~= s.nodes.update(node as int, restarted_node(s.nodes[node as int], s.tick, stored)));
    }

    /// The virtual time.
    pub fn logical_tick(&self) -> (tick: u64)
        ensures
            tick == self@.tick,
    {
        self.logical_tick
    }

    /// Number of nodes.
    pub fn node_count(&self) -> (n: usize)
        ensures
            n == self@.nodes.len(),
    {
        self.nodes.len()
    }

    /// A node.
    pub fn node(&self, node: usize) -> (n: &SimNode)
        requires
            self.wf(),
            node < self@.nodes.len(),
        ensures
            n.wf(),
            n@ == self@.nodes[node as int],
    {
        &self.nodes[node]
    }

    /// A node's chain.
    pub fn chain(&self, node: usize) -> (chain: &Blockchain<PermissiveConsensus>)
        requires
            self.wf(),
            node < self@.nodes.len(),
        ensures
            chain.wf(),
            chain@ == self@.nodes[node as int].chain,
    {
        self.node(node).chain()
    }

    /// Height of a node's tip.
    pub fn height(&self, node: usize) -> (h: u64)
        requires
            self.wf(),
            node < self@.nodes.len(),
        ensures
            h == self@.nodes[node as int].chain.height(),
    {
        self.chain(node).height()
    }

    /// Hash of a node's tip.
    pub fn tip(&self, node: usize) -> (h: BlockHash)
        requires
            self.wf(),
            node < self@.nodes.len(),
        ensures
            h == self@.nodes[node as int].chain.tip,
    {
        self.chain(node).tip_hash()
    }

    /// State root of a node.
    pub fn state_root(&self, node: usize) -> (root: Digest)
        requires
            self.wf(),
            node < self@.nodes.len(),
        ensures
            root == smt_state_root(self@.nodes[node as int].chain.state.leaves),
    {
        self.chain(node).state().state_root_smt()
    }

    /// Public key of a node.
    pub fn node_pk(&self, node: usize) -> (pk: PublicKey)
        requires
            self.wf(),
            node < self@.nodes.len(),
        ensures
            pk == self@.nodes[node as int].pk,
    {
        self.node(node).public_key()
    }

    /// Whether a node runs.
    pub fn alive(&self, node: usize) -> (r: bool)
        requires
            self.wf(),
            node < self@.nodes.len(),
        ensures
            r == self@.nodes[node as int].alive,
    {
        self.node(node).is_alive()
    }

    /// Epochs and contents of the checkpoints finalized on any node, in
    /// order.
    pub fn finalized_epochs(&self) -> (list: Vec<(u64, Digest)>)
        requires
            self.wf(),
        ensures
            pairs_ascending(list@),
            list@.to_set() == self@.finalized,
    {
        self.finalized.to_pairs()
    }

    /// Refusals seen on any node.
    pub fn rejections(&self) -> (r: &Rejections)
        requires
            self.wf(),
        ensures
            r.wf(),
            r@ == self@.rejections,
    {
        &self.rejections
    }

    /// Counters of the run.
    pub fn stats(&self) -> (s: SimStats)
        ensures
            s == self@.stats,
    {
        self.stats
    }

    /// Events handled.
    pub fn steps(&self) -> (n: u64)
        ensures
            n == self@.steps,
    {
        self.steps
    }

    /// Whether all running nodes have the same height, tip and state root.
    pub fn converged(&self) -> (r: bool)
        requires
            self.wf(),
        ensures
            r == has_converged(self@),
    {
        let n: usize = self.nodes.len();
        let mut first: Option<(u64, BlockHash, Digest)> = None;
        let ghost mut at: int = 0;
        let mut i: usize = 0;
        while i < n
            invariant
                self.wf(),
                n == self@.nodes.len(),
                n == self.nodes@.len(),
                i <= n,
                first matches Some(x) ==> 0 <= at < i && self@.nodes[at].alive && x == summary(self@.nodes[at]),
                first is None ==> forall|j: int| 0 <= j < i ==> !(#[trigger] self@.nodes[j]).alive,
                first matches Some(x) ==> forall|j: int|
                    0 <= j < i && (#[trigger] self@.nodes[j]).alive ==> summary(self@.nodes[j]) == x,
            decreases n - i,
        {
            assert(self@.nodes[i as int] == self.nodes@[i as int]@);
            if self.nodes[i].is_alive() {
                let chain = self.nodes[i].chain();
                let h: u64 = chain.height();
                let tip = chain.tip_hash();
                let root = chain.state().state_root_smt();
                match &first {
                    None => {
                        first = Some((h, tip, root));
                        proof {
                            at = i as int;
                        }
                    },
                    Some(x) => {
                        if x.0 != h || !same_id(&x.1, &tip) || !same_id(&x.2, &root) {
                            assert(summary(self@.nodes[i as int]) != summary(self@.nodes[at]));
                            return false;
                        }
                    },
                }
            }
            i += 1;
        }
        true
    }
}

} // verus!

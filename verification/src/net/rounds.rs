//! Rounds and events of the network: production, requests for blocks, and
//! what a delivered message leads to.
use vstd::prelude::*;
use std::collections::HashMap;
use crate::chain_model::CHECKPOINT_KEEP;
use crate::fork_model::producer_lists;
use crate::ids::PublicKey;
use crate::ids::holds_member;
use crate::ids::same_id;
use crate::net::BLOCK_TS_STEP;
use crate::net::NO_GROUP;
use crate::net::NetModel;
use crate::net::SYNC_BATCH;
use crate::net::SimNet;
use crate::net::Task;
use crate::net::TaskModel;
use crate::net::blocks::collect_held;
use crate::net::blocks::held_blocks;
use crate::net::blocks::no_tasks;
use crate::net::blocks::one_task;
use crate::net::blocks::push_task;
use crate::net::reaches;
use crate::net::sent;
use crate::net::task_models;
use crate::net::tx_reached;
use crate::node::NodeModel;
use crate::node::blocks::Attempt;
use crate::node::blocks::AttemptModel;
use crate::node::blocks::attempted;
use crate::node::blocks::screened;
use crate::node::crashed;
use crate::node::restarted_node;
use crate::node::votes::Proposal;
use crate::node::votes::ProposalModel;
use crate::node::votes::proposal_of;
use crate::parking::PARKED_CAP;
use crate::rejections::tallied_all;
use crate::signer::StoredState;
use crate::transport::Event;
use crate::transport::EventModel;
use crate::transport::MsgModel;
use crate::transport::SimMsg;
use crate::transport::SimStats;
use crate::transport::add_up;
use crate::transport::moves_clock;
use crate::transport::placed;
use crate::transport::plus;
use crate::transport::proposal_models;
use crate::types::Block;
use crate::types::BlockModel;
use crate::types::CheckpointModel;
use crate::types::Encoded;
use crate::types::ProtocolError;
use crate::types::Transaction;
use crate::types::TxModel;
use crate::types::block_models;
use crate::types::checkpoint_models;
use crate::types::tx_models;

verus! {

/// A list of groups with one more, ascending and without repetition.
pub open spec fn with_group(list: Seq<usize>, g: usize) -> Seq<usize>
    decreases list.len(),
{
    if list.len() == 0 || list.last() < g {
        list.push(g)
    } else if list.last() == g {
        list
    } else {
        with_group(list.drop_last(), g).push(list.last())
    }
}

/// The groups of the nodes, ascending and without repetition.
pub open spec fn group_list(groups: Seq<usize>) -> Seq<usize>
    decreases groups.len(),
{
    if groups.len() == 0 {
        groups
    } else {
        with_group(group_list(groups.drop_last()), groups.last())
    }
}

/// The network after a production round began, and what follows: every group
/// may produce a block.
pub open spec fn round_begun(s: NetModel, tick: u64) -> (NetModel, Seq<TaskModel>) {
    if !s.producing {
        (s, Seq::empty())
    } else {
        (
            NetModel {
                queue: placed(s.queue, plus(tick, s.params.produce_interval), EventModel::ProduceRound),
                ..s
            },
            group_list(s.groups).map_values(|g: usize| TaskModel::Produce { group: g }),
        )
    }
}

/// Whether a node of a group may produce: it runs, and either everyone may
/// or its key is among those that may.
pub open spec fn may_produce(s: NetModel, group: usize, allowed: Option<Seq<Seq<PublicKey>>>, i: int) -> bool {
    &&& 0 <= i < s.nodes.len()
    &&& s.groups[i] == group
    &&& s.nodes[i].alive
    &&& allowed matches Some(a) ==> a[i].len() == 0 || a[i].contains(s.nodes[i].pk)
}

/// Whether a node comes before another: by height, then by number.
pub open spec fn is_ahead(s: NetModel, i: int, j: int) -> bool {
    s.nodes[i].chain.height() > s.nodes[j].chain.height() || (s.nodes[i].chain.height()
        == s.nodes[j].chain.height() && i <= j)
}

/// Whether a node has the best chain of a group: it is the first of those
/// that run.
pub open spec fn is_front(s: NetModel, group: usize, i: int) -> bool {
    &&& may_produce(s, group, None, i)
    &&& forall|j: int| #[trigger] may_produce(s, group, None, j) ==> is_ahead(s, i, j)
}

/// The node with the best chain of a group, if one of them runs.
pub open spec fn front(s: NetModel, group: usize) -> Option<int> {
    if exists|i: int| is_front(s, group, i) {
        Some(choose|i: int| is_front(s, group, i))
    } else {
        None
    }
}

/// Block time of a height.
pub open spec fn block_time(height: u64) -> u64 {
    if height * BLOCK_TS_STEP > u64::MAX {
        u64::MAX
    } else {
        (height * BLOCK_TS_STEP) as u64
    }
}

/// Block time of a group's next block; none if no node of it runs.
pub open spec fn next_time(s: NetModel, group: usize) -> Option<u64> {
    match front(s, group) {
        None => None,
        Some(i) => Some(block_time(plus(s.nodes[i].chain.height(), 1))),
    }
}

/// Whether a node is the leader of a group's next height: its key is the one
/// that the rotation of the committee gives for that height, it runs, it is
/// in the group, and its chain is as high as any there.
pub open spec fn is_leader(s: NetModel, group: usize, committee: Seq<PublicKey>, top: int, i: int) -> bool {
    &&& committee.len() > 0
    &&& may_produce(s, group, None, i)
    &&& s.nodes[i].pk == committee[plus(s.nodes[top].chain.height(), 1) as int % committee.len() as int]
    &&& s.nodes[i].chain.height() == s.nodes[top].chain.height()
}

/// The leader of a group's next height, if there is one.
pub open spec fn leader(s: NetModel, group: usize, committee: Seq<PublicKey>, top: int) -> Option<int> {
    first_of(s.nodes.len(), |i: int| is_leader(s, group, committee, top, i))
}

/// The least of some numbers below a bound, if there is one.
pub open spec fn first_of(n: nat, among: spec_fn(int) -> bool) -> Option<int>
    decreases n,
{
    if n == 0 {
        None
    } else {
        match first_of((n - 1) as nat, among) {
            Some(i) => Some(i),
            None => if among(n - 1) {
                Some(n - 1)
            } else {
                None
            },
        }
    }
}

/// Whether a group has been idle for two production intervals: its best chain
/// has not moved since.
pub open spec fn idle(s: NetModel, top: int) -> bool {
    s.tick >= s.nodes[top].last_progress_tick + 2 * s.params.produce_interval
}

/// Whether a node can stand in for a leader: it runs, its key may produce by
/// its own chain, and that chain is as high as any of the group, so that its
/// block forks nothing off.
pub open spec fn can_stand_in(s: NetModel, group: usize, allowed: Seq<Seq<PublicKey>>, top: int, i: int) -> bool {
    may_produce(s, group, Some(allowed), i) && s.nodes[i].chain.height() == s.nodes[top].chain.height()
}

/// The stand-in for a leader: the first node of the group that can.
pub open spec fn stand_in(s: NetModel, group: usize, allowed: Seq<Seq<PublicKey>>, top: int) -> Option<int> {
    first_of(s.nodes.len(), |i: int| can_stand_in(s, group, allowed, top, i))
}

/// The producer of a group's next block, and whether it stands in for the
/// leader. Until the group's best chain has a finalized checkpoint the
/// producer is the first node of the network, so that there is one chain
/// only. From then on it is the leader of the height; where that one crashed,
/// lags or is cut off, a stand-in once the group has been idle.
pub open spec fn next_producer(
    s: NetModel,
    group: usize,
    committee: Seq<PublicKey>,
    allowed: Seq<Seq<PublicKey>>,
) -> Option<(int, bool)> {
    match front(s, group) {
        None => None,
        Some(top) => if s.nodes[top].chain.finalized is None {
            if may_produce(s, group, None, 0) {
                Some((0int, false))
            } else {
                None
            }
        } else {
            match leader(s, group, committee, top) {
                Some(i) => Some((i, false)),
                None => match stand_in(s, group, allowed, top) {
                    Some(i) => if idle(s, top) {
                        Some((i, true))
                    } else {
                        None
                    },
                    None => None,
                },
            }
        },
    }
}

/// The network after a group's producer set out to build a block, and what
/// follows.
pub open spec fn production_begun(
    s: NetModel,
    group: usize,
    committee: Seq<PublicKey>,
    allowed: Seq<Seq<PublicKey>>,
) -> (NetModel, Seq<TaskModel>) {
    match next_producer(s, group, committee, allowed) {
        None => (s, Seq::empty()),
        Some((i, standing_in)) => {
            let n = s.nodes[i];
            let (kinds, txs) = screened(n.chain, n.mempool);
            let node = i as usize;
            (
                NetModel {
                    rejections: tallied_all(s.rejections, kinds),
                    stats: SimStats {
                        producer_timeouts: plus(s.stats.producer_timeouts, if standing_in {
                            1
                        } else {
                            0
                        }),
                        ..s.stats
                    },
                    ..s.with_node(node, NodeModel { mempool: Seq::empty(), ..n })
                },
                seq![TaskModel::Build { node, timestamp: next_time(s, group)->0, txs }],
            )
        },
    }
}

/// The network after a node tried to build a block, and what follows: a
/// refused block is tried again without its last transaction.
pub open spec fn block_built(
    s: NetModel,
    node: usize,
    timestamp: u64,
    txs: Seq<TxModel>,
    signing: Result<Seq<u8>, ProtocolError>,
    encoding: Result<Seq<u8>, ProtocolError>,
    producers: Seq<PublicKey>,
) -> (NetModel, Seq<TaskModel>) {
    let (n, outcome) = attempted(s.nodes[node as int], timestamp, txs, signing, encoding, producers);
    let t = s.with_node(node, n);
    match outcome {
        AttemptModel::Produced(b) => {
            let u = t.accepting(1);
            (
                NetModel {
                    stats: SimStats { blocks_produced: plus(u.stats.blocks_produced, 1), ..u.stats },
                    ..u
                },
                seq![TaskModel::Progress { node, block: b }],
            )
        },
        AttemptModel::NotBuilt(k) => (t.noting(k), Seq::empty()),
        AttemptModel::Refused(k) => (
            t.noting(k),
            if txs.len() == 0 {
                Seq::empty()
            } else {
                seq![TaskModel::Build { node, timestamp, txs: txs.drop_last() }]
            },
        ),
    }
}

/// The running nodes among the first `n` that a node can ask.
pub open spec fn peers(s: NetModel, node: usize, n: nat) -> Seq<usize>
    decreases n,
{
    if n == 0 {
        Seq::empty()
    } else {
        let rest = peers(s, node, (n - 1) as nat);
        let i = (n - 1) as usize;
        if i != node && reaches(s.groups, node, i) && s.nodes[i as int].alive {
            rest.push(i)
        } else {
            rest
        }
    }
}

/// The greatest height of the running nodes among the first `n`.
pub open spec fn top_height(nodes: Seq<NodeModel>, n: nat) -> u64
    decreases n,
{
    if n == 0 {
        0
    } else {
        let rest = top_height(nodes, (n - 1) as nat);
        let m = nodes[n - 1];
        if m.alive && m.chain.height() > rest {
            m.chain.height()
        } else {
            rest
        }
    }
}

/// Rounds without a place for its parked blocks after which a node with a
/// full parking starts over.
pub const STUCK_LIMIT: u64 = 40;

/// The node as it asks for blocks. One that is stuck with a full parking
/// throws its chain away; one at the top needs no parked block.
pub open spec fn asking(n: NodeModel, tick: u64, stored: StoredState, top: spec_fn(NodeModel) -> u64) -> NodeModel {
    let counted = NodeModel { sync_counter: plus(n.sync_counter, 1), ..n };
    let kept = if counted.stuck_rounds > STUCK_LIMIT && counted.parked.len() >= PARKED_CAP {
        restarted_node(crashed(counted), tick, stored)
    } else {
        counted
    };
    let cleared = if kept.chain.height() >= top(kept) {
        NodeModel { parked: Map::empty(), ..kept }
    } else {
        kept
    };
    if cleared.parked.len() == 0 {
        NodeModel { stuck_rounds: 0, ..cleared }
    } else {
        NodeModel { stuck_rounds: plus(cleared.stuck_rounds, 1), ..cleared }
    }
}

/// The network after a node asked a peer for blocks, and every second time
/// for checkpoints too.
pub open spec fn synced(s: NetModel, tick: u64, node: usize, stored: StoredState) -> NetModel {
    let t = NetModel {
        queue: placed(s.queue, plus(tick, s.params.sync_interval), EventModel::Sync { node }),
        ..s
    };
    let n = s.nodes[node as int];
    let list = peers(s, node, s.nodes.len());
    if !n.alive || list.len() == 0 {
        t
    } else {
        let peer = list[n.sync_counter as int % list.len() as int];
        let m = asking(
            n,
            tick,
            stored,
            |x: NodeModel| top_height(s.nodes.update(node as int, x), s.nodes.len()),
        );
        let asked = sent(
            t.with_node(node, m),
            node,
            peer,
            MsgModel::GetBlocks { start: plus(n.chain.height(), 1) },
        );
        if m.sync_counter % 2 == 0 {
            sent(asked, node, peer, MsgModel::GetCheckpoints)
        } else {
            asked
        }
    }
}

/// The archived blocks at `n` heights from one on.
pub open spec fn archived(archive: Map<u64, BlockModel>, start: u64, n: nat) -> Seq<BlockModel>
    decreases n,
{
    if n == 0 {
        Seq::empty()
    } else {
        let rest = archived(archive, start, (n - 1) as nat);
        let h = (start + n - 1) as u64;
        if archive.contains_key(h) {
            rest.push(archive[h])
        } else {
            rest
        }
    }
}

/// The last height of a reply to a request for blocks.
pub open spec fn batch_end(start: u64, tip: u64) -> u64 {
    if plus(start, (SYNC_BATCH - 1) as u64) < tip {
        plus(start, (SYNC_BATCH - 1) as u64)
    } else {
        tip
    }
}

/// The blocks of a reply: from memory, or from the archive if memory has
/// gaps.
pub open spec fn reply_blocks(s: NetModel, server: usize, start: u64) -> Seq<BlockModel> {
    let m = s.nodes[server as int].chain;
    let end = batch_end(start, m.height());
    if start > end {
        Seq::empty()
    } else {
        let n = (end - start + 1) as nat;
        let held = held_blocks(m, start, n);
        if held.len() < n {
            archived(s.archive, start, n)
        } else {
            held
        }
    }
}

/// The network after a node answered a request for blocks, if it has any.
pub open spec fn blocks_served(s: NetModel, server: usize, to: usize, start: u64) -> NetModel {
    let blocks = reply_blocks(s, server, start);
    if blocks.len() == 0 {
        s
    } else {
        sent(s, server, to, MsgModel::Blocks(blocks))
    }
}

/// The network after a node answered a request for checkpoints, if it has
/// any.
pub open spec fn checkpoints_served(s: NetModel, server: usize, to: usize) -> NetModel {
    let window = s.nodes[server as int].chain.checkpoints;
    let list = if window.len() <= CHECKPOINT_KEEP {
        window
    } else {
        window.take(CHECKPOINT_KEEP as int)
    };
    if list.len() == 0 {
        s
    } else {
        sent(s, server, to, MsgModel::Checkpoints(list.map_values(|c: CheckpointModel| proposal_of(c))))
    }
}

/// The network after a message reached a node, and what follows. A node that
/// does not run takes nothing.
pub open spec fn delivered(s: NetModel, from: usize, to: usize, msg: MsgModel) -> (NetModel, Seq<TaskModel>) {
    if !s.nodes[to as int].alive {
        (s, Seq::empty())
    } else {
        match msg {
            MsgModel::Block(b) => (s, seq![TaskModel::Block { node: to, block: b }]),
            MsgModel::Tx(t) => (tx_reached(s, to, t), Seq::empty()),
            MsgModel::Checkpoint(p) => (s, seq![TaskModel::Checkpoint { node: to, proposal: p }]),
            MsgModel::GetBlocks { start } => (blocks_served(s, to, from, start), Seq::empty()),
            MsgModel::Blocks(bs) => (
                s,
                if bs.len() == 0 {
                    Seq::empty()
                } else {
                    seq![TaskModel::SyncPush { node: to, blocks: bs, done: 0 }]
                },
            ),
            MsgModel::GetCheckpoints => (checkpoints_served(s, to, from), Seq::empty()),
            MsgModel::Checkpoints(ps) => (
                s,
                ps.map_values(|p: ProposalModel| TaskModel::Checkpoint { node: to, proposal: p }),
            ),
        }
    }
}

/// The network after the next event, and what follows.
pub open spec fn stepped(s: NetModel) -> (NetModel, Seq<TaskModel>) {
    let (tick, event) = s.queue[0];
    let t = NetModel {
        queue: s.queue.skip(1),
        tick: if moves_clock(event) && tick > s.tick {
            tick
        } else {
            s.tick
        },
        steps: plus(s.steps, 1),
        ..s
    };
    match event {
        EventModel::Deliver { from, to, msg, .. } => {
            let u = NetModel { stats: SimStats { delivered: plus(t.stats.delivered, 1), ..t.stats }, ..t };
            delivered(u, from, to, msg)
        },
        EventModel::ProduceRound => round_begun(t, tick),
        EventModel::Sync { node } => (t, seq![TaskModel::Sync { tick, node }]),
        EventModel::Submit { node, tx } => (
            if t.nodes[node as int].alive {
                tx_reached(t, node, tx)
            } else {
                t
            },
            Seq::empty(),
        ),
    }
}

/// The first of some numbers is the first that is found.
proof fn lemma_first_of(i: nat, n: nat, among: spec_fn(int) -> bool)
    requires
        first_of(i, among) is None,
        among(i as int),
        i < n,
    ensures
        first_of(n, among) == Some(i as int),
    decreases n,
{
    if n > i + 1 {
        lemma_first_of(i, (n - 1) as nat, among);
    }
}

/// Where nothing is among them there is no first.
proof fn lemma_first_of_none(n: nat, among: spec_fn(int) -> bool)
    requires
        forall|i: int| 0 <= i < n ==> !(#[trigger] among(i)),
    ensures
        first_of(n, among) is None,
    decreases n,
{
    if n > 0 {
        lemma_first_of_none((n - 1) as nat, among);
    }
}

/// Inserting before the greater groups.
proof fn lemma_with_group(list: Seq<usize>, i: int, g: usize)
    requires
        0 <= i <= list.len(),
        i > 0 ==> list[i - 1] < g,
        forall|j: int| i <= j < list.len() ==> #[trigger] list[j] > g,
    ensures
        with_group(list, g) == list.insert(i, g),
    decreases list.len(),
{
    if i == list.len() {
        assert(with_group(list, g) =~= list.insert(i, g));
    } else {
        assert(list.last() == list[list.len() - 1]);
        lemma_with_group(list.drop_last(), i, g);
        assert(list.drop_last().insert(i, g).push(list.last()) =~= list.insert(i, g));
    }
}

/// A group that is there changes nothing.
proof fn lemma_has_group(list: Seq<usize>, i: int, g: usize)
    requires
        0 <= i < list.len(),
        list[i] == g,
        forall|j: int| i < j < list.len() ==> #[trigger] list[j] > g,
    ensures
        with_group(list, g) == list,
    decreases list.len(),
{
    assert(list.last() == list[list.len() - 1]);
    if i < list.len() - 1 {
        lemma_has_group(list.drop_last(), i, g);
        assert(list.drop_last().push(list.last()) =~= list);
    }
}

/// The groups of the nodes, ascending and without repetition.
fn list_groups(groups: &Vec<usize>) -> (list: Vec<usize>)
    ensures
        list@ == group_list(groups@),
{
    let mut list: Vec<usize> = Vec::new();
    let mut i: usize = 0;
    assert(groups@.take(0) =~= Seq::empty());
    while i < groups.len()
        invariant
            i <= groups@.len(),
            list@ == group_list(groups@.take(i as int)),
        decreases groups@.len() - i,
    {
        let g: usize = groups[i];
        proof {
            assert(groups@.take(i + 1).drop_last() =~= groups@.take(i as int));
            assert(groups@.take(i + 1).last() == g);
        }
        let mut k: usize = list.len();
        while k > 0 && list[k - 1] > g
            invariant
                k <= list@.len(),
                forall|j: int| k <= j < list@.len() ==> #[trigger] list@[j] > g,
            decreases k,
        {
            k -= 1;
        }
        if k > 0 && list[k - 1] == g {
            proof {
                lemma_has_group(list@, k - 1, g);
            }
        } else {
            proof {
                lemma_with_group(list@, k as int, g);
            }
            list.insert(k, g);
        }
        i += 1;
    }
    assert(groups@.take(i as int) =~= groups@);
    list
}

impl SimNet {
    /// Begins a production round.
    pub fn produce_round(&mut self, tick: u64) -> (tasks: Vec<Task>)
        requires
            old(self).wf(),
        ensures
            final(self).wf(),
            (final(self)@, task_models(tasks@)) == round_begun(old(self)@, tick),
    {
        let ghost s = self@;
        if !self.producing {
            return no_tasks();
        }
        self.schedule(add_up(tick, self.params.produce_interval), Event::ProduceRound);
        let groups = list_groups(&self.groups);
        let ghost all = group_list(s.groups).map_values(|g: usize| TaskModel::Produce { group: g });
        let mut tasks = no_tasks();
        let mut i: usize = 0;
        assert(task_models(tasks@) =~= all.take(0));
        while i < groups.len()
            invariant
                i <= groups@.len(),
                all == groups@.map_values(|g: usize| TaskModel::Produce { group: g }),
                task_models(tasks@) == all.take(i as int),
            decreases groups@.len() - i,
        {
            push_task(&mut tasks, Task::Produce { group: groups[i] });
            assert(task_models(tasks@) =~= all.take(i + 1));
            i += 1;
        }
        assert(all.take(i as int) =~= all);
        tasks
    }

    /// The node with the best chain of a group; none if no node of it runs.
    pub fn best_node(&self, group: usize) -> (node: Option<usize>)
        requires
            self.wf(),
        ensures
            match (node, front(self@, group)) {
                (Some(i), Some(j)) => i == j && is_front(self@, group, j),
                (None, None) => true,
                _ => false,
            },
    {
        let ghost s = self@;
        let n: usize = self.nodes.len();
        let mut best: Option<usize> = None;
        let mut top: u64 = 0;
        let mut i: usize = 0;
        while i < n
            invariant
                self.wf(),
                s == self@,
                n == s.nodes.len(),
                n == self.nodes@.len(),
                n == self.groups@.len(),
                i <= n,
                best matches Some(b) ==> b < i && may_produce(s, group, None, b as int) && top
                    == s.nodes[b as int].chain.height(),
                forall|j: int|
                    0 <= j < i && #[trigger] may_produce(s, group, None, j) ==> best is Some && is_ahead(
                        s,
                        best->0 as int,
                        j,
                    ),
            decreases n - i,
        {
            assert(s.nodes[i as int] == self.nodes@[i as int]@);
            if self.groups[i] == group && self.nodes[i].is_alive() {
                let height: u64 = self.nodes[i].chain().height();
                if best.is_none() || height > top {
                    best = Some(i);
                    top = height;
                }
            }
            i += 1;
        }
        proof {
            match best {
                Some(b) => {
                    assert(is_front(s, group, b as int));
                    let j = choose|j: int| is_front(s, group, j);
                    assert(may_produce(s, group, None, j));
                    assert(may_produce(s, group, None, b as int));
                },
                None => {
                    assert forall|j: int| !is_front(s, group, j) by {
                        if is_front(s, group, j) {
                            assert(may_produce(s, group, None, j));
                        }
                    }
                },
            }
        }
        best
    }

    /// The leader of a group's next height, above the chain of one of its
    /// nodes.
    fn find_leader(&self, group: usize, committee: &Vec<PublicKey>, top: usize) -> (node: Option<usize>)
        requires
            self.wf(),
            top < self@.nodes.len(),
        ensures
            match (node, leader(self@, group, committee@, top as int)) {
                (Some(i), Some(j)) => i == j && i < self@.nodes.len(),
                (None, None) => true,
                _ => false,
            },
    {
        let ghost s = self@;
        let ghost among = |i: int| is_leader(s, group, committee@, top as int, i);
        let n: usize = self.nodes.len();
        let size: usize = committee.len();
        if size == 0 {
            proof {
                lemma_first_of_none(n as nat, among);
            }
            return None;
        }
        assert(s.nodes[top as int] == self.nodes@[top as int]@);
        let height: u64 = self.nodes[top].chain().height();
        let at: u64 = add_up(height, 1) % (size as u64);
        let turn: PublicKey = committee[at as usize];
        let mut i: usize = 0;
        while i < n
            invariant
                self.wf(),
                s == self@,
                n == s.nodes.len(),
                n == self.nodes@.len(),
                n == self.groups@.len(),
                i <= n,
                committee@.len() > 0,
                height == s.nodes[top as int].chain.height(),
                turn == committee@[plus(height, 1) as int % committee@.len() as int],
                among == (|i: int| is_leader(s, group, committee@, top as int, i)),
                first_of(i as nat, among) is None,
            decreases n - i,
        {
            assert(s.nodes[i as int] == self.nodes@[i as int]@);
            let pk = self.nodes[i].public_key();
            let found = self.groups[i] == group && self.nodes[i].is_alive() && same_id(&pk, &turn)
                && self.nodes[i].chain().height() == height;
            assert(found == among(i as int));
            if found {
                proof {
                    lemma_first_of(i as nat, n as nat, among);
                }
                return Some(i);
            }
            i += 1;
        }
        None
    }

    /// The stand-in for a group's leader, above the chain of one of its nodes.
    fn find_stand_in(&self, group: usize, allowed: &Vec<Vec<PublicKey>>, top: usize) -> (node: Option<usize>)
        requires
            self.wf(),
            allowed@.len() == self@.nodes.len(),
            top < self@.nodes.len(),
        ensures
            match (node, stand_in(self@, group, producer_lists(allowed@), top as int)) {
                (Some(i), Some(j)) => i == j && i < self@.nodes.len(),
                (None, None) => true,
                _ => false,
            },
    {
        let ghost s = self@;
        let ghost lists = producer_lists(allowed@);
        let ghost among = |i: int| can_stand_in(s, group, lists, top as int, i);
        let n: usize = self.nodes.len();
        assert(s.nodes[top as int] == self.nodes@[top as int]@);
        let height: u64 = self.nodes[top].chain().height();
        let mut i: usize = 0;
        while i < n
            invariant
                self.wf(),
                s == self@,
                n == s.nodes.len(),
                n == self.nodes@.len(),
                n == self.groups@.len(),
                n == allowed@.len(),
                i <= n,
                lists == producer_lists(allowed@),
                height == s.nodes[top as int].chain.height(),
                among == (|i: int| can_stand_in(s, group, lists, top as int, i)),
                first_of(i as nat, among) is None,
            decreases n - i,
        {
            assert(s.nodes[i as int] == self.nodes@[i as int]@);
            assert(lists[i as int] == allowed@[i as int]@);
            let pk = self.nodes[i].public_key();
            let found = self.groups[i] == group && self.nodes[i].is_alive() && (allowed[i].len() == 0 || holds_member(
                &allowed[i],
                &pk,
            )) && self.nodes[i].chain().height() == height;
            assert(found == among(i as int));
            if found {
                proof {
                    lemma_first_of(i as nat, n as nat, among);
                }
                return Some(i);
            }
            i += 1;
        }
        None
    }

    /// Whether a group has been idle for two production intervals, by the
    /// chain of one of its nodes.
    fn is_idle(&self, top: usize) -> (r: bool)
        requires
            self.wf(),
            top < self@.nodes.len(),
        ensures
            r == idle(self@, top as int),
    {
        assert(self@.nodes[top as int] == self.nodes@[top as int]@);
        let since: u64 = self.nodes[top].last_progress();
        let interval: u64 = self.params.produce_interval;
        self.logical_tick >= since && (self.logical_tick - since) / 2 >= interval
    }

    /// Block time of a group's next block; none if no node of it runs.
    pub fn production_time(&self, group: usize) -> (time: Option<u64>)
        requires
            self.wf(),
        ensures
            time == next_time(self@, group),
    {
        match self.best_node(group) {
            None => None,
            Some(i) => {
                assert(self@.nodes[i as int] == self.nodes@[i as int]@);
                let next: u64 = add_up(self.nodes[i].chain().height(), 1);
                if next > u64::MAX / BLOCK_TS_STEP {
                    Some(u64::MAX)
                } else {
                    Some(next * BLOCK_TS_STEP)
                }
            },
        }
    }

    /// Sets a group's producer to build a block. `committee` is the committee
    /// elected for the next epoch by the group's best chain; `allowed` holds,
    /// for each node, the keys that may produce at the group's block time by
    /// that node's chain.
    pub fn produce(
        &mut self,
        group: usize,
        committee: &Vec<PublicKey>,
        allowed: &Vec<Vec<PublicKey>>,
    ) -> (tasks: Vec<Task>)
        requires
            old(self).wf(),
            allowed@.len() == old(self)@.nodes.len(),
        ensures
            final(self).wf(),
            (final(self)@, task_models(tasks@)) == production_begun(
                old(self)@,
                group,
                committee@,
                producer_lists(allowed@),
            ),
    {
        let ghost s = self@;
        let timestamp: u64 = match self.production_time(group) {
            None => {
                return no_tasks();
            },
            Some(t) => t,
        };
        let top: usize = match self.best_node(group) {
            None => {
                return no_tasks();
            },
            Some(i) => i,
        };
        assert(s.nodes[top as int] == self.nodes@[top as int]@);
        let mut standing_in: bool = false;
        let choice: Option<usize> = if self.nodes[top].chain().finalized().is_none() {
            assert(s.nodes[0] == self.nodes@[0]@);
            if self.groups[0] == group && self.nodes[0].is_alive() {
                Some(0)
            } else {
                None
            }
        } else {
            match self.find_leader(group, committee, top) {
                Some(i) => Some(i),
                None => {
                    standing_in = true;
                    if self.is_idle(top) {
                        self.find_stand_in(group, allowed, top)
                    } else {
                        None
                    }
                },
            }
        };
        let node: usize = match choice {
            None => {
                return no_tasks();
            },
            Some(i) => i,
        };
        assert(next_producer(s, group, committee@, producer_lists(allowed@)) == Some((node as int, standing_in)));
        self.stats.producer_timeouts = add_up(self.stats.producer_timeouts, if standing_in { 1 } else { 0 });
        assert(s.nodes[node as int] == self.nodes@[node as int]@);
        let (kinds, txs) = self.nodes[node].take_candidates();
        proof {
            let n = NodeModel { mempool: Seq::empty(), ..s.nodes[node as int] };
            assert(self@.nodes =~= s.nodes.update(node as int, n));
        }
        self.rejections.count_all(&kinds);
        one_task(Task::Build { node, timestamp, txs })
    }

    /// Lets a node build a block and push it. The encodings are those of the
    /// block's header, without and with consensus payload; `producers` are
    /// the keys that may produce it.
    pub fn build_block(
        &mut self,
        node: usize,
        timestamp: u64,
        txs: Vec<Transaction>,
        signing_encoding: &Encoded,
        encoding: &Encoded,
        producers: &Vec<PublicKey>,
    ) -> (tasks: Vec<Task>)
        requires
            old(self).wf(),
            node < old(self)@.nodes.len(),
        ensures
            final(self).wf(),
            (final(self)@, task_models(tasks@)) == block_built(
                old(self)@,
                node,
                timestamp,
                tx_models(txs@),
                signing_encoding@,
                encoding@,
                producers@,
            ),
    {
        let ghost s = self@;
        let ghost all = tx_models(txs@);
        let outcome = self.nodes[node].attempt_block(timestamp, &txs, signing_encoding, encoding, producers);
        proof {
            let n = attempted(
                s.nodes[node as int],
                timestamp,
                all,
                signing_encoding@,
                encoding@,
                producers@,
            ).0;
            assert(self@.nodes =~= s.nodes.update(node as int, n));
            assert(self@ =~= s.with_node(node, n));
        }
        match outcome {
            Attempt::Produced(block) => {
                self.stats.blocks_accepted = add_up(self.stats.blocks_accepted, 1);
                self.stats.blocks_produced = add_up(self.stats.blocks_produced, 1);
                one_task(Task::Progress { node, block })
            },
            Attempt::NotBuilt(k) => {
                self.rejections.count(k);
                no_tasks()
            },
            Attempt::Refused(k) => {
                self.rejections.count(k);
                if txs.len() == 0 {
                    no_tasks()
                } else {
                    let mut fewer = txs;
                    fewer.pop();
                    assert(tx_models(fewer@) =~= all.drop_last());
                    one_task(Task::Build { node, timestamp, txs: fewer })
                }
            },
        }
    }

    /// The running nodes that a node can ask.
    fn list_peers(&self, node: usize) -> (list: Vec<usize>)
        requires
            self.wf(),
            node < self@.nodes.len(),
        ensures
            list@ == peers(self@, node, self@.nodes.len()),
            forall|k: int| 0 <= k < list@.len() ==> #[trigger] list@[k] < self@.nodes.len(),
    {
        let n: usize = self.nodes.len();
        let mut list: Vec<usize> = Vec::new();
        let mut i: usize = 0;
        while i < n
            invariant
                self.wf(),
                n == self@.nodes.len(),
                n == self.nodes@.len(),
                n == self.groups@.len(),
                node < n,
                i <= n,
                list@ == peers(self@, node, i as nat),
                forall|k: int| 0 <= k < list@.len() ==> #[trigger] list@[k] < i,
            decreases n - i,
        {
            assert(self@.nodes[i as int] == self.nodes@[i as int]@);
            if i != node && self.groups[i] == self.groups[node] && self.groups[node] != NO_GROUP
                && self.nodes[i].is_alive() {
                list.push(i);
            }
            i += 1;
        }
        list
    }

    /// The greatest height of the running nodes.
    pub fn max_height(&self) -> (top: u64)
        requires
            self.wf(),
        ensures
            top == top_height(self@.nodes, self@.nodes.len()),
    {
        let n: usize = self.nodes.len();
        let mut top: u64 = 0;
        let mut i: usize = 0;
        while i < n
            invariant
                self.wf(),
                n == self@.nodes.len(),
                n == self.nodes@.len(),
                i <= n,
                top == top_height(self@.nodes, i as nat),
            decreases n - i,
        {
            assert(self@.nodes[i as int] == self.nodes@[i as int]@);
            if self.nodes[i].is_alive() {
                let h: u64 = self.nodes[i].chain().height();
                if h > top {
                    top = h;
                }
            }
            i += 1;
        }
        top
    }

    /// Lets a node ask a peer for blocks. `stored` is its guard's stored
    /// state, for one that has to start over.
    pub fn try_sync(&mut self, tick: u64, node: usize, stored: StoredState)
        requires
            old(self).wf(),
            node < old(self)@.nodes.len(),
        ensures
            final(self).wf(),
            final(self)@ == synced(old(self)@, tick, node, stored),
    {
        let ghost s = self@;
        self.schedule(add_up(tick, self.params.sync_interval), Event::Sync { node });
        let ghost t = self@;
        assert(s.nodes[node as int] == self.nodes@[node as int]@);
        if !self.nodes[node].is_alive() {
            return;
        }
        let list = self.list_peers(node);
        proof {
            lemma_peers_same(s, t, node, s.nodes.len());
        }
        if list.len() == 0 {
            return;
        }
        let counter: u64 = self.nodes[node].sync_count();
        let at: u64 = counter % (list.len() as u64);
        let peer: usize = list[at as usize];
        let start: u64 = add_up(self.nodes[node].chain().height(), 1);
        let ghost n0 = s.nodes[node as int];
        self.nodes[node].begin_ask(tick, stored);
        let ghost kept = self.nodes@[node as int]@;
        assert(self@.nodes =~= s.nodes.update(node as int, kept));
        let top: u64 = self.max_height();
        self.nodes[node].finish_ask(top);
        let ghost m = self.nodes@[node as int]@;
        proof {
            assert(self@.nodes =~= s.nodes.update(node as int, m));
            assert(self@ =~= t.with_node(node, m));
            let f = |x: NodeModel| top_height(s.nodes.update(node as int, x), s.nodes.len());
            assert(f(kept) == top);
            assert(m == asking(n0, tick, stored, f));
        }
        let even: bool = self.nodes[node].sync_count() % 2 == 0;
        self.net_send(node, peer, SimMsg::GetBlocks { start });
        if even {
            self.net_send(node, peer, SimMsg::GetCheckpoints);
        }
    }

    /// Answers a request for blocks.
    fn serve_blocks(&mut self, server: usize, to: usize, start: u64)
        requires
            old(self).wf(),
            server < old(self)@.nodes.len(),
            to < old(self)@.nodes.len(),
        ensures
            final(self).wf(),
            final(self)@ == blocks_served(old(self)@, server, to, start),
    {
        let ghost s = self@;
        assert(s.nodes[server as int] == self.nodes@[server as int]@);
        let tip: u64 = self.nodes[server].chain().height();
        let far: u64 = add_up(start, SYNC_BATCH - 1);
        let end: u64 = if far < tip { far } else { tip };
        if start > end {
            return;
        }
        let n: u64 = end - start + 1;
        let held = collect_held(self.nodes[server].chain(), start, n);
        assert(block_models(held@).len() == held@.len());
        let blocks = if (held.len() as u64) < n {
            collect_archived(&self.archive, start, n)
        } else {
            held
        };
        assert(block_models(blocks@) == reply_blocks(s, server, start));
        assert(block_models(blocks@).len() == blocks@.len());
        if blocks.len() == 0 {
            return;
        }
        self.net_send(server, to, SimMsg::Blocks(blocks));
    }

    /// Answers a request for checkpoints.
    fn serve_checkpoints(&mut self, server: usize, to: usize)
        requires
            old(self).wf(),
            server < old(self)@.nodes.len(),
            to < old(self)@.nodes.len(),
        ensures
            final(self).wf(),
            final(self)@ == checkpoints_served(old(self)@, server, to),
    {
        let ghost s = self@;
        assert(s.nodes[server as int] == self.nodes@[server as int]@);
        let window = self.nodes[server].chain().checkpoint_window();
        let ghost all = s.nodes[server as int].chain.checkpoints;
        let n: usize = if window.len() <= CHECKPOINT_KEEP { window.len() } else { CHECKPOINT_KEEP };
        let mut list: Vec<Proposal> = Vec::new();
        let mut i: usize = 0;
        while i < n
            invariant
                i <= n <= window@.len(),
                checkpoint_models(window@) == all,
                list@.len() == i,
                forall|j: int| 0 <= j < i ==> (#[trigger] list@[j])@ == proposal_of(all[j]),
            decreases n - i,
        {
            let c = window[i].clone();
            assert(all[i as int] == window@[i as int]@);
            list.push(Proposal { data: c.data, signing_hash: c.signing_hash, signatures: c.signatures });
            i += 1;
        }
        assert(all.len() == window@.len());
        assert(proposal_models(list@) =~= all.take(n as int).map_values(|c: CheckpointModel| proposal_of(c)));
        assert(n == window@.len() ==> all.take(n as int) =~= all);
        if list.len() == 0 {
            return;
        }
        self.net_send(server, to, SimMsg::Checkpoints(list));
    }

    /// A message reaches a node.
    pub fn handle_deliver(&mut self, from: usize, to: usize, msg: SimMsg) -> (tasks: Vec<Task>)
        requires
            old(self).wf(),
            from < old(self)@.nodes.len(),
            to < old(self)@.nodes.len(),
        ensures
            final(self).wf(),
            (final(self)@, task_models(tasks@)) == delivered(old(self)@, from, to, msg@),
    {
        assert(self@.nodes[to as int] == self.nodes@[to as int]@);
        if !self.nodes[to].is_alive() {
            return no_tasks();
        }
        match msg {
            SimMsg::Block(block) => one_task(Task::Block { node: to, block }),
            SimMsg::Tx(tx) => {
                self.handle_tx_in(to, tx);
                no_tasks()
            },
            SimMsg::Checkpoint(proposal) => one_task(Task::Checkpoint { node: to, proposal }),
            SimMsg::GetBlocks { start } => {
                self.serve_blocks(to, from, start);
                no_tasks()
            },
            SimMsg::Blocks(blocks) => {
                assert(block_models(blocks@).len() == blocks@.len());
                if blocks.len() == 0 {
                    no_tasks()
                } else {
                    one_task(Task::SyncPush { node: to, blocks, done: 0 })
                }
            },
            SimMsg::GetCheckpoints => {
                self.serve_checkpoints(to, from);
                no_tasks()
            },
            SimMsg::Checkpoints(ps) => {
                let ghost all = proposal_models(ps@).map_values(
                    |p: ProposalModel| TaskModel::Checkpoint { node: to, proposal: p },
                );
                let mut tasks = no_tasks();
                let mut i: usize = 0;
                assert(task_models(tasks@) =~= all.take(0));
                while i < ps.len()
                    invariant
                        i <= ps@.len(),
                        all == proposal_models(ps@).map_values(
                            |p: ProposalModel| TaskModel::Checkpoint { node: to, proposal: p },
                        ),
                        task_models(tasks@) == all.take(i as int),
                    decreases ps@.len() - i,
                {
                    push_task(&mut tasks, Task::Checkpoint { node: to, proposal: ps[i].clone() });
                    assert(task_models(tasks@) =~= all.take(i + 1));
                    i += 1;
                }
                assert(all.take(i as int) =~= all);
                tasks
            },
        }
    }
}

/// The archived blocks at some heights.
fn collect_archived(archive: &HashMap<u64, Block>, start: u64, n: u64) -> (blocks: Vec<Block>)
    requires
        start + n <= u64::MAX + 1,
    ensures
        block_models(blocks@) == archived(archive@.map_values(|b: Block| b@), start, n as nat),
{
    broadcast use vstd::std_specs::hash::group_hash_axioms;

    let ghost all = archive@.map_values(|b: Block| b@);
    let mut blocks: Vec<Block> = Vec::new();
    let mut i: u64 = 0;
    assert(block_models(blocks@) =~= archived(all, start, 0));
    while i < n
        invariant
            start + n <= u64::MAX + 1,
            i <= n,
            all == archive@.map_values(|b: Block| b@),
            block_models(blocks@) == archived(all, start, i as nat),
        decreases n - i,
    {
        let h: u64 = start + i;
        match archive.get(&h) {
            Some(b) => {
                let ghost before = blocks@;
                blocks.push(b.clone());
                assert(block_models(blocks@) =~= block_models(before).push(b@));
            },
            None => {},
        }
        i += 1;
    }
    blocks
}

/// The peers of a node depend on nodes and groups alone.
proof fn lemma_peers_same(s: NetModel, t: NetModel, node: usize, n: nat)
    requires
        s.nodes == t.nodes,
        s.groups == t.groups,
    ensures
        peers(s, node, n) == peers(t, node, n),
    decreases n,
{
    if n > 0 {
        lemma_peers_same(s, t, node, (n - 1) as nat);
    }
}

} // verus!

//! Whole runs of the network: what an event leads to is carried out task by
//! task, and second copies of messages leave no trace.
use vstd::prelude::*;
use crate::block_hash::hash_of_header;
use crate::chain_model::CHECKPOINT_KEEP;
use crate::finality::Tally;
use crate::ids::Digest;
use crate::ids::PublicKey;
use crate::ids::Signature;
use crate::net::NetModel;
use crate::net::TaskModel;
use crate::net::blocks::batch_adopted;
use crate::net::blocks::batch_pushed;
use crate::net::blocks::block_handled;
use crate::net::blocks::last_blocks;
use crate::net::blocks::parked_adopted;
use crate::net::blocks::parked_pushed;
use crate::net::blocks::progress_noted;
use crate::net::first_events;
use crate::net::fresh_net;
use crate::net::gossiped;
use crate::net::only_sends;
use crate::net::partitioned;
use crate::net::progress_tasks;
use crate::net::rounds::STUCK_LIMIT;
use crate::net::rounds::asking;
use crate::net::rounds::block_built;
use crate::net::rounds::can_stand_in;
use crate::net::rounds::first_of;
use crate::net::rounds::front;
use crate::net::rounds::is_ahead;
use crate::net::rounds::is_front;
use crate::net::rounds::is_leader;
use crate::net::rounds::may_produce;
use crate::net::rounds::next_producer;
use crate::net::rounds::peers;
use crate::net::rounds::production_begun;
use crate::net::rounds::reply_blocks;
use crate::net::rounds::stepped;
use crate::net::rounds::synced;
use crate::net::rounds::top_height;
use crate::net::sent;
use crate::net::spread;
use crate::net::times_five;
use crate::net::tx_reached;
use crate::net::votes::anchor_held;
use crate::net::votes::checkpoint_sealed;
use crate::net::votes::count_tasks;
use crate::net::votes::finality_recorded;
use crate::net::votes::proposal_handled;
use crate::net::votes::signature_of;
use crate::net::votes::vote_held;
use crate::net::votes::vote_released;
use crate::net::votes::votes_counted;
use crate::node::NodeModel;
use crate::node::blocks::attempted;
use crate::node::blocks::drained;
use crate::node::blocks::extended_by;
use crate::node::blocks::readopted;
use crate::node::blocks::switched_to;
use crate::node::offered;
use crate::node::progressed;
use crate::node::received;
use crate::node::settled;
use crate::node::votes::CountModel;
use crate::node::votes::ProposalModel;
use crate::node::votes::anchored;
use crate::node::votes::cast;
use crate::node::votes::counted_votes;
use crate::node::votes::merged;
use crate::node::votes::proposal_of;
use crate::node::votes::sealed;
use crate::node::votes::sig_list;
use crate::node::votes::voted;
use crate::parking::PARKED_CAP;
use crate::signer::StoredState;
use crate::smt_model::sorted_members;
use crate::transport::EventModel;
use crate::transport::MsgModel;
use crate::transport::SimParams;
use crate::transport::SimStats;
use crate::transport::all_fit;
use crate::transport::drawn;
use crate::transport::event_fits;
use crate::transport::in_order;
use crate::transport::is_gossip;
use crate::transport::law_queue_stays_in_order;
use crate::transport::lemma_placed_fits;
use crate::transport::moves_clock;
use crate::transport::placed;
use crate::transport::plus;
use crate::types::Block;
use crate::types::BlockModel;
use crate::types::CheckpointModel;
use crate::types::NetworkModel;
use crate::types::ProtocolError;
use crate::types::TxModel;

verus! {

/// What comes from outside for a task; each task takes what it needs.
pub struct Answer {
    /// The keys that may produce a block, or a committee.
    pub keys: Seq<PublicKey>,
    /// Such keys for several blocks or nodes.
    pub lists: Seq<Seq<PublicKey>>,
    /// The hash of a content to propose, or of a checkpoint.
    pub digest: Digest,
    /// The seed derived from a checkpoint's hash.
    pub seed: Digest,
    pub quorum: usize,
    pub tally: Tally,
    /// Whether a guard's state was stored.
    pub kept: bool,
    /// What is stored of a guard's state.
    pub stored: StoredState,
    /// Encodings of a header, without and with consensus payload.
    pub signing: Result<Seq<u8>, ProtocolError>,
    pub encoding: Result<Seq<u8>, ProtocolError>,
}

/// The network after a task was carried out, and what follows.
pub open spec fn performed(s: NetModel, task: TaskModel, a: Answer) -> (NetModel, Seq<TaskModel>) {
    match task {
        TaskModel::Block { node, block } => block_handled(s, node, block, a.lists),
        TaskModel::SyncPush { node, blocks, done } => batch_pushed(s, node, blocks, done, a.keys),
        TaskModel::SyncAdopt { node, blocks } => batch_adopted(s, node, blocks, a.lists),
        TaskModel::Progress { node, block } => progress_noted(s, node, block),
        TaskModel::Announce { node, msg } => (gossiped(s, node, msg), Seq::empty()),
        TaskModel::Anchor { node } => anchor_held(s, node, a.keys, a.digest),
        TaskModel::Drain { node, count } => parked_pushed(s, node, count, a.keys),
        TaskModel::Adopt { node, drained } => parked_adopted(s, node, drained, a.lists),
        TaskModel::Checkpoint { node, proposal } => proposal_handled(s, node, proposal),
        TaskModel::Vote { node, proposal } => vote_held(s, node, proposal, a.keys),
        TaskModel::Store { node, proposal, signature, state, alone } => vote_released(
            s,
            node,
            proposal,
            signature_of(signature),
            alone,
            a.kept,
        ),
        TaskModel::Finalize { node } => (
            s,
            count_tasks(node, sorted_members(s.nodes[node as int].pending.dom())),
        ),
        TaskModel::Count { node, hashes } => votes_counted(s, node, hashes, a.keys, a.quorum),
        TaskModel::Seal { node, proposal, committee, quorum, hashes } => checkpoint_sealed(
            s,
            node,
            CheckpointModel {
                data: proposal.data,
                signing_hash: proposal.signing_hash,
                signatures: proposal.signatures,
                hash: a.digest,
            },
            a.tally,
            a.seed,
            hashes,
        ),
        TaskModel::Produce { group } => production_begun(s, group, a.keys, a.lists),
        TaskModel::Build { node, timestamp, txs } => block_built(
            s,
            node,
            timestamp,
            txs,
            a.signing,
            a.encoding,
            a.keys,
        ),
        TaskModel::Sync { tick, node } => (synced(s, tick, node, a.stored), Seq::empty()),
    }
}

/// One move of a run without crashes.
pub enum Move {
    /// The next task is carried out; if there is none, the next event.
    Next(Answer),
    Submit { node: usize, tx: TxModel },
    StopProduction,
    Partition(Seq<Seq<usize>>),
    Heal,
}

/// A run: the network, the tasks that are left, and whether they come from a
/// second copy.
pub struct RunModel {
    pub net: NetModel,
    pub tasks: Seq<TaskModel>,
    pub of_copy: bool,
}

/// The run after a move.
pub open spec fn moved(r: RunModel, m: Move) -> RunModel {
    match m {
        Move::Next(a) => if r.tasks.len() > 0 {
            let (net, more) = performed(r.net, r.tasks[0], a);
            RunModel { net, tasks: more + r.tasks.skip(1), ..r }
        } else if r.net.queue.len() > 0 {
            let (net, tasks) = stepped(r.net);
            RunModel { net, tasks, of_copy: !moves_clock(r.net.queue[0].1) }
        } else {
            r
        },
        Move::Submit { node, tx } => RunModel {
            net: NetModel {
                queue: placed(r.net.queue, r.net.tick, EventModel::Submit { node, tx }),
                ..r.net
            },
            ..r
        },
        Move::StopProduction => RunModel { net: NetModel { producing: false, ..r.net }, ..r },
        Move::Partition(parts) => RunModel {
            net: NetModel { groups: partitioned(r.net.nodes.len(), parts), ..r.net },
            ..r
        },
        Move::Heal => RunModel {
            net: NetModel { groups: Seq::new(r.net.nodes.len(), |i: int| 0usize), ..r.net },
            ..r
        },
    }
}

/// The run after some moves.
pub open spec fn ran(r: RunModel, moves: Seq<Move>) -> RunModel
    decreases moves.len(),
{
    if moves.len() == 0 {
        r
    } else {
        moved(ran(r, moves.drop_last()), moves.last())
    }
}

/// A run before its first move.
pub open spec fn started(params: SimParams, p: NetworkModel) -> RunModel {
    RunModel { net: fresh_net(params, p), tasks: Seq::empty(), of_copy: false }
}

/// Whether a move handles a second copy: takes it from the queue, or carries
/// out what it leads to.
pub open spec fn handles_copy(r: RunModel, m: Move) -> bool {
    m is Next && if r.tasks.len() > 0 {
        r.of_copy
    } else {
        r.net.queue.len() > 0 && !moves_clock(r.net.queue[0].1)
    }
}

/// The moves of a run that do not handle second copies.
pub open spec fn without_copies(r: RunModel, moves: Seq<Move>) -> Seq<Move>
    decreases moves.len(),
{
    if moves.len() == 0 {
        moves
    } else {
        let rest = without_copies(r, moves.drop_last());
        if handles_copy(ran(r, moves.drop_last()), moves.last()) {
            rest
        } else {
            rest.push(moves.last())
        }
    }
}

/// The events of a queue that are no second copies.
pub open spec fn real_events(q: Seq<(u64, EventModel)>) -> Seq<(u64, EventModel)>
    decreases q.len(),
{
    if q.len() == 0 {
        q
    } else if moves_clock(q.last().1) {
        real_events(q.drop_last()).push(q.last())
    } else {
        real_events(q.drop_last())
    }
}

/// Whether a network is another one but for second copies: nodes, clock,
/// messages sent and all that is to come agree. What differs is the chance
/// of a second copy, the second copies in the queue, the counts of events,
/// deliveries and copies, and the refusals that copies met with.
pub open spec fn agrees(s: NetModel, t: NetModel) -> bool {
    &&& t.params == (SimParams { dup_permille: 0, ..s.params })
    &&& t.nodes == s.nodes
    &&& t.queue == real_events(s.queue)
    &&& t.tick == s.tick
    &&& t.send_seq == s.send_seq
    &&& t.groups == s.groups
    &&& t.producing == s.producing
    &&& t.finalized == s.finalized
    &&& t.archive == s.archive
    &&& (SimStats { delivered: 0, duplicates_sent: 0, ..t.stats }) == (SimStats {
        delivered: 0,
        duplicates_sent: 0,
        ..s.stats
    })
}

/// Whether a second copy brings nothing new where it is handled: a copied
/// transaction is not taken now where it was refused before, and a copied
/// proposal carries no signature that its receiver lacks and meets no content
/// whose votes are to be settled. Of a block nothing is asked: one that was
/// offered is known.
pub open spec fn brings_nothing(r: RunModel, m: Move) -> bool {
    handles_copy(r, m) ==> if r.tasks.len() > 0 {
        match r.tasks[0] {
            TaskModel::Checkpoint { node, proposal } => merged(r.net.nodes[node as int], proposal) == (
                r.net.nodes[node as int],
                None::<ProposalModel>,
            ),
            TaskModel::Count { node, hashes } => counted_votes(
                r.net.nodes[node as int],
                hashes[0],
                m->Next_0.keys,
                m->Next_0.quorum,
            ) == (r.net.nodes[node as int], CountModel::Pass),
            _ => true,
        }
    } else {
        match r.net.queue[0].1 {
            EventModel::Deliver { from, to, msg: MsgModel::Tx(t), copy } => !(received(
                r.net.nodes[to as int],
                t,
            ).1 is New),
            _ => true,
        }
    }
}

/// Whether a move makes no node start over, as one does that is stuck with a
/// full parking: it forgets what it has seen, as in a crash.
pub open spec fn starts_nobody_over(r: RunModel, m: Move) -> bool {
    m is Next && r.tasks.len() > 0 ==> match r.tasks[0] {
        TaskModel::Sync { tick, node } => r.net.nodes[node as int].stuck_rounds <= STUCK_LIMIT
            || r.net.nodes[node as int].parked.len() < PARKED_CAP,
        _ => true,
    }
}

/// Whether a run goes through its moves without a node that starts over, and
/// second copies bring nothing new.
pub open spec fn undisturbed(r: RunModel, moves: Seq<Move>) -> bool
    decreases moves.len(),
{
    moves.len() > 0 ==> {
        let before = ran(r, moves.drop_last());
        &&& undisturbed(r, moves.drop_last())
        &&& brings_nothing(before, moves.last())
        &&& starts_nobody_over(before, moves.last())
        &&& moves.last() matches Move::Submit { node, .. } ==> node < r.net.nodes.len()
    }
}

// ---- The queue -------------------------------------------------------------

/// A queue cut down to its real events has no greater tick.
proof fn lemma_real_below(q: Seq<(u64, EventModel)>)
    requires
        in_order(q),
    ensures
        real_events(q).len() > 0 ==> q.len() > 0 && real_events(q).last().0 <= q.last().0,
    decreases q.len(),
{
    if q.len() > 0 {
        let rest = q.drop_last();
        lemma_front_in_order(q);
        lemma_real_below(rest);
        if rest.len() > 0 {
            assert(q[rest.len() - 1].0 <= q[q.len() - 1].0);
            assert(rest.last() == q[rest.len() - 1]);
        }
    }
}

/// The front of a queue is in order.
proof fn lemma_front_in_order(q: Seq<(u64, EventModel)>)
    requires
        in_order(q),
        q.len() > 0,
    ensures
        in_order(q.drop_last()),
{
    let rest = q.drop_last();
    assert forall|i: int, j: int| 0 <= i < j < rest.len() implies (#[trigger] rest[i]).0 <= (
    #[trigger] rest[j]).0 by {
        assert(rest[i] == q[i] && rest[j] == q[j]);
    }
}

/// Placing an event and cutting a queue down to its real events can be
/// swapped; a second copy falls out again.
proof fn lemma_placed_real(q: Seq<(u64, EventModel)>, tick: u64, e: EventModel)
    requires
        in_order(q),
    ensures
        moves_clock(e) ==> real_events(placed(q, tick, e)) == placed(real_events(q), tick, e),
        !moves_clock(e) ==> real_events(placed(q, tick, e)) == real_events(q),
    decreases q.len(),
{
    if q.len() == 0 || q.last().0 <= tick {
        lemma_real_below(q);
        assert(q.push((tick, e)).drop_last() =~= q);
    } else {
        let rest = q.drop_last();
        lemma_front_in_order(q);
        lemma_placed_real(rest, tick, e);
        assert(placed(rest, tick, e).push(q.last()).drop_last() =~= placed(rest, tick, e));
        if moves_clock(q.last().1) {
            assert(real_events(rest).push(q.last()).drop_last() =~= real_events(rest));
        }
    }
}

/// Taking the first event out and cutting a queue down to its real events can
/// be swapped; without a second copy there is nothing to take out.
proof fn lemma_rest_real(q: Seq<(u64, EventModel)>)
    requires
        q.len() > 0,
    ensures
        moves_clock(q[0].1) ==> real_events(q).len() > 0 && real_events(q)[0] == q[0] && real_events(q.skip(1))
            == real_events(q).skip(1),
        !moves_clock(q[0].1) ==> real_events(q.skip(1)) == real_events(q),
    decreases q.len(),
{
    if q.len() == 1 {
        assert(q.skip(1) =~= Seq::empty());
        assert(q.drop_last() =~= Seq::empty());
        assert(real_events(q.drop_last()) =~= Seq::empty());
        if moves_clock(q[0].1) {
            assert(real_events(q) =~= seq![q[0]]);
            assert(real_events(q).skip(1) =~= q.skip(1));
        }
    } else {
        let rest = q.drop_last();
        lemma_rest_real(rest);
        assert(q.skip(1).drop_last() =~= rest.skip(1));
        assert(q.skip(1).last() == q.last());
        if moves_clock(q[0].1) && moves_clock(q.last().1) {
            assert(real_events(rest).push(q.last()).skip(1) =~= real_events(rest).skip(1).push(q.last()));
        }
    }
}

/// Placing an event inserts it somewhere, behind every event that is not
/// later.
proof fn lemma_placed_at(q: Seq<(u64, EventModel)>, tick: u64, e: EventModel) -> (k: int)
    ensures
        0 <= k <= q.len(),
        placed(q, tick, e) == q.insert(k, (tick, e)),
        forall|j: int| k <= j < q.len() ==> (#[trigger] q[j]).0 > tick,
    decreases q.len(),
{
    if q.len() == 0 || q.last().0 <= tick {
        assert(q.push((tick, e)) =~= q.insert(q.len() as int, (tick, e)));
        q.len() as int
    } else {
        let rest = q.drop_last();
        let k = lemma_placed_at(rest, tick, e);
        assert(rest.insert(k, (tick, e)).push(q.last()) =~= q.insert(k, (tick, e)));
        assert forall|j: int| k <= j < q.len() implies (#[trigger] q[j]).0 > tick by {
            if j < rest.len() {
                assert(rest[j] == q[j]);
            }
        }
        k
    }
}

// ---- What holds throughout a run --------------------------------------------

/// Whether a node has seen a block, or would refuse its header at once.
pub open spec fn knows_block(n: NodeModel, b: BlockModel) -> bool {
    hash_of_header(b.header) is Err || n.seen_blocks.contains(hash_of_header(b.header)->Ok_0)
}

/// Whether an event is the delivery of a block, as original or as copy.
spec fn delivers(e: EventModel, to: usize, b: BlockModel, copy: bool) -> bool {
    e matches EventModel::Deliver { from, to: x, msg: MsgModel::Block(y), copy: c } && x == to && y == b && ((c
        == 1) == copy)
}

/// Whether an event is the delivery of gossip, if it is a second copy.
spec fn only_gossip_twice(e: EventModel) -> bool {
    moves_clock(e) || (e matches EventModel::Deliver { msg, .. } && is_gossip(msg))
}

/// Whether the original of a block comes before a place of a queue.
spec fn comes_before(q: Seq<(u64, EventModel)>, i: int, to: usize, b: BlockModel) -> bool {
    exists|j: int| 0 <= j < i && delivers((#[trigger] q[j]).1, to, b, false)
}

/// Whether every copied block in a queue is known to its receiver, or its
/// original comes first or is being handled.
spec fn covered(q: Seq<(u64, EventModel)>, nodes: Seq<NodeModel>, open: Option<(usize, BlockModel)>) -> bool {
    forall|i: int, to: usize, b: BlockModel|
        0 <= i < q.len() && #[trigger] delivers(q[i].1, to, b, true) ==> {
            ||| knows_block(nodes[to as int], b)
            ||| comes_before(q, i, to, b)
            ||| open == Some((to, b))
        }
}

/// What holds of the network throughout a run.
spec fn sound(s: NetModel, open: Option<(usize, BlockModel)>) -> bool {
    &&& s.nodes.len() <= usize::MAX
    &&& in_order(s.queue)
    &&& all_fit(s.queue, s.nodes.len())
    &&& forall|i: int| 0 <= i < s.queue.len() ==> only_gossip_twice((#[trigger] s.queue[i]).1)
    &&& forall|i: int| 0 <= i < s.nodes.len() ==> (#[trigger] s.nodes[i]).alive
    &&& covered(s.queue, s.nodes, open)
}

/// Whether a task names a node below a number, if any.
spec fn task_fits(t: TaskModel, n: nat) -> bool {
    match t {
        TaskModel::Block { node, .. } => node < n,
        TaskModel::SyncPush { node, .. } => node < n,
        TaskModel::SyncAdopt { node, .. } => node < n,
        TaskModel::Progress { node, .. } => node < n,
        TaskModel::Announce { node, .. } => node < n,
        TaskModel::Anchor { node } => node < n,
        TaskModel::Drain { node, .. } => node < n,
        TaskModel::Adopt { node, .. } => node < n,
        TaskModel::Checkpoint { node, .. } => node < n,
        TaskModel::Vote { node, .. } => node < n,
        TaskModel::Store { node, .. } => node < n,
        TaskModel::Finalize { node } => node < n,
        TaskModel::Count { node, .. } => node < n,
        TaskModel::Seal { node, .. } => node < n,
        TaskModel::Produce { .. } => true,
        TaskModel::Build { node, .. } => node < n,
        TaskModel::Sync { node, .. } => node < n,
    }
}

/// Whether all tasks of a list do.
spec fn tasks_fit(tasks: Seq<TaskModel>, n: nat) -> bool {
    forall|i: int| 0 <= i < tasks.len() ==> task_fits(#[trigger] tasks[i], n)
}

/// Whether a node forgets nothing and goes on running.
spec fn keeps_sight(n: NodeModel, m: NodeModel) -> bool {
    m.alive == n.alive && n.seen_blocks.subset_of(m.seen_blocks)
}

/// Another state of a node that keeps its sight keeps a network sound, and
/// keeps networks in agreement.
proof fn lemma_with_node(
    s: NetModel,
    t: NetModel,
    open: Option<(usize, BlockModel)>,
    i: usize,
    n: NodeModel,
)
    requires
        agrees(s, t),
        sound(s, open),
        i < s.nodes.len(),
        keeps_sight(s.nodes[i as int], n),
    ensures
        agrees(s.with_node(i, n), t.with_node(i, n)),
        sound(s.with_node(i, n), open),
        s.with_node(i, n).nodes.len() == s.nodes.len(),
{
    let u = s.with_node(i, n);
    assert forall|k: int, to: usize, b: BlockModel|
        0 <= k < u.queue.len() && #[trigger] delivers(u.queue[k].1, to, b, true) implies {
        ||| knows_block(u.nodes[to as int], b)
        ||| comes_before(u.queue, k, to, b)
        ||| open == Some((to, b))
    } by {
        assert(delivers(s.queue[k].1, to, b, true));
        assert(event_fits(s.queue[k].1, s.nodes.len()));
    }
}

/// Placing an event keeps a network sound: it is no copy of a block, or the
/// original was placed at its tick or before.
proof fn lemma_place(
    s: NetModel,
    open: Option<(usize, BlockModel)>,
    tick: u64,
    e: EventModel,
    at: int,
)
    requires
        sound(s, open),
        event_fits(e, s.nodes.len()),
        only_gossip_twice(e),
        forall|to: usize, b: BlockModel| #[trigger]
            delivers(e, to, b, true) ==> 0 <= at < s.queue.len() && s.queue[at].0 <= tick && delivers(
                s.queue[at].1,
                to,
                b,
                false,
            ),
    ensures
        sound(NetModel { queue: placed(s.queue, tick, e), ..s }, open),
        exists|k: int|
            0 <= k <= s.queue.len() && placed(s.queue, tick, e) == #[trigger] s.queue.insert(k, (tick, e)),
{
    let q = s.queue;
    let u = placed(q, tick, e);
    law_queue_stays_in_order(q, tick, e);
    lemma_placed_fits(q, tick, e, s.nodes.len());
    let k = lemma_placed_at(q, tick, e);
    assert forall|i: int| 0 <= i < u.len() implies only_gossip_twice((#[trigger] u[i]).1) by {
        if i < k {
            assert(u[i] == q[i]);
        } else if i > k {
            assert(u[i] == q[i - 1]);
        }
    }
    assert forall|i: int, to: usize, b: BlockModel| 0 <= i < u.len() && #[trigger] delivers(u[i].1, to, b, true) implies {
        ||| knows_block(s.nodes[to as int], b)
        ||| comes_before(u, i, to, b)
        ||| open == Some((to, b))
    } by {
        if i == k {
            assert(delivers(e, to, b, true));
            assert(at < k);
            assert(u[at] == q[at]);
        } else {
            let p = if i < k {
                i
            } else {
                i - 1
            };
            assert(u[i] == q[p]);
            assert(delivers(q[p].1, to, b, true));
            if comes_before(q, p, to, b) {
                let j = choose|j: int| 0 <= j < p && delivers((#[trigger] q[j]).1, to, b, false);
                let x = if j < k {
                    j
                } else {
                    j + 1
                };
                assert(u[x] == q[j]);
            }
        }
    }
}

/// Sending a message keeps networks sound and in agreement.
proof fn lemma_sent(
    s: NetModel,
    t: NetModel,
    open: Option<(usize, BlockModel)>,
    from: usize,
    to: usize,
    msg: MsgModel,
)
    requires
        agrees(s, t),
        sound(s, open),
        from < s.nodes.len(),
        to < s.nodes.len(),
    ensures
        agrees(sent(s, from, to, msg), sent(t, from, to, msg)),
        sound(sent(s, from, to, msg), open),
        only_sends(s, sent(s, from, to, msg)),
{
    let draw = drawn(s.params, s.send_seq);
    let plain = drawn(t.params, t.send_seq);
    assert(plain.lost == draw.lost && plain.latency == draw.latency && !plain.dup);
    let tick = plus(s.tick, draw.latency);
    let first = EventModel::Deliver { from, to, msg, copy: 0 };
    let second = EventModel::Deliver { from, to, msg, copy: 1 };
    let late = plus(tick, draw.dup_delay);
    lemma_placed_real(s.queue, tick, first);
    lemma_place(s, open, tick, first, 0);
    let once = NetModel { queue: placed(s.queue, tick, first), ..s };
    let k = choose|k: int|
        0 <= k <= s.queue.len() && placed(s.queue, tick, first) == #[trigger] s.queue.insert(k, (tick, first));
    assert(once.queue[k] == (tick, first));
    lemma_placed_real(once.queue, late, second);
    if is_gossip(msg) {
        lemma_place(once, open, late, second, k);
    }
}

/// Spreading a message keeps networks sound and in agreement.
proof fn lemma_spread(
    s: NetModel,
    t: NetModel,
    open: Option<(usize, BlockModel)>,
    from: usize,
    msg: MsgModel,
    n: nat,
)
    requires
        agrees(s, t),
        sound(s, open),
        from < s.nodes.len(),
        n <= s.nodes.len(),
    ensures
        agrees(spread(s, from, msg, n), spread(t, from, msg, n)),
        sound(spread(s, from, msg, n), open),
        only_sends(s, spread(s, from, msg, n)),
    decreases n,
{
    if n > 0 {
        lemma_spread(s, t, open, from, msg, (n - 1) as nat);
        let a = spread(s, from, msg, (n - 1) as nat);
        let b = spread(t, from, msg, (n - 1) as nat);
        let to = (n - 1) as usize;
        lemma_sent(a, b, open, from, to, msg);
    }
}

// ---- Tasks ------------------------------------------------------------------

/// Whether two networks, after the same was done to both, agree, are sound
/// and go on with the same tasks.
spec fn in_step(
    s: NetModel,
    a: (NetModel, Seq<TaskModel>),
    b: (NetModel, Seq<TaskModel>),
    open: Option<(usize, BlockModel)>,
) -> bool {
    &&& agrees(a.0, b.0)
    &&& a.1 == b.1
    &&& sound(a.0, open)
    &&& a.0.nodes.len() == s.nodes.len()
    &&& tasks_fit(a.1, s.nodes.len())
}

/// The tasks of progress fit.
proof fn lemma_progress_fits(node: usize, blocks: Seq<BlockModel>, n: nat)
    requires
        node < n,
    ensures
        tasks_fit(progress_tasks(node, blocks), n),
{
}

/// Two lists of tasks that fit do so together.
proof fn lemma_both_fit(a: Seq<TaskModel>, b: Seq<TaskModel>, n: nat)
    requires
        tasks_fit(a, n),
        tasks_fit(b, n),
    ensures
        tasks_fit(a + b, n),
{
    assert forall|i: int| 0 <= i < (a + b).len() implies task_fits(#[trigger] (a + b)[i], n) by {
        if i < a.len() {
            assert((a + b)[i] == a[i]);
        } else {
            assert((a + b)[i] == b[i - a.len()]);
        }
    }
}

/// Settling transactions keeps a node's sight.
proof fn lemma_settled_keeps(n: NodeModel, txs: Seq<TxModel>)
    ensures
        keeps_sight(n, settled(n, txs)),
    decreases txs.len(),
{
    if txs.len() > 0 {
        lemma_settled_keeps(n, txs.drop_last());
    }
}

/// Once its receiver knows a block, its original need not be handled any
/// more.
proof fn lemma_close(s: NetModel, to: usize, b: BlockModel)
    requires
        sound(s, Some((to, b))),
        knows_block(s.nodes[to as int], b),
    ensures
        sound(s, None),
{
    assert forall|i: int, x: usize, y: BlockModel|
        0 <= i < s.queue.len() && #[trigger] delivers(s.queue[i].1, x, y, true) implies {
        ||| knows_block(s.nodes[x as int], y)
        ||| comes_before(s.queue, i, x, y)
        ||| None::<(usize, BlockModel)> == Some((x, y))
    } by {}
}

proof fn lemma_block(
    s: NetModel,
    t: NetModel,
    open: Option<(usize, BlockModel)>,
    node: usize,
    b: BlockModel,
    lists: Seq<Seq<PublicKey>>,
)
    requires
        agrees(s, t),
        sound(s, open),
        open is None || open == Some((node, b)),
        node < s.nodes.len(),
    ensures
        in_step(s, block_handled(s, node, b, lists), block_handled(t, node, b, lists), None),
{
    let n = offered(s.nodes[node as int], b, lists).0;
    lemma_with_node(s, t, open, node, n);
    let u = s.with_node(node, n);
    assert(knows_block(u.nodes[node as int], b));
    if open is Some {
        lemma_close(u, node, b);
    }
}

proof fn lemma_batch_pushed(
    s: NetModel,
    t: NetModel,
    node: usize,
    blocks: Seq<BlockModel>,
    done: usize,
    keys: Seq<PublicKey>,
)
    requires
        agrees(s, t),
        sound(s, None),
        node < s.nodes.len(),
    ensures
        in_step(s, batch_pushed(s, node, blocks, done, keys), batch_pushed(t, node, blocks, done, keys), None),
{
    let n = extended_by(s.nodes[node as int], blocks[done as int], keys).0;
    lemma_with_node(s, t, None, node, n);
    lemma_progress_fits(node, blocks, s.nodes.len());
    lemma_progress_fits(node, blocks.take(done as int), s.nodes.len());
    lemma_both_fit(
        progress_tasks(node, blocks.take(done as int)),
        seq![TaskModel::SyncAdopt { node, blocks: blocks.skip(done as int) }],
        s.nodes.len(),
    );
}

proof fn lemma_batch_adopted(
    s: NetModel,
    t: NetModel,
    node: usize,
    blocks: Seq<BlockModel>,
    lists: Seq<Seq<PublicKey>>,
)
    requires
        agrees(s, t),
        sound(s, None),
        node < s.nodes.len(),
    ensures
        in_step(s, batch_adopted(s, node, blocks, lists), batch_adopted(t, node, blocks, lists), None),
{
    let (n, won) = switched_to(s.nodes[node as int], blocks, lists);
    lemma_with_node(s, t, None, node, n);
    lemma_switching(s.with_node(node, n), t.with_node(node, n), node, blocks.len() as u64);
    lemma_progress_fits(node, blocks, s.nodes.len());
}

/// Counting a branch switch keeps networks sound and in agreement.
proof fn lemma_switching(s: NetModel, t: NetModel, node: usize, n: u64)
    requires
        agrees(s, t),
        sound(s, None),
        node < s.nodes.len(),
    ensures
        agrees(s.switching(node, n), t.switching(node, n)),
        sound(s.switching(node, n), None),
        s.switching(node, n).nodes.len() == s.nodes.len(),
{
    let m = NodeModel { stuck_rounds: 0, ..s.nodes[node as int] };
    lemma_with_node(s, t, None, node, m);
    assert(s.switching(node, n).nodes == s.with_node(node, m).nodes);
}

proof fn lemma_progress(s: NetModel, t: NetModel, node: usize, b: BlockModel)
    requires
        agrees(s, t),
        sound(s, None),
        node < s.nodes.len(),
    ensures
        in_step(s, progress_noted(s, node, b), progress_noted(t, node, b), None),
{
    let n = progressed(s.nodes[node as int], s.tick, b.txs);
    lemma_settled_keeps(
        NodeModel { last_progress_tick: s.tick, stuck_rounds: 0, ..s.nodes[node as int] },
        b.txs,
    );
    lemma_with_node(s, t, None, node, n);
}

proof fn lemma_anchor(s: NetModel, t: NetModel, node: usize, committee: Seq<PublicKey>, h: Digest)
    requires
        agrees(s, t),
        sound(s, None),
        node < s.nodes.len(),
    ensures
        in_step(s, anchor_held(s, node, committee, h), anchor_held(t, node, committee, h), None),
{
    let n = anchored(s.nodes[node as int], s.params.sign_interval, committee, h).0;
    lemma_with_node(s, t, None, node, n);
}

proof fn lemma_vote(s: NetModel, t: NetModel, node: usize, p: ProposalModel, committee: Seq<PublicKey>)
    requires
        agrees(s, t),
        sound(s, None),
        node < s.nodes.len(),
    ensures
        in_step(s, vote_held(s, node, p, committee), vote_held(t, node, p, committee), None),
{
    let n = voted(s.nodes[node as int], p, committee).0;
    lemma_with_node(s, t, None, node, n);
}

proof fn lemma_drain(s: NetModel, t: NetModel, node: usize, count: u64, keys: Seq<PublicKey>)
    requires
        agrees(s, t),
        sound(s, None),
        node < s.nodes.len(),
    ensures
        in_step(s, parked_pushed(s, node, count, keys), parked_pushed(t, node, count, keys), None),
{
    let n = drained(s.nodes[node as int], keys).0;
    lemma_with_node(s, t, None, node, n);
    lemma_progress_fits(node, last_blocks(n.chain, count), s.nodes.len());
    lemma_both_fit(
        progress_tasks(node, last_blocks(n.chain, count)),
        seq![TaskModel::Adopt { node, drained: count }],
        s.nodes.len(),
    );
}

proof fn lemma_adopt(s: NetModel, t: NetModel, node: usize, count: u64, lists: Seq<Seq<PublicKey>>)
    requires
        agrees(s, t),
        sound(s, None),
        node < s.nodes.len(),
    ensures
        in_step(s, parked_adopted(s, node, count, lists), parked_adopted(t, node, count, lists), None),
{
    let (n, branch) = readopted(s.nodes[node as int], lists);
    lemma_with_node(s, t, None, node, n);
    if branch is Some {
        let b = branch->0;
        lemma_switching(s.with_node(node, n), t.with_node(node, n), node, b.len() as u64);
        lemma_progress_fits(node, b, s.nodes.len());
        lemma_both_fit(progress_tasks(node, b), seq![TaskModel::Drain { node, count: 0 }], s.nodes.len());
    }
}

proof fn lemma_gossip(s: NetModel, t: NetModel, node: usize, msg: MsgModel)
    requires
        agrees(s, t),
        sound(s, None),
        node < s.nodes.len(),
    ensures
        agrees(gossiped(s, node, msg), gossiped(t, node, msg)),
        sound(gossiped(s, node, msg), None),
        gossiped(s, node, msg).nodes == s.nodes,
{
    lemma_spread(s, t, None, node, msg, s.nodes.len());
}

proof fn lemma_proposal(s: NetModel, t: NetModel, node: usize, p: ProposalModel)
    requires
        agrees(s, t),
        sound(s, None),
        node < s.nodes.len(),
    ensures
        in_step(s, proposal_handled(s, node, p), proposal_handled(t, node, p), None),
{
    let (n, news) = merged(s.nodes[node as int], p);
    lemma_with_node(s, t, None, node, n);
    if news is Some {
        lemma_gossip(s.with_node(node, n), t.with_node(node, n), node, MsgModel::Checkpoint(news->0));
    }
}

proof fn lemma_release(
    s: NetModel,
    t: NetModel,
    node: usize,
    p: ProposalModel,
    signature: Signature,
    alone: bool,
    stored: bool,
)
    requires
        agrees(s, t),
        sound(s, None),
        node < s.nodes.len(),
    ensures
        in_step(
            s,
            vote_released(s, node, p, signature, alone, stored),
            vote_released(t, node, p, signature, alone, stored),
            None,
        ),
{
    if stored {
        let n = cast(s.nodes[node as int], p, signature);
        let signatures = if alone {
            seq![(n.pk, signature)]
        } else {
            sig_list(n.pending[p.signing_hash].1)
        };
        lemma_with_node(s, t, None, node, n);
        lemma_gossip(
            s.with_node(node, n),
            t.with_node(node, n),
            node,
            MsgModel::Checkpoint(ProposalModel { signatures, ..p }),
        );
    }
}

proof fn lemma_count(
    s: NetModel,
    t: NetModel,
    node: usize,
    hashes: Seq<Digest>,
    committee: Seq<PublicKey>,
    quorum: usize,
)
    requires
        agrees(s, t),
        sound(s, None),
        node < s.nodes.len(),
    ensures
        in_step(
            s,
            votes_counted(s, node, hashes, committee, quorum),
            votes_counted(t, node, hashes, committee, quorum),
            None,
        ),
{
    let n = counted_votes(s.nodes[node as int], hashes[0], committee, quorum).0;
    lemma_with_node(s, t, None, node, n);
}

proof fn lemma_seal(
    s: NetModel,
    t: NetModel,
    node: usize,
    cp: CheckpointModel,
    tally: Tally,
    seed: Digest,
    hashes: Seq<Digest>,
)
    requires
        agrees(s, t),
        sound(s, None),
        node < s.nodes.len(),
    ensures
        in_step(
            s,
            checkpoint_sealed(s, node, cp, tally, seed, hashes),
            checkpoint_sealed(t, node, cp, tally, seed, hashes),
            None,
        ),
{
    let (n, taken) = sealed(s.nodes[node as int], cp, tally, seed);
    lemma_with_node(s, t, None, node, n);
    if taken {
        lemma_gossip(
            finality_recorded(s.with_node(node, n), cp.data.epoch, cp.signing_hash),
            finality_recorded(t.with_node(node, n), cp.data.epoch, cp.signing_hash),
            node,
            MsgModel::Checkpoint(proposal_of(cp)),
        );
    }
}

proof fn lemma_build(
    s: NetModel,
    t: NetModel,
    node: usize,
    timestamp: u64,
    txs: Seq<TxModel>,
    signing: Result<Seq<u8>, ProtocolError>,
    encoding: Result<Seq<u8>, ProtocolError>,
    keys: Seq<PublicKey>,
)
    requires
        agrees(s, t),
        sound(s, None),
        node < s.nodes.len(),
    ensures
        in_step(
            s,
            block_built(s, node, timestamp, txs, signing, encoding, keys),
            block_built(t, node, timestamp, txs, signing, encoding, keys),
            None,
        ),
{
    let n = attempted(s.nodes[node as int], timestamp, txs, signing, encoding, keys).0;
    lemma_with_node(s, t, None, node, n);
}

/// The first of some numbers depends on which they are.
proof fn lemma_first_of_same(n: nat, a: spec_fn(int) -> bool, b: spec_fn(int) -> bool)
    requires
        forall|i: int| 0 <= i < n ==> #[trigger] a(i) == b(i),
    ensures
        first_of(n, a) == first_of(n, b),
        first_of(n, a) matches Some(i) ==> 0 <= i < n,
    decreases n,
{
    if n > 0 {
        lemma_first_of_same((n - 1) as nat, a, b);
        assert(a(n - 1) == b(n - 1));
    }
}

/// The best node of a group depends on nodes and groups.
proof fn lemma_front_same(s: NetModel, t: NetModel, group: usize)
    requires
        agrees(s, t),
    ensures
        front(s, group) == front(t, group),
        front(s, group) matches Some(i) ==> 0 <= i < s.nodes.len(),
{
    assert forall|i: int| may_produce(s, group, None, i) == may_produce(t, group, None, i) by {}
    if exists|i: int| is_front(s, group, i) {
        let i = choose|i: int| is_front(s, group, i);
        assert(is_front(t, group, i)) by {
            assert forall|j: int| #[trigger] may_produce(t, group, None, j) implies is_ahead(t, i, j) by {
                assert(may_produce(s, group, None, j));
            }
        }
        let j = choose|j: int| is_front(t, group, j);
        assert(may_produce(s, group, None, j));
        assert(may_produce(t, group, None, i));
    } else {
        assert forall|i: int| !is_front(t, group, i) by {
            if is_front(t, group, i) {
                assert(is_front(s, group, i)) by {
                    assert forall|j: int| #[trigger] may_produce(s, group, None, j) implies is_ahead(s, i, j) by {
                        assert(may_produce(t, group, None, j));
                    }
                }
            }
        }
    }
}

proof fn lemma_produce(
    s: NetModel,
    t: NetModel,
    group: usize,
    committee: Seq<PublicKey>,
    allowed: Seq<Seq<PublicKey>>,
)
    requires
        agrees(s, t),
        sound(s, None),
    ensures
        in_step(
            s,
            production_begun(s, group, committee, allowed),
            production_begun(t, group, committee, allowed),
            None,
        ),
{
    lemma_front_same(s, t, group);
    let n = s.nodes.len();
    if front(s, group) is Some {
        let top = front(s, group)->0;
        lemma_first_of_same(
            n,
            |i: int| is_leader(s, group, committee, top, i),
            |i: int| is_leader(t, group, committee, top, i),
        );
        lemma_first_of_same(
            n,
            |i: int| can_stand_in(s, group, allowed, top, i),
            |i: int| can_stand_in(t, group, allowed, top, i),
        );
    }
    assert(next_producer(s, group, committee, allowed) == next_producer(t, group, committee, allowed));
    if next_producer(s, group, committee, allowed) is Some {
        let (i, standing_in) = next_producer(s, group, committee, allowed)->0;
        assert(0 <= i < n);
        lemma_with_node(s, t, None, i as usize, NodeModel { mempool: Seq::empty(), ..s.nodes[i] });
    }
}

/// The peers of a node depend on nodes and groups, and are nodes.
proof fn lemma_peers(s: NetModel, t: NetModel, node: usize, n: nat)
    requires
        agrees(s, t),
        n <= s.nodes.len() <= usize::MAX,
    ensures
        peers(s, node, n) == peers(t, node, n),
        forall|i: int| 0 <= i < peers(s, node, n).len() ==> (#[trigger] peers(s, node, n)[i]) < n,
    decreases n,
{
    if n > 0 {
        lemma_peers(s, t, node, (n - 1) as nat);
    }
}

proof fn lemma_sync(s: NetModel, t: NetModel, tick: u64, node: usize, stored: StoredState)
    requires
        agrees(s, t),
        sound(s, None),
        node < s.nodes.len(),
        s.nodes[node as int].stuck_rounds <= STUCK_LIMIT || s.nodes[node as int].parked.len() < PARKED_CAP,
    ensures
        agrees(synced(s, tick, node, stored), synced(t, tick, node, stored)),
        sound(synced(s, tick, node, stored), None),
        synced(s, tick, node, stored).nodes.len() == s.nodes.len(),
{
    let e = EventModel::Sync { node };
    let at = plus(tick, s.params.sync_interval);
    lemma_placed_real(s.queue, at, e);
    lemma_place(s, None, at, e, 0);
    let u = NetModel { queue: placed(s.queue, at, e), ..s };
    let v = NetModel { queue: placed(t.queue, at, e), ..t };
    lemma_peers(s, t, node, s.nodes.len());
    let n = s.nodes[node as int];
    let list = peers(s, node, s.nodes.len());
    if n.alive && list.len() > 0 {
        let peer = list[n.sync_counter as int % list.len() as int];
        let f = |x: NodeModel| top_height(s.nodes.update(node as int, x), s.nodes.len());
        let g = |x: NodeModel| top_height(t.nodes.update(node as int, x), t.nodes.len());
        assert(f =~= g);
        let m = asking(n, tick, stored, f);
        assert(keeps_sight(n, m));
        lemma_with_node(u, v, None, node, m);
        let msg = MsgModel::GetBlocks { start: plus(n.chain.height(), 1) };
        lemma_sent(u.with_node(node, m), v.with_node(node, m), None, node, peer, msg);
        lemma_sent(
            sent(u.with_node(node, m), node, peer, msg),
            sent(v.with_node(node, m), node, peer, msg),
            None,
            node,
            peer,
            MsgModel::GetCheckpoints,
        );
    }
}

/// Carrying out a task keeps networks sound and in agreement.
proof fn lemma_performed(
    s: NetModel,
    t: NetModel,
    open: Option<(usize, BlockModel)>,
    task: TaskModel,
    a: Answer,
)
    requires
        agrees(s, t),
        sound(s, open),
        task_fits(task, s.nodes.len()),
        open matches Some((to, b)) ==> task == (TaskModel::Block { node: to, block: b }),
        task matches TaskModel::Sync { tick, node } ==> s.nodes[node as int].stuck_rounds <= STUCK_LIMIT
            || s.nodes[node as int].parked.len() < PARKED_CAP,
    ensures
        in_step(s, performed(s, task, a), performed(t, task, a), None),
{
    match task {
        TaskModel::Block { node, block } => lemma_block(s, t, open, node, block, a.lists),
        TaskModel::SyncPush { node, blocks, done } => lemma_batch_pushed(s, t, node, blocks, done, a.keys),
        TaskModel::SyncAdopt { node, blocks } => lemma_batch_adopted(s, t, node, blocks, a.lists),
        TaskModel::Progress { node, block } => lemma_progress(s, t, node, block),
        TaskModel::Announce { node, msg } => lemma_gossip(s, t, node, msg),
        TaskModel::Anchor { node } => lemma_anchor(s, t, node, a.keys, a.digest),
        TaskModel::Drain { node, count } => lemma_drain(s, t, node, count, a.keys),
        TaskModel::Adopt { node, drained } => lemma_adopt(s, t, node, drained, a.lists),
        TaskModel::Checkpoint { node, proposal } => lemma_proposal(s, t, node, proposal),
        TaskModel::Vote { node, proposal } => lemma_vote(s, t, node, proposal, a.keys),
        TaskModel::Store { node, proposal, signature, state, alone } => lemma_release(
            s,
            t,
            node,
            proposal,
            signature_of(signature),
            alone,
            a.kept,
        ),
        TaskModel::Finalize { node } => {},
        TaskModel::Count { node, hashes } => lemma_count(s, t, node, hashes, a.keys, a.quorum),
        TaskModel::Seal { node, proposal, committee, quorum, hashes } => lemma_seal(
            s,
            t,
            node,
            CheckpointModel {
                data: proposal.data,
                signing_hash: proposal.signing_hash,
                signatures: proposal.signatures,
                hash: a.digest,
            },
            a.tally,
            a.seed,
            hashes,
        ),
        TaskModel::Produce { group } => lemma_produce(s, t, group, a.keys, a.lists),
        TaskModel::Build { node, timestamp, txs } => lemma_build(
            s,
            t,
            node,
            timestamp,
            txs,
            a.signing,
            a.encoding,
            a.keys,
        ),
        TaskModel::Sync { tick, node } => lemma_sync(s, t, tick, node, a.stored),
    }
}

// ---- Events -----------------------------------------------------------------

/// A transaction that reaches a node keeps networks sound and in agreement.
proof fn lemma_tx(s: NetModel, t: NetModel, node: usize, tx: TxModel)
    requires
        agrees(s, t),
        sound(s, None),
        node < s.nodes.len(),
    ensures
        agrees(tx_reached(s, node, tx), tx_reached(t, node, tx)),
        sound(tx_reached(s, node, tx), None),
        tx_reached(s, node, tx).nodes.len() == s.nodes.len(),
{
    let n = received(s.nodes[node as int], tx).0;
    lemma_with_node(s, t, None, node, n);
    lemma_gossip(s.with_node(node, n), t.with_node(node, n), node, MsgModel::Tx(tx));
}

/// What an event leaves open: the block that it delivers, if it does.
spec fn left_open(e: EventModel) -> Option<(usize, BlockModel)> {
    match e {
        EventModel::Deliver { to, msg: MsgModel::Block(b), copy, .. } => if copy == 1 {
            None
        } else {
            Some((to, b))
        },
        _ => None,
    }
}

/// Taking an event out of the queue keeps a network sound, up to what the
/// event leaves open.
proof fn lemma_taken(s: NetModel, u: NetModel)
    requires
        sound(s, None),
        s.queue.len() > 0,
        u.queue == s.queue.skip(1),
        u.nodes == s.nodes,
    ensures
        sound(u, left_open(s.queue[0].1)),
        forall|to: usize, b: BlockModel| #[trigger]
            delivers(s.queue[0].1, to, b, true) ==> knows_block(s.nodes[to as int], b),
{
    let q = s.queue;
    let rest = q.skip(1);
    law_queue_stays_in_order(q, 0, EventModel::ProduceRound);
    assert forall|i: int| 0 <= i < rest.len() implies event_fits((#[trigger] rest[i]).1, s.nodes.len()) by {
        assert(rest[i] == q[i + 1]);
    }
    assert forall|i: int| 0 <= i < rest.len() implies only_gossip_twice((#[trigger] rest[i]).1) by {
        assert(rest[i] == q[i + 1]);
    }
    let open = left_open(q[0].1);
    assert forall|i: int, to: usize, b: BlockModel|
        0 <= i < rest.len() && #[trigger] delivers(rest[i].1, to, b, true) implies {
        ||| knows_block(s.nodes[to as int], b)
        ||| comes_before(rest, i, to, b)
        ||| open == Some((to, b))
    } by {
        assert(rest[i] == q[i + 1]);
        assert(delivers(q[i + 1].1, to, b, true));
        if comes_before(q, i + 1, to, b) {
            let j = choose|j: int| 0 <= j < i + 1 && delivers((#[trigger] q[j]).1, to, b, false);
            if j > 0 {
                assert(rest[j - 1] == q[j]);
            }
        }
    }
}

/// Handling a real event keeps networks sound and in agreement, up to what
/// the event leaves open.
proof fn lemma_stepped(s: NetModel, t: NetModel)
    requires
        agrees(s, t),
        sound(s, None),
        s.queue.len() > 0,
        moves_clock(s.queue[0].1),
    ensures
        t.queue.len() > 0,
        t.queue[0] == s.queue[0],
        in_step(s, stepped(s), stepped(t), left_open(s.queue[0].1)),
        left_open(s.queue[0].1) matches Some((to, b)) ==> stepped(s).1.len() > 0 && stepped(s).1[0] == (
        TaskModel::Block { node: to, block: b }),
{
    lemma_rest_real(s.queue);
    let (tick, event) = s.queue[0];
    assert(event_fits(event, s.nodes.len()));
    let u0 = NetModel {
        queue: s.queue.skip(1),
        tick: if tick > s.tick {
            tick
        } else {
            s.tick
        },
        steps: plus(s.steps, 1),
        ..s
    };
    let v0 = NetModel { queue: t.queue.skip(1), tick: u0.tick, steps: plus(t.steps, 1), ..t };
    lemma_taken(s, u0);
    assert(agrees(u0, v0));
    match event {
        EventModel::Deliver { from, to, msg, .. } => {
            let u = NetModel { stats: SimStats { delivered: plus(u0.stats.delivered, 1), ..u0.stats }, ..u0 };
            let v = NetModel { stats: SimStats { delivered: plus(v0.stats.delivered, 1), ..v0.stats }, ..v0 };
            lemma_taken(s, u);
            assert(agrees(u, v));
            match msg {
                MsgModel::Tx(x) => lemma_tx(u, v, to, x),
                MsgModel::GetBlocks { start } => {
                    let blocks = reply_blocks(u, to, start);
                    assert(reply_blocks(v, to, start) == blocks);
                    lemma_sent(u, v, None, to, from, MsgModel::Blocks(blocks));
                },
                MsgModel::GetCheckpoints => {
                    let window = u.nodes[to as int].chain.checkpoints;
                    let list = if window.len() <= CHECKPOINT_KEEP {
                        window
                    } else {
                        window.take(CHECKPOINT_KEEP as int)
                    };
                    lemma_sent(
                        u,
                        v,
                        None,
                        to,
                        from,
                        MsgModel::Checkpoints(list.map_values(|c: CheckpointModel| proposal_of(c))),
                    );
                },
                _ => {},
            }
        },
        EventModel::ProduceRound => {
            let at = plus(tick, s.params.produce_interval);
            lemma_placed_real(u0.queue, at, EventModel::ProduceRound);
            lemma_place(u0, None, at, EventModel::ProduceRound, 0);
        },
        EventModel::Sync { node } => {},
        EventModel::Submit { node, tx } => {
            lemma_tx(u0, v0, node, tx);
        },
    }
}

// ---- Runs -------------------------------------------------------------------

/// What holds of two runs, one of them without the second copies.
spec fn matched(a: RunModel, b: RunModel) -> bool {
    let n = a.net.nodes.len();
    &&& agrees(a.net, b.net)
    &&& tasks_fit(a.tasks, n)
    &&& if a.of_copy {
        &&& sound(a.net, None)
        &&& b.tasks.len() == 0
        &&& a.tasks.len() <= 1
        &&& a.tasks.len() == 1 ==> match a.tasks[0] {
            TaskModel::Block { node, block } => knows_block(a.net.nodes[node as int], block),
            TaskModel::Checkpoint { .. } => true,
            TaskModel::Finalize { .. } => true,
            TaskModel::Count { .. } => true,
            _ => false,
        }
    } else {
        &&& b.tasks == a.tasks
        &&& sound(a.net, None) || (a.tasks.len() > 0 && a.tasks[0] is Block && sound(
            a.net,
            Some((a.tasks[0]->Block_node, a.tasks[0]->Block_block)),
        ))
    }
}

/// A move that handles a second copy leaves the other run where it is.
proof fn lemma_copy_handled(a: RunModel, b: RunModel, m: Move)
    requires
        matched(a, b),
        handles_copy(a, m),
        brings_nothing(a, m),
    ensures
        matched(moved(a, m), b),
        moved(a, m).net.nodes.len() == a.net.nodes.len(),
{
    let s = a.net;
    let answer = m->Next_0;
    let c = moved(a, m);
    if a.tasks.len() > 0 {
        assert(task_fits(a.tasks[0], s.nodes.len()));
        assert(a.tasks.skip(1) =~= Seq::empty());
        let (net, more) = performed(s, a.tasks[0], answer);
        assert(c.tasks =~= more);
        match a.tasks[0] {
            TaskModel::Block { node, block } => {
                assert(s.with_node(node, s.nodes[node as int]).nodes =~= s.nodes);
            },
            TaskModel::Checkpoint { node, proposal } => {
                assert(s.with_node(node, s.nodes[node as int]).nodes =~= s.nodes);
            },
            TaskModel::Count { node, hashes } => {
                assert(s.with_node(node, s.nodes[node as int]).nodes =~= s.nodes);
            },
            _ => {},
        }
        assert(c.net.nodes == s.nodes && c.net.queue == s.queue);
    } else {
        lemma_rest_real(s.queue);
        assert(event_fits(s.queue[0].1, s.nodes.len()));
        lemma_taken(s, NetModel { queue: s.queue.skip(1), ..s });
        if let EventModel::Deliver { from, to, msg, copy } = s.queue[0].1 {
            assert(s.nodes[to as int].alive);
            if let MsgModel::Block(x) = msg {
                assert(delivers(s.queue[0].1, to, x, true));
            }
            if let MsgModel::Tx(x) = msg {
                assert(received(s.nodes[to as int], x).0 == s.nodes[to as int]);
                assert(s.nodes.update(to as int, s.nodes[to as int]) =~= s.nodes);
            }
        }
        assert(c.net.nodes == s.nodes && c.net.queue == s.queue.skip(1));
    }
}

/// A move that handles no second copy keeps two runs matched when both make
/// it.
proof fn lemma_moved(a: RunModel, b: RunModel, m: Move)
    requires
        matched(a, b),
        !handles_copy(a, m),
        starts_nobody_over(a, m),
        m matches Move::Submit { node, .. } ==> node < a.net.nodes.len(),
    ensures
        matched(moved(a, m), moved(b, m)),
        moved(a, m).net.nodes.len() == a.net.nodes.len(),
{
    let s = a.net;
    let t = b.net;
    let n = s.nodes.len();
    match m {
        Move::Next(answer) => {
            if a.tasks.len() > 0 {
                assert(task_fits(a.tasks[0], n));
                let open = if sound(s, None) {
                    None
                } else {
                    Some((a.tasks[0]->Block_node, a.tasks[0]->Block_block))
                };
                lemma_performed(s, t, open, a.tasks[0], answer);
                assert(tasks_fit(a.tasks.skip(1), n)) by {
                    assert forall|i: int| 0 <= i < a.tasks.skip(1).len() implies task_fits(
                        #[trigger] a.tasks.skip(1)[i],
                        n,
                    ) by {
                        assert(a.tasks.skip(1)[i] == a.tasks[i + 1]);
                    }
                }
                lemma_both_fit(performed(s, a.tasks[0], answer).1, a.tasks.skip(1), n);
            } else if s.queue.len() > 0 {
                lemma_stepped(s, t);
            } else {
                assert(t.queue =~= Seq::empty());
            }
        },
        Move::Submit { node, tx } => {
            let e = EventModel::Submit { node, tx };
            lemma_placed_real(s.queue, s.tick, e);
            if sound(s, None) {
                lemma_place(s, None, s.tick, e, 0);
            } else {
                let open = Some((a.tasks[0]->Block_node, a.tasks[0]->Block_block));
                lemma_place(s, open, s.tick, e, 0);
            }
        },
        _ => {},
    }
}

/// The first events of a network are real, in order and about its nodes.
proof fn lemma_first_events(n: nat, m: nat)
    requires
        n <= m <= usize::MAX,
    ensures
        in_order(first_events(n)),
        all_fit(first_events(n), m),
        real_events(first_events(n)) == first_events(n),
        forall|i: int| 0 <= i < first_events(n).len() ==> moves_clock((#[trigger] first_events(n)[i]).1),
    decreases n,
{
    let none: Seq<(u64, EventModel)> = Seq::empty();
    if n == 0 {
        law_queue_stays_in_order(none, 10, EventModel::ProduceRound);
        lemma_placed_real(none, 10, EventModel::ProduceRound);
        assert(real_events(none) == none);
        assert(first_events(0) =~= seq![(10u64, EventModel::ProduceRound)]);
    } else {
        let q = first_events((n - 1) as nat);
        let tick = plus(25, times_five((n - 1) as nat));
        let e = EventModel::Sync { node: (n - 1) as usize };
        lemma_first_events((n - 1) as nat, m);
        law_queue_stays_in_order(q, tick, e);
        lemma_placed_fits(q, tick, e, m);
        lemma_placed_real(q, tick, e);
        let k = lemma_placed_at(q, tick, e);
        let u = first_events(n);
        assert forall|i: int| 0 <= i < u.len() implies moves_clock((#[trigger] u[i]).1) by {
            if i < k {
                assert(u[i] == q[i]);
            } else if i > k {
                assert(u[i] == q[i - 1]);
            }
        }
    }
}

/// Second copies leave no trace in a whole run. Whatever the chance of a
/// second copy, and whatever is submitted and cut off on the way, a run
/// without crashes ends like the run without second copies that makes the
/// same moves but for those that handle copies: the nodes are in the same
/// states, the clock shows the same tick, the same messages were sent with
/// the same outcome, and the same real events and tasks are to come. It takes
/// that no node starts over, and that copies bring nothing new: a node that
/// refused a transaction may take its copy later, and one that had no use for
/// a proposal may have one for its copy.
pub proof fn law_second_copies_leave_no_trace(params: SimParams, p: NetworkModel, moves: Seq<Move>)
    requires
        undisturbed(started(params, p), moves),
    ensures
        ({
            let r = started(params, p);
            let a = ran(r, moves);
            let b = ran(started(SimParams { dup_permille: 0, ..params }, p), without_copies(r, moves));
            &&& agrees(a.net, b.net)
            &&& b.tasks == if a.of_copy {
                Seq::empty()
            } else {
                a.tasks
            }
        }),
{
    lemma_runs_match(params, p, moves);
    let r = started(params, p);
    let a = ran(r, moves);
    let b = ran(started(SimParams { dup_permille: 0, ..params }, p), without_copies(r, moves));
    if a.of_copy {
        assert(b.tasks =~= Seq::empty());
    }
}

/// The two runs stay matched.
proof fn lemma_runs_match(params: SimParams, p: NetworkModel, moves: Seq<Move>)
    requires
        undisturbed(started(params, p), moves),
    ensures
        ({
            let r = started(params, p);
            let a = ran(r, moves);
            let b = ran(started(SimParams { dup_permille: 0, ..params }, p), without_copies(r, moves));
            &&& matched(a, b)
            &&& a.net.nodes.len() == r.net.nodes.len()
        }),
    decreases moves.len(),
{
    let r = started(params, p);
    let plain = SimParams { dup_permille: 0, ..params };
    let q = started(plain, p);
    if moves.len() == 0 {
        lemma_first_events(params.nodes as nat, params.nodes as nat);
        assert(r.net.nodes =~= q.net.nodes);
        assert(r.net.groups =~= q.net.groups);
        assert forall|i: int, to: usize, b: BlockModel|
            0 <= i < r.net.queue.len() && #[trigger] delivers(r.net.queue[i].1, to, b, true) implies false by {
            assert(moves_clock(r.net.queue[i].1));
        }
        assert(sound(r.net, None));
        assert(ran(r, moves) == r);
        assert(without_copies(r, moves) =~= Seq::empty());
        assert(ran(q, without_copies(r, moves)) == q);
    } else {
        let before = moves.drop_last();
        lemma_runs_match(params, p, before);
        let a = ran(r, before);
        let kept = without_copies(r, before);
        let b = ran(q, kept);
        if handles_copy(a, moves.last()) {
            lemma_copy_handled(a, b, moves.last());
        } else {
            lemma_moved(a, b, moves.last());
            assert(kept.push(moves.last()).drop_last() =~= kept);
        }
    }
}

} // verus!

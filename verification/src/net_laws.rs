//! What the network promises: which messages arrive, who produces, and what
//! a node that asks is given.
use vstd::prelude::*;
use crate::chain_model::ChainModel;
use crate::chain_model::genesis_chain;
use crate::chain_model::lemma_extended_layout;
use crate::crypto::ed25519_public;
use crate::entry::digest_of;
use crate::error::BlockchainError;
use crate::finality::Tally;
use crate::fork_model::adopted;
use crate::fork_model::open_pre;
use crate::fork_model::tried;
use crate::ids::Digest;
use crate::ids::PublicKey;
use crate::ids::Signature;
use crate::net::NetModel;
use crate::net::TaskModel;
use crate::net::assigned;
use crate::net::blocks::batch_adopted;
use crate::net::blocks::batch_pushed;
use crate::net::blocks::block_handled;
use crate::net::blocks::held_blocks;
use crate::net::blocks::last_blocks;
use crate::net::blocks::parked_adopted;
use crate::net::blocks::parked_pushed;
use crate::net::blocks::progress_noted;
use crate::net::first_events;
use crate::net::fresh_net;
use crate::net::gossiped;
use crate::net::has_converged;
use crate::net::partitioned;
use crate::net::reaches;
use crate::net::rounds::archived;
use crate::net::rounds::asking;
use crate::net::rounds::batch_end;
use crate::net::rounds::block_built;
use crate::net::rounds::can_stand_in;
use crate::net::rounds::checkpoints_served;
use crate::net::rounds::delivered;
use crate::net::rounds::first_of;
use crate::net::rounds::front;
use crate::net::rounds::group_list;
use crate::net::rounds::is_ahead;
use crate::net::rounds::is_front;
use crate::net::rounds::is_leader;
use crate::net::rounds::may_produce;
use crate::net::rounds::next_producer;
use crate::net::rounds::peers;
use crate::net::rounds::production_begun;
use crate::net::rounds::reply_blocks;
use crate::net::rounds::round_begun;
use crate::net::rounds::stepped;
use crate::net::rounds::synced;
use crate::net::rounds::top_height;
use crate::net::rounds::with_group;
use crate::net::sent;
use crate::net::spread;
use crate::net::summary;
use crate::net::times_five;
use crate::net::tx_reached;
use crate::net::votes::anchor_held;
use crate::net::votes::ballot_followed;
use crate::net::votes::checkpoint_sealed;
use crate::net::votes::finality_recorded;
use crate::net::votes::proposal_handled;
use crate::net::votes::vote_held;
use crate::net::votes::vote_released;
use crate::net::votes::votes_counted;
use crate::node::BlockOutcome;
use crate::node::NodeModel;
use crate::node::TxOutcome;
use crate::node::blocks::AttemptModel;
use crate::node::blocks::attempted;
use crate::node::blocks::drained;
use crate::node::blocks::extended_by;
use crate::node::blocks::readopted;
use crate::node::blocks::screened;
use crate::node::crashed;
use crate::node::fits_tip;
use crate::node::offered;
use crate::node::progressed;
use crate::node::received;
use crate::node::votes::BallotModel;
use crate::node::votes::ProposalModel;
use crate::node::votes::cast;
use crate::node::votes::merged;
use crate::node::votes::proposal_of;
use crate::node::votes::sealed;
use crate::node::votes::sig_list;
use crate::node_laws::law_progress;
use crate::rejections::RejectKind;
use crate::rejections::kind_of;
use crate::rejections::tallied;
use crate::signer::StoredState;
use crate::signer::guard_of;
use crate::state::smt_state_root;
use crate::transport::EventModel;
use crate::transport::MsgModel;
use crate::transport::SimParams;
use crate::transport::SimStats;
use crate::transport::drawn;
use crate::transport::placed;
use crate::transport::plus;
use crate::types::Block;
use crate::types::BlockModel;
use crate::types::Checkpoint;
use crate::types::CheckpointModel;
use crate::types::NetworkModel;
use crate::types::ProtocolError;
use crate::types::TxModel;

verus! {

// ---- Messages -----------------------------------------------------------------

/// An event enters the queue once, behind all that are due by then and before
/// all that are due later; nothing else moves.
pub proof fn law_placing(q: Seq<(u64, EventModel)>, tick: u64, e: EventModel)
    ensures
        exists|i: int|
            0 <= i <= q.len() && placed(q, tick, e) == #[trigger] q.insert(i, (tick, e)) && (i > 0 ==> q[i - 1].0
                <= tick) && forall|j: int| i <= j < q.len() ==> (#[trigger] q[j]).0 > tick,
    decreases q.len(),
{
    if q.len() == 0 || q.last().0 <= tick {
        let i = q.len() as int;
        assert(placed(q, tick, e) =~= q.insert(i, (tick, e)));
    } else {
        let front = q.drop_last();
        law_placing(front, tick, e);
        let i = choose|i: int|
            0 <= i <= front.len() && placed(front, tick, e) == #[trigger] front.insert(i, (tick, e)) && (i > 0
                ==> front[i - 1].0 <= tick) && forall|j: int| i <= j < front.len() ==> (#[trigger] front[j]).0 > tick;
        assert(front.insert(i, (tick, e)).push(q.last()) =~= q.insert(i, (tick, e)));
        assert forall|j: int| i <= j < q.len() implies (#[trigger] q[j]).0 > tick by {
            if j < front.len() {
                assert(front[j] == q[j]);
            }
        }
    }
}

/// What is in a queue after an event was placed.
proof fn lemma_placed_content(q: Seq<(u64, EventModel)>, tick: u64, e: EventModel, x: (u64, EventModel))
    ensures
        placed(q, tick, e).len() == q.len() + 1,
        placed(q, tick, e).contains(x) <==> q.contains(x) || x == (tick, e),
{
    law_placing(q, tick, e);
    let i = choose|i: int|
        0 <= i <= q.len() && placed(q, tick, e) == #[trigger] q.insert(i, (tick, e)) && (i > 0 ==> q[i - 1].0 <= tick)
            && forall|j: int| i <= j < q.len() ==> (#[trigger] q[j]).0 > tick;
    let all = q.insert(i, (tick, e));
    assert(all[i] == (tick, e));
    if q.contains(x) {
        let j = choose|j: int| 0 <= j < q.len() && q[j] == x;
        if j < i {
            assert(all[j] == x);
        } else {
            assert(all[j + 1] == x);
        }
    }
    if all.contains(x) {
        let j = choose|j: int| 0 <= j < all.len() && all[j] == x;
        if j < i {
            assert(q[j] == x);
        } else if j > i {
            assert(q[j - 1] == x);
        }
    }
}

/// Whether a message is on its way, first copy, between two ticks.
pub open spec fn under_way(q: Seq<(u64, EventModel)>, from: usize, to: usize, msg: MsgModel, lo: int, hi: int) -> bool {
    exists|t: u64| lo <= t <= hi && #[trigger] q.contains((t, EventModel::Deliver { from, to, msg, copy: 0 }))
}

/// Where nothing is lost, a message to a running node of the sender's group
/// is under way within the latency, once; a second copy follows of gossip
/// only. A message to anyone else is not. Nodes, groups and clock stay.
pub proof fn law_sending(s: NetModel, from: usize, to: usize, msg: MsgModel)
    requires
        s.params.usable(),
        s.tick + s.params.latency_ticks.1 + 8 <= u64::MAX,
    ensures
        ({
            let t = sent(s, from, to, msg);
            let linked = s.groups[from as int] == s.groups[to as int] && s.groups[from as int] != usize::MAX;
            let lo = s.tick + s.params.latency_ticks.0;
            let hi = s.tick + s.params.latency_ticks.1;
            &&& t.nodes == s.nodes && t.groups == s.groups && t.tick == s.tick && t.params == s.params
            &&& !linked || !s.nodes[to as int].alive ==> t.queue == s.queue
            &&& linked && s.nodes[to as int].alive && s.params.loss_permille == 0 ==> under_way(
                t.queue,
                from,
                to,
                msg,
                lo,
                hi,
            ) && s.queue.len() + 1 <= t.queue.len() <= s.queue.len() + 2
            &&& !(msg is Block || msg is Tx || msg is Checkpoint) ==> t.queue.len() <= s.queue.len() + 1
            &&& forall|x: (u64, EventModel)| #[trigger] s.queue.contains(x) ==> t.queue.contains(x)
            &&& forall|x: (u64, EventModel)| #[trigger]
                t.queue.contains(x) && !s.queue.contains(x) ==> lo <= x.0 <= hi + 8 && (x.1 matches EventModel::Deliver {
                    from: f,
                    to: o,
                    msg: m,
                    ..
                } && f == from && o == to && m == msg)
        }),
{
    let t = sent(s, from, to, msg);
    if reaches(s.groups, from, to) && s.nodes[to as int].alive {
        let draw = drawn(s.params, s.send_seq);
        let span = (s.params.latency_ticks.1 - s.params.latency_ticks.0 + 1) as u64;
        assert(s.params.latency_ticks.0 <= draw.latency <= s.params.latency_ticks.1);
        assert(1 <= draw.dup_delay <= 8);
        if !draw.lost {
            let at = plus(s.tick, draw.latency);
            let one = EventModel::Deliver { from, to, msg, copy: 0 };
            let two = EventModel::Deliver { from, to, msg, copy: 1 };
            let once = placed(s.queue, at, one);
            let later = plus(at, draw.dup_delay);
            lemma_placed_content(s.queue, at, one, (at, one));
            lemma_placed_content(once, later, two, (at, one));
            assert(t.queue.contains((at, one)));
            assert forall|x: (u64, EventModel)| #[trigger] s.queue.contains(x) implies t.queue.contains(x) by {
                lemma_placed_content(s.queue, at, one, x);
                lemma_placed_content(once, later, two, x);
            }
            assert forall|x: (u64, EventModel)| #[trigger] t.queue.contains(x) && !s.queue.contains(x) implies x
                == (at, one) || x == (later, two) by {
                lemma_placed_content(s.queue, at, one, x);
                lemma_placed_content(once, later, two, x);
            }
        }
    }
}

/// What spreading to the first nodes does.
proof fn lemma_spread(s: NetModel, from: usize, msg: MsgModel, n: nat, to: usize)
    requires
        s.params.usable(),
        s.params.loss_permille == 0,
        s.tick + s.params.latency_ticks.1 + 8 <= u64::MAX,
        n <= s.nodes.len() <= usize::MAX,
    ensures
        ({
            let t = spread(s, from, msg, n);
            &&& t.nodes == s.nodes && t.groups == s.groups && t.tick == s.tick && t.params == s.params
            &&& forall|x: (u64, EventModel)| #[trigger] s.queue.contains(x) ==> t.queue.contains(x)
            &&& to < n && to != from && s.groups[from as int] == s.groups[to as int] && s.groups[from as int]
                != usize::MAX && s.nodes[to as int].alive ==> under_way(
                t.queue,
                from,
                to,
                msg,
                s.tick + s.params.latency_ticks.0,
                s.tick + s.params.latency_ticks.1,
            )
        }),
    decreases n,
{
    if n > 0 {
        let m = (n - 1) as nat;
        lemma_spread(s, from, msg, m, to);
        let t = spread(s, from, msg, m);
        let next = (n - 1) as usize;
        law_sending(t, from, next, msg);
        if to < m && to != from && s.groups[from as int] == s.groups[to as int] && s.groups[from as int] != usize::MAX
            && s.nodes[to as int].alive {
            let lo = s.tick + s.params.latency_ticks.0;
            let hi = s.tick + s.params.latency_ticks.1;
            let at = choose|at: u64|
                lo <= at <= hi && #[trigger] t.queue.contains((at, EventModel::Deliver { from, to, msg, copy: 0 }));
            let x = (at, EventModel::Deliver { from, to, msg, copy: 0 });
            assert(t.queue.contains(x));
            assert(spread(s, from, msg, n).queue.contains(x));
        }
    }
}

/// Where nothing is lost, gossip is under way to every other running node of
/// the sender's group.
pub proof fn law_gossip_reaches_the_group(s: NetModel, from: usize, msg: MsgModel, to: usize)
    requires
        s.params.usable(),
        s.params.loss_permille == 0,
        s.tick + s.params.latency_ticks.1 + 8 <= u64::MAX,
        s.nodes.len() <= usize::MAX,
        to < s.nodes.len(),
        to != from,
        s.groups[from as int] == s.groups[to as int],
        s.groups[from as int] != usize::MAX,
        s.nodes[to as int].alive,
    ensures
        under_way(
            gossiped(s, from, msg).queue,
            from,
            to,
            msg,
            s.tick + s.params.latency_ticks.0,
            s.tick + s.params.latency_ticks.1,
        ),
{
    lemma_spread(s, from, msg, s.nodes.len(), to);
}

/// A transaction that is new to a node is passed on to its group, and no
/// other is; a refused one is counted.
pub proof fn law_transactions_are_passed_on(s: NetModel, node: usize, t: TxModel)
    ensures
        ({
            let (n, outcome) = received(s.nodes[node as int], t);
            let r = tx_reached(s, node, t);
            &&& outcome == TxOutcome::New ==> r == gossiped(s.with_node(node, n), node, MsgModel::Tx(t))
            &&& outcome != TxOutcome::New ==> r.queue == s.queue
            &&& outcome matches TxOutcome::Rejected(k) ==> r.rejections == tallied(s.rejections, k)
            &&& outcome == TxOutcome::Duplicate ==> r.rejections == s.rejections
        }),
{
}

/// A node that does not run takes nothing: a message to it changes nothing.
pub proof fn law_stopped_nodes_take_nothing(s: NetModel, from: usize, to: usize, msg: MsgModel)
    requires
        !s.nodes[to as int].alive,
    ensures
        delivered(s, from, to, msg).0 == s,
        delivered(s, from, to, msg).1.len() == 0,
{
}

/// A vote goes out only once the state of the guard is stored: otherwise no
/// node and no message changes.
pub proof fn law_votes_are_stored_first(
    s: NetModel,
    node: usize,
    p: ProposalModel,
    signature: Signature,
    alone: bool,
)
    ensures
        ({
            let (t, tasks) = vote_released(s, node, p, signature, alone, false);
            t.nodes == s.nodes && t.queue == s.queue && tasks.len() == 0 && t.rejections == tallied(
                s.rejections,
                RejectKind::SignerRefused,
            )
        }),
        ballot_followed(s, node, p, BallotModel::Abstain, alone).0 == s,
        forall|b: BallotModel| #[trigger] ballot_followed(s, node, p, b, alone).0.queue == s.queue,
{
}

// ---- Peers and replies -----------------------------------------------------------

/// A node asks the other running nodes of its group, each once, in order.
pub proof fn law_peers(s: NetModel, node: usize, n: nat)
    requires
        n <= usize::MAX,
    ensures
        forall|i: usize| #[trigger]
            peers(s, node, n).contains(i) <==> i < n && i != node && s.groups[i as int] == s.groups[node as int]
                && s.groups[node as int] != usize::MAX && s.nodes[i as int].alive,
        forall|a: int, b: int|
            0 <= a < b < peers(s, node, n).len() ==> #[trigger] peers(s, node, n)[a] < #[trigger] peers(s, node, n)[b],
    decreases n,
{
    if n > 0 {
        let m = (n - 1) as nat;
        law_peers(s, node, m);
        let rest = peers(s, node, m);
        let all = peers(s, node, n);
        let last = (n - 1) as usize;
        assert forall|i: usize| #[trigger] all.contains(i) <==> i < n && i != node && s.groups[i as int]
            == s.groups[node as int] && s.groups[node as int] != usize::MAX && s.nodes[i as int].alive by {
            if rest.contains(i) {
                let a = choose|a: int| 0 <= a < rest.len() && rest[a] == i;
                assert(all[a] == i);
            }
            if all.contains(i) {
                let a = choose|a: int| 0 <= a < all.len() && all[a] == i;
                if a < rest.len() {
                    assert(rest[a] == i);
                    assert(rest.contains(i));
                } else {
                    assert(i == last);
                }
            }
            if i == last && all.len() > rest.len() {
                assert(all[rest.len() as int] == last);
            }
        }
        assert forall|a: int, b: int| 0 <= a < b < all.len() implies #[trigger] all[a] < #[trigger] all[b] by {
            assert(all[a] == rest[a]);
            assert(rest.contains(rest[a]));
            if b < rest.len() {
                assert(all[b] == rest[b]);
            }
        }
    }
}

/// The height of the highest running node.
pub proof fn law_top_height(nodes: Seq<NodeModel>, n: nat)
    requires
        n <= nodes.len(),
    ensures
        forall|i: int|
            0 <= i < n && (#[trigger] nodes[i]).alive ==> nodes[i].chain.canonical.last().header.height <= top_height(
                nodes,
                n,
            ),
        top_height(nodes, n) > 0 ==> exists|i: int|
            0 <= i < n && (#[trigger] nodes[i]).alive && nodes[i].chain.canonical.last().header.height == top_height(
                nodes,
                n,
            ),
    decreases n,
{
    if n > 0 {
        law_top_height(nodes, (n - 1) as nat);
        assert(nodes[n - 1] == nodes[n - 1]);
    }
}

/// Blocks in memory at all of some heights are handed out in order.
proof fn lemma_held(m: ChainModel, start: u64, n: nat)
    requires
        start + n <= u64::MAX,
        forall|i: int| 0 <= i < n ==> #[trigger] m.block((start + i) as u64) is Some,
    ensures
        held_blocks(m, start, n).len() == n,
        forall|i: int| 0 <= i < n ==> Some(#[trigger] held_blocks(m, start, n)[i]) == m.block((start + i) as u64),
    decreases n,
{
    if n > 0 {
        lemma_held(m, start, (n - 1) as nat);
        let last = n - 1;
        assert(m.block((start + last) as u64) is Some);
    }
}

/// A node that is asked for blocks from a height on answers with those up to
/// its tip, 64 at most, in order; beyond the tip with none.
pub proof fn law_replies(s: NetModel, server: usize, start: u64)
    requires
        s.nodes[server as int].chain.canonical.last().header.height < u64::MAX,
        forall|h: u64|
            start <= h <= s.nodes[server as int].chain.canonical.last().header.height ==> (
            #[trigger] s.nodes[server as int].chain.block(h)) is Some,
    ensures
        ({
            let m = s.nodes[server as int].chain;
            let tip = m.canonical.last().header.height;
            let blocks = reply_blocks(s, server, start);
            &&& start > tip ==> blocks.len() == 0
            &&& start <= tip ==> blocks.len() == if tip - start + 1 < 64 {
                tip - start + 1
            } else {
                64
            }
            &&& forall|i: int| 0 <= i < blocks.len() ==> Some(#[trigger] blocks[i]) == m.block((start + i) as u64)
        }),
{
    let m = s.nodes[server as int].chain;
    let end = batch_end(start, m.height());
    if start <= end {
        let n = (end - start + 1) as nat;
        assert forall|i: int| 0 <= i < n implies #[trigger] m.block((start + i) as u64) is Some by {}
        lemma_held(m, start, n);
    }
}

/// A node asks for the blocks above its tip, of a running node of its group,
/// and will ask again after the interval.
pub proof fn law_syncing(s: NetModel, tick: u64, node: usize, stored: StoredState)
    requires
        s.nodes.len() <= usize::MAX,
        s.params.usable(),
        s.tick + s.params.latency_ticks.1 + 8 <= u64::MAX,
        tick + s.params.sync_interval <= u64::MAX,
        node < s.nodes.len(),
        s.nodes[node as int].chain.canonical.last().header.height < u64::MAX,
    ensures
        synced(s, tick, node, stored).queue.contains(
            ((tick + s.params.sync_interval) as u64, EventModel::Sync { node }),
        ),
        s.nodes[node as int].alive && s.params.loss_permille == 0 && peers(s, node, s.nodes.len()).len() > 0
            ==> exists|peer: usize|
            peers(s, node, s.nodes.len()).contains(peer) && #[trigger] under_way(
                synced(s, tick, node, stored).queue,
                node,
                peer,
                MsgModel::GetBlocks {
                    start: (s.nodes[node as int].chain.canonical.last().header.height + 1) as u64,
                },
                s.tick + s.params.latency_ticks.0,
                s.tick + s.params.latency_ticks.1,
            ),
{
    let again = (plus(tick, s.params.sync_interval), EventModel::Sync { node });
    let t = NetModel { queue: placed(s.queue, again.0, again.1), ..s };
    lemma_placed_content(s.queue, again.0, again.1, again);
    let n = s.nodes[node as int];
    let list = peers(s, node, s.nodes.len());
    if n.alive && list.len() > 0 {
        law_peers(s, node, s.nodes.len());
        let at = n.sync_counter as int % list.len() as int;
        let peer = list[at];
        assert(list.contains(peer));
        let m = asking(
            n,
            tick,
            stored,
            |x: NodeModel| top_height(s.nodes.update(node as int, x), s.nodes.len()),
        );
        let msg = MsgModel::GetBlocks { start: plus(n.chain.height(), 1) };
        let u = t.with_node(node, m);
        assert(u.nodes[peer as int] == s.nodes[peer as int]);
        law_sending(u, node, peer, msg);
        let asked = sent(u, node, peer, msg);
        law_sending(asked, node, peer, MsgModel::GetCheckpoints);
        let r = synced(s, tick, node, stored);
        assert(t.queue.contains(again));
        assert(asked.queue.contains(again));
        let lo = s.tick + s.params.latency_ticks.0;
        let hi = s.tick + s.params.latency_ticks.1;
        if s.params.loss_permille == 0 {
            assert(under_way(asked.queue, node, peer, msg, lo, hi));
            let when = choose|when: u64|
                lo <= when <= hi && #[trigger] asked.queue.contains(
                    (when, EventModel::Deliver { from: node, to: peer, msg, copy: 0 }),
                );
            let x = (when, EventModel::Deliver { from: node, to: peer, msg, copy: 0 });
            assert(asked.queue.contains(x));
            assert(r.queue.contains(x));
            assert(under_way(r.queue, node, peer, msg, lo, hi));
        }
    }
}

/// What a node does before it asks: only one that is stuck for more than 40
/// rounds with 2048 parked blocks throws its chain away, and one that is as
/// high as any running node needs no parked block.
pub proof fn law_asking(n: NodeModel, tick: u64, stored: StoredState, top: spec_fn(NodeModel) -> u64)
    requires
        n.sync_counter < u64::MAX,
        n.stuck_rounds < u64::MAX,
    ensures
        ({
            let m = asking(n, tick, stored, top);
            let stuck = n.stuck_rounds > 40 && n.parked.len() >= 2048;
            &&& !stuck ==> m.chain == n.chain && m.mempool == n.mempool && m.guard == n.guard && m.sync_counter
                == n.sync_counter + 1
            &&& !stuck ==> m.parked == if n.chain.canonical.last().header.height >= top(
                NodeModel { sync_counter: (n.sync_counter + 1) as u64, ..n },
            ) {
                Map::empty()
            } else {
                n.parked
            }
            &&& stuck ==> m.chain == genesis_chain(n.chain.network) && m.guard == guard_of(stored)
                && m.mempool.len() == 0 && m.parked.len() == 0
            &&& m.alive == (n.alive || stuck)
            &&& m.parked.len() == 0 ==> m.stuck_rounds == 0
            &&& m.parked.len() > 0 ==> m.stuck_rounds == n.stuck_rounds + 1
            &&& m.pk == n.pk && m.seed == n.seed
        }),
{
    assert(Map::<Digest, BlockModel>::empty().len() == 0);
}

// ---- Production ------------------------------------------------------------------

/// The first of some numbers is the least.
pub proof fn law_first_of(n: nat, among: spec_fn(int) -> bool)
    ensures
        match first_of(n, among) {
            Some(i) => 0 <= i < n && among(i) && forall|j: int| 0 <= j < i ==> !#[trigger] among(j),
            None => forall|j: int| 0 <= j < n ==> !#[trigger] among(j),
        },
    decreases n,
{
    if n > 0 {
        law_first_of((n - 1) as nat, among);
    }
}

/// Some running node of a group is the front, if one runs at all.
proof fn lemma_front(s: NetModel, group: usize, n: nat) -> (i: int)
    requires
        n <= s.nodes.len(),
        exists|j: int| 0 <= j < n && #[trigger] may_produce(s, group, None, j),
    ensures
        0 <= i < n,
        may_produce(s, group, None, i),
        forall|j: int| 0 <= j < n && #[trigger] may_produce(s, group, None, j) ==> is_ahead(s, i, j),
    decreases n,
{
    let last = n - 1;
    if exists|j: int| 0 <= j < last && #[trigger] may_produce(s, group, None, j) {
        let i = lemma_front(s, group, (n - 1) as nat);
        if may_produce(s, group, None, last) && !is_ahead(s, i, last) {
            last
        } else {
            i
        }
    } else {
        last
    }
}

/// The front of a group is a running node of it with the highest chain, and
/// the first of those; there is none only if none of the group runs.
pub proof fn law_front(s: NetModel, group: usize)
    ensures
        match front(s, group) {
            Some(i) => {
                &&& 0 <= i < s.nodes.len() && s.groups[i] == group && s.nodes[i].alive
                &&& forall|j: int|
                    0 <= j < s.nodes.len() && s.groups[j] == group && (#[trigger] s.nodes[j]).alive ==> {
                        let mine = s.nodes[i].chain.canonical.last().header.height;
                        let theirs = s.nodes[j].chain.canonical.last().header.height;
                        mine > theirs || (mine == theirs && i <= j)
                    }
            },
            None => forall|j: int|
                0 <= j < s.nodes.len() && s.groups[j] == group ==> !(#[trigger] s.nodes[j]).alive,
        },
{
    if exists|j: int| 0 <= j < s.nodes.len() && #[trigger] may_produce(s, group, None, j) {
        let w = lemma_front(s, group, s.nodes.len());
        assert(is_front(s, group, w));
        let i = front(s, group)->0;
        assert(is_front(s, group, i));
        assert forall|j: int| 0 <= j < s.nodes.len() && s.groups[j] == group && (#[trigger] s.nodes[j]).alive implies {
            let mine = s.nodes[i].chain.canonical.last().header.height;
            let theirs = s.nodes[j].chain.canonical.last().header.height;
            mine > theirs || (mine == theirs && i <= j)
        } by {
            assert(may_produce(s, group, None, j));
        }
    } else {
        assert forall|j: int| 0 <= j < s.nodes.len() && s.groups[j] == group implies !(
        #[trigger] s.nodes[j]).alive by {
            assert(!may_produce(s, group, None, j));
        }
        if front(s, group) is Some {
            let i = choose|i: int| is_front(s, group, i);
            assert(may_produce(s, group, None, i));
        }
    }
}

/// Whoever produces runs, is of the group, and is as high as any running node
/// of it once there is a finalized checkpoint. Its block is ten seconds per
/// height from the start, of the waiting transactions that pass, and none
/// waits any longer.
pub proof fn law_producers(
    s: NetModel,
    group: usize,
    committee: Seq<PublicKey>,
    allowed: Seq<Seq<PublicKey>>,
)
    requires
        s.nodes.len() <= usize::MAX,
    ensures
        next_producer(s, group, committee, allowed) matches Some((i, standing_in)) ==> {
            let top = front(s, group)->0;
            let height = s.nodes[top].chain.canonical.last().header.height;
            let (t, tasks) = production_begun(s, group, committee, allowed);
            &&& 0 <= i < s.nodes.len() && s.groups[i] == group && s.nodes[i].alive
            &&& s.nodes[top].chain.finalized is None ==> i == 0 && !standing_in
            &&& s.nodes[top].chain.finalized is Some ==> s.nodes[i].chain.canonical.last().header.height == height
            &&& s.nodes[top].chain.finalized is Some && !standing_in ==> committee.contains(s.nodes[i].pk)
            &&& standing_in ==> s.tick >= s.nodes[top].last_progress_tick + 2 * s.params.produce_interval && (
            allowed[i].len() == 0 || allowed[i].contains(s.nodes[i].pk))
            &&& t.nodes[i].mempool.len() == 0 && t.nodes[i].chain == s.nodes[i].chain
            &&& forall|j: int| 0 <= j < s.nodes.len() && j != i ==> #[trigger] t.nodes[j] == s.nodes[j]
            &&& tasks.len() == 1
            &&& tasks[0] matches TaskModel::Build { node, timestamp, txs } && node == i && txs == screened(
                s.nodes[i].chain,
                s.nodes[i].mempool,
            ).1 && ((height + 1) * 10 <= u64::MAX ==> timestamp == (height + 1) * 10)
        },
        next_producer(s, group, committee, allowed) is None ==> production_begun(s, group, committee, allowed).0 == s
            && production_begun(s, group, committee, allowed).1.len() == 0,
{
    if let Some(top) = front(s, group) {
        law_first_of(s.nodes.len(), |i: int| is_leader(s, group, committee, top, i));
        law_first_of(s.nodes.len(), |i: int| can_stand_in(s, group, allowed, top, i));
        if let Some((i, standing_in)) = next_producer(s, group, committee, allowed) {
            if s.nodes[top].chain.finalized is Some && !standing_in {
                assert(is_leader(s, group, committee, top, i));
                let at = plus(s.nodes[top].chain.height(), 1) as int % committee.len() as int;
                assert(committee[at] == s.nodes[i].pk);
            }
            if standing_in {
                assert(can_stand_in(s, group, allowed, top, i));
            }
        }
    }
}

/// A group list holds exactly the groups of the nodes, ascending.
pub proof fn law_groups(groups: Seq<usize>)
    ensures
        forall|g: usize| #[trigger] group_list(groups).contains(g) <==> groups.contains(g),
        forall|a: int, b: int|
            0 <= a < b < group_list(groups).len() ==> #[trigger] group_list(groups)[a] < #[trigger] group_list(groups)[b],
    decreases groups.len(),
{
    if groups.len() > 0 {
        let head = groups.drop_last();
        law_groups(head);
        lemma_with_group(group_list(head), groups.last());
        assert forall|g: usize| groups.contains(g) <==> head.contains(g) || g == groups.last() by {
            assert(groups[groups.len() - 1] == groups.last());
            if head.contains(g) {
                let i = choose|i: int| 0 <= i < head.len() && head[i] == g;
                assert(groups[i] == g);
            }
            if groups.contains(g) {
                let i = choose|i: int| 0 <= i < groups.len() && groups[i] == g;
                if i < head.len() {
                    assert(head[i] == g);
                }
            }
        }
    }
}

/// A list with one more group.
proof fn lemma_with_group(list: Seq<usize>, g: usize)
    requires
        forall|a: int, b: int| 0 <= a < b < list.len() ==> #[trigger] list[a] < #[trigger] list[b],
    ensures
        forall|x: usize| #[trigger] with_group(list, g).contains(x) <==> list.contains(x) || x == g,
        forall|a: int, b: int|
            0 <= a < b < with_group(list, g).len() ==> #[trigger] with_group(list, g)[a] < #[trigger] with_group(
                list,
                g,
            )[b],
    decreases list.len(),
{
    let all = with_group(list, g);
    if list.len() == 0 || list.last() < g {
        assert(all == list.push(g));
        assert(all[list.len() as int] == g);
        assert forall|x: usize| #[trigger] all.contains(x) <==> list.contains(x) || x == g by {
            if list.contains(x) {
                let i = choose|i: int| 0 <= i < list.len() && list[i] == x;
                assert(all[i] == x);
            }
        }
    } else if list.last() == g {
        assert(list[list.len() - 1] == g);
    } else {
        let head = list.drop_last();
        lemma_with_group(head, g);
        let rest = with_group(head, g);
        let last = list.last();
        assert(all == rest.push(last));
        assert(all[rest.len() as int] == last);
        assert(list[list.len() - 1] == last);
        assert forall|x: usize| #[trigger] all.contains(x) <==> list.contains(x) || x == g by {
            if all.contains(x) {
                let i = choose|i: int| 0 <= i < all.len() && all[i] == x;
                if i < rest.len() {
                    assert(rest[i] == x);
                    assert(rest.contains(x));
                    if head.contains(x) {
                        let k = choose|k: int| 0 <= k < head.len() && head[k] == x;
                        assert(list[k] == x);
                    }
                }
            }
            if list.contains(x) {
                let k = choose|k: int| 0 <= k < list.len() && list[k] == x;
                if k < head.len() {
                    assert(head[k] == x);
                    assert(rest.contains(x));
                    let i = choose|i: int| 0 <= i < rest.len() && rest[i] == x;
                    assert(all[i] == x);
                }
            }
            if x == g {
                assert(rest.contains(g));
                let i = choose|i: int| 0 <= i < rest.len() && rest[i] == g;
                assert(all[i] == g);
            }
        }
        assert forall|a: int, b: int| 0 <= a < b < all.len() implies #[trigger] all[a] < #[trigger] all[b] by {
            assert(rest.contains(rest[a]));
            if b < rest.len() {
                assert(all[b] == rest[b]);
            } else if head.contains(rest[a]) {
                let k = choose|k: int| 0 <= k < head.len() && head[k] == rest[a];
                assert(list[k] < list[list.len() - 1]);
            }
        }
    }
}

// ---- Blocks and votes on their way -------------------------------------------------

/// Handling a block, a batch, a parked block or a vote changes the node it is
/// for and no other, sends nothing by itself, and leaves groups and clock.
pub proof fn law_handlers_touch_one_node(
    s: NetModel,
    node: usize,
    j: int,
    b: BlockModel,
    blocks: Seq<BlockModel>,
    count: u64,
    done: usize,
    p: ProposalModel,
    keys: Seq<PublicKey>,
    lists: Seq<Seq<PublicKey>>,
    h: Digest,
    hashes: Seq<Digest>,
    quorum: usize,
)
    requires
        0 <= j < s.nodes.len(),
        j != node,
        node < s.nodes.len(),
    ensures
        ({
            let kept = |t: NetModel|
                t.nodes[j] == s.nodes[j] && t.nodes.len() == s.nodes.len() && t.groups == s.groups && t.tick == s.tick
                    && t.queue == s.queue && t.params == s.params && t.finalized == s.finalized;
            &&& kept(block_handled(s, node, b, lists).0)
            &&& kept(progress_noted(s, node, b).0)
            &&& kept(batch_pushed(s, node, blocks, done, keys).0)
            &&& kept(batch_adopted(s, node, blocks, lists).0)
            &&& kept(parked_pushed(s, node, count, keys).0)
            &&& kept(parked_adopted(s, node, count, lists).0)
            &&& kept(vote_held(s, node, p, keys).0)
            &&& kept(anchor_held(s, node, keys, h).0)
            &&& kept(votes_counted(s, node, hashes, keys, quorum).0)
        }),
{
}

/// What follows a block: an accepted one is progress and counts as accepted,
/// a parked one sets the parking going, and nothing follows any other.
pub proof fn law_offered_block_tasks(s: NetModel, node: usize, b: BlockModel, lists: Seq<Seq<PublicKey>>)
    requires
        node < s.nodes.len(),
        s.stats.blocks_accepted < u64::MAX,
    ensures
        ({
            let (n, out) = offered(s.nodes[node as int], b, lists);
            let (t, tasks) = block_handled(s, node, b, lists);
            &&& t.nodes[node as int] == n
            &&& out == BlockOutcome::Accepted <==> tasks == seq![TaskModel::Progress { node, block: b }]
            &&& t.stats.blocks_accepted == s.stats.blocks_accepted + (if out == BlockOutcome::Accepted {
                1int
            } else {
                0int
            })
            &&& (out == BlockOutcome::ParkedKnown || out == BlockOutcome::ParkedOrphan) <==> tasks == seq![
                TaskModel::Drain { node, count: 0 },
            ]
            &&& out matches BlockOutcome::Rejected(k) ==> tasks.len() == 0 && t.rejections == tallied(s.rejections, k)
            &&& !(out is Rejected) ==> t.rejections == s.rejections
        }),
{
    let (n, out) = offered(s.nodes[node as int], b, lists);
    let (t, tasks) = block_handled(s, node, b, lists);
    let one = seq![TaskModel::Progress { node, block: b }];
    let two = seq![TaskModel::Drain { node, count: 0 }];
    assert(one[0] != two[0]);
    assert(one.len() == 1 && two.len() == 1 && Seq::<TaskModel>::empty().len() == 0);
}

/// What follows progress: the transactions of the block wait no longer, the
/// node's tip is archived under its height, and a checkpoint round and the
/// announcement of the block come next.
pub proof fn law_progress_tasks(s: NetModel, node: usize, b: BlockModel)
    requires
        node < s.nodes.len(),
    ensures
        ({
            let (t, tasks) = progress_noted(s, node, b);
            let tip = s.nodes[node as int].chain.canonical.last();
            &&& t.nodes[node as int] == progressed(s.nodes[node as int], s.tick, b.txs)
            &&& t.archive == s.archive.insert(tip.header.height, tip)
            &&& tasks.len() == 2
            &&& tasks[0] == TaskModel::Anchor { node }
            &&& tasks[1] == TaskModel::Announce { node, msg: MsgModel::Block(b) }
        }),
{
    law_progress(s.nodes[node as int], s.tick, b.txs);
}

/// No block of a batch is lost: those that were pushed are progress, in
/// order, and the rest is offered as one branch; a branch that loses is
/// offered block by block.
pub proof fn law_batches(
    s: NetModel,
    node: usize,
    blocks: Seq<BlockModel>,
    done: usize,
    producers: Seq<PublicKey>,
    lists: Seq<Seq<PublicKey>>,
)
    requires
        done <= blocks.len() < usize::MAX,
        node < s.nodes.len(),
    ensures
        ({
            let taken = done < blocks.len() && extended_by(s.nodes[node as int], blocks[done as int], producers).1;
            let tasks = batch_pushed(s, node, blocks, done, producers).1;
            &&& taken ==> tasks.len() == 1 && tasks[0] == TaskModel::SyncPush {
                node,
                blocks,
                done: (done + 1) as usize,
            }
            &&& !taken ==> {
                &&& tasks.len() == done + (if done < blocks.len() {
                    1int
                } else {
                    0int
                })
                &&& forall|i: int|
                    0 <= i < done ==> #[trigger] tasks[i] == TaskModel::Progress { node, block: blocks[i] }
                &&& done < blocks.len() ==> (tasks[done as int] matches TaskModel::SyncAdopt { node: n, blocks: rest }
                    && n == node && rest == blocks.subrange(done as int, blocks.len() as int))
            }
        }),
        ({
            let won = adopted(s.nodes[node as int].chain, blocks, lists).1;
            let tasks = batch_adopted(s, node, blocks, lists).1;
            &&& tasks.len() == blocks.len()
            &&& forall|i: int|
                0 <= i < blocks.len() ==> #[trigger] tasks[i] == if won {
                    TaskModel::Progress { node, block: blocks[i] }
                } else {
                    TaskModel::Block { node, block: blocks[i] }
                }
        }),
{
    assert(blocks.skip(done as int) =~= blocks.subrange(done as int, blocks.len() as int));
    assert(blocks.take(blocks.len() as int) =~= blocks);
}

/// A block of a batch is pushed only on the tip, at the next height.
pub proof fn law_batch_blocks_extend_the_tip(n: NodeModel, b: BlockModel, producers: Seq<PublicKey>)
    requires
        n.chain.laid_out(),
    ensures
        extended_by(n, b, producers).1 <==> b.header.prev_hash == n.chain.tip && b.header.height
            == n.chain.canonical.last().header.height + 1 && tried(n.chain, b, producers).1 is None,
        extended_by(n, b, producers).1 ==> extended_by(n, b, producers).0.chain.canonical.last() == b,
        extended_by(n, b, producers).0 == (NodeModel { chain: extended_by(n, b, producers).0.chain, ..n }),
{
    reveal(tried);
    if fits_tip(n.chain, b) && tried(n.chain, b, producers).1 is None {
        lemma_extended_layout(n.chain, b, open_pre(b.txs));
    }
}

/// The last blocks of a chain are those at its highest heights, in order.
pub proof fn law_last_blocks(m: ChainModel, count: u64)
    requires
        count <= m.canonical.last().header.height < u64::MAX,
        forall|h: u64|
            m.canonical.last().header.height - count < h <= m.canonical.last().header.height ==> (
            #[trigger] m.block(h)) is Some,
    ensures
        last_blocks(m, count).len() == count,
        forall|i: int|
            0 <= i < count ==> Some(#[trigger] last_blocks(m, count)[i]) == m.block(
                (m.canonical.last().header.height + 1 - count + i) as u64,
            ),
{
    if count > 0 {
        let start = (m.height() + 1 - count) as u64;
        assert forall|i: int| 0 <= i < count implies #[trigger] m.block((start + i) as u64) is Some by {}
        lemma_held(m, start, count as nat);
    }
}

/// The parking is tried until nothing moves: a pushed block asks for another
/// try, the end for a look at the branches, and after any change there the
/// parking is tried again.
pub proof fn law_parking_tasks(
    s: NetModel,
    node: usize,
    count: u64,
    producers: Seq<PublicKey>,
    lists: Seq<Seq<PublicKey>>,
)
    requires
        node < s.nodes.len(),
        count < u64::MAX,
    ensures
        ({
            let moved = drained(s.nodes[node as int], producers).1;
            let tasks = parked_pushed(s, node, count, producers).1;
            &&& moved ==> tasks.len() == 1 && tasks[0] == TaskModel::Drain { node, count: (count + 1) as u64 }
            &&& !moved ==> tasks.len() >= 1 && tasks[tasks.len() - 1] == TaskModel::Adopt { node, drained: count }
        }),
        ({
            let branch = readopted(s.nodes[node as int], lists).1;
            let tasks = parked_adopted(s, node, count, lists).1;
            &&& branch matches Some(b) ==> tasks.len() == b.len() + 1 && tasks[b.len() as int] == TaskModel::Drain {
                node,
                count: 0,
            } && forall|i: int| 0 <= i < b.len() ==> #[trigger] tasks[i] == TaskModel::Progress { node, block: b[i] }
            &&& branch is None && count == 0 ==> tasks.len() == 0
            &&& branch is None && count > 0 ==> tasks.len() == 1 && tasks[0] == TaskModel::Drain { node, count: 0 }
        }),
{
}

/// News of a checkpoint is passed on and voted on, and votes are counted
/// whatever came. A cast vote goes out with the node's own signature in it.
pub proof fn law_checkpoint_tasks(
    s: NetModel,
    node: usize,
    p: ProposalModel,
    signature: Signature,
    alone: bool,
)
    requires
        node < s.nodes.len(),
    ensures
        ({
            let (n, news) = merged(s.nodes[node as int], p);
            let (t, tasks) = proposal_handled(s, node, p);
            &&& tasks[tasks.len() - 1] == TaskModel::Finalize { node }
            &&& news is None ==> t.queue == s.queue && tasks.len() == 1
            &&& news matches Some(a) ==> t == gossiped(s.with_node(node, n), node, MsgModel::Checkpoint(a))
                && tasks.len() == 2 && tasks[0] == TaskModel::Vote { node, proposal: p }
        }),
        ({
            let n = cast(s.nodes[node as int], p, signature);
            let (t, tasks) = vote_released(s, node, p, signature, alone, true);
            let list = if alone {
                seq![(s.nodes[node as int].pk, signature)]
            } else {
                sig_list(n.pending[p.signing_hash].1)
            };
            &&& t == gossiped(
                s.with_node(node, n),
                node,
                MsgModel::Checkpoint(
                    ProposalModel { data: p.data, signing_hash: p.signing_hash, signatures: list },
                ),
            )
            &&& tasks.len() == 1 && tasks[0] == TaskModel::Finalize { node }
        }),
{
}

/// A checkpoint that a node takes is recorded under its epoch and passed on;
/// after one that it refuses the next content is counted.
pub proof fn law_sealed_checkpoints(
    s: NetModel,
    node: usize,
    cp: CheckpointModel,
    tally: Tally,
    next_seed: Digest,
    hashes: Seq<Digest>,
)
    requires
        node < s.nodes.len(),
        s.params.usable(),
        s.params.loss_permille == 0,
        s.tick + s.params.latency_ticks.1 + 8 <= u64::MAX,
        s.nodes.len() <= usize::MAX,
    ensures
        ({
            let (n, taken) = sealed(s.nodes[node as int], cp, tally, next_seed);
            let (t, tasks) = checkpoint_sealed(s, node, cp, tally, next_seed, hashes);
            &&& t.nodes == s.nodes.update(node as int, n)
            &&& taken ==> tasks.len() == 0
            &&& taken ==> t == gossiped(
                NetModel {
                    stats: SimStats { checkpoints_finalized: plus(s.stats.checkpoints_finalized, 1), ..s.stats },
                    finalized: s.finalized.insert((cp.data.epoch, cp.signing_hash)),
                    ..s.with_node(node, n)
                },
                node,
                MsgModel::Checkpoint(
                    ProposalModel { data: cp.data, signing_hash: cp.signing_hash, signatures: cp.signatures },
                ),
            )
            &&& !taken ==> t.queue == s.queue && t.finalized == s.finalized
            &&& !taken && hashes.len() > 0 ==> tasks.len() == 1 && tasks[0] == TaskModel::Count { node, hashes }
        }),
{
    let (n, taken) = sealed(s.nodes[node as int], cp, tally, next_seed);
    let t = finality_recorded(s.with_node(node, n), cp.data.epoch, cp.signing_hash);
    let msg = MsgModel::Checkpoint(proposal_of(cp));
    lemma_spread(t, node, msg, t.nodes.len(), node);
}

// ---- Groups and the start -----------------------------------------------------------

/// Assigning some members to a group.
proof fn lemma_assigned(groups: Seq<usize>, members: Seq<usize>, g: usize, i: int)
    requires
        0 <= i < groups.len() <= usize::MAX,
        forall|k: int| 0 <= k < members.len() ==> #[trigger] members[k] < groups.len(),
    ensures
        assigned(groups, members, g).len() == groups.len(),
        assigned(groups, members, g)[i] == if members.contains(i as usize) {
            g
        } else {
            groups[i]
        },
    decreases members.len(),
{
    if members.len() > 0 {
        let front = members.drop_last();
        assert forall|k: int| 0 <= k < front.len() implies #[trigger] front[k] < groups.len() by {
            assert(members[k] < groups.len());
        }
        lemma_assigned(groups, front, g, i);
        assert(members[members.len() - 1] == members.last());
        if front.contains(i as usize) {
            let k = choose|k: int| 0 <= k < front.len() && front[k] == i as usize;
            assert(members[k] == i as usize);
        }
        if members.contains(i as usize) {
            let k = choose|k: int| 0 <= k < members.len() && members[k] == i as usize;
            if k < front.len() {
                assert(front[k] == i as usize);
            }
        }
    }
}

/// After a partition a node is in the group of the last part that lists it,
/// and cut off if none does.
pub proof fn law_partition(n: nat, parts: Seq<Seq<usize>>, i: int)
    requires
        0 <= i < n <= usize::MAX,
        parts.len() < usize::MAX,
        forall|g: int, k: int| 0 <= g < parts.len() && 0 <= k < parts[g].len() ==> #[trigger] parts[g][k] < n,
    ensures
        partitioned(n, parts).len() == n,
        (forall|g: int| 0 <= g < parts.len() ==> !(#[trigger] parts[g]).contains(i as usize)) ==> partitioned(
            n,
            parts,
        )[i] == usize::MAX,
        forall|g: int|
            0 <= g < parts.len() && (#[trigger] parts[g]).contains(i as usize) && (forall|k: int|
                g < k < parts.len() ==> !(#[trigger] parts[k]).contains(i as usize)) ==> partitioned(n, parts)[i] == g,
    decreases parts.len(),
{
    if parts.len() > 0 {
        let front = parts.drop_last();
        let last = parts.len() - 1;
        assert forall|g: int, k: int| 0 <= g < front.len() && 0 <= k < front[g].len() implies #[trigger] front[g][k]
            < n by {
            assert(parts[g][k] < n);
        }
        law_partition(n, front, i);
        assert forall|k: int| 0 <= k < parts.last().len() implies #[trigger] parts.last()[k] < n by {
            assert(parts[last][k] < n);
        }
        lemma_assigned(partitioned(n, front), parts.last(), last as usize, i);
        assert(parts[last] == parts.last());
        assert forall|g: int| 0 <= g < last implies #[trigger] front[g] == parts[g] by {}
        if forall|g: int| 0 <= g < parts.len() ==> !(#[trigger] parts[g]).contains(i as usize) {
            assert forall|g: int| 0 <= g < front.len() implies !(#[trigger] front[g]).contains(i as usize) by {
                assert(!parts[g].contains(i as usize));
            }
        }
        assert forall|g: int|
            0 <= g < parts.len() && (#[trigger] parts[g]).contains(i as usize) && (forall|k: int|
                g < k < parts.len() ==> !(#[trigger] parts[k]).contains(i as usize)) implies partitioned(n, parts)[i]
            == g by {
            if g < last {
                assert(!parts[last].contains(i as usize));
                assert(front[g].contains(i as usize));
                assert forall|k: int| g < k < front.len() implies !(#[trigger] front[k]).contains(i as usize) by {
                    assert(!parts[k].contains(i as usize));
                }
            }
        }
    }
}

/// A network starts with a production round at tick 10 and, for each node, a
/// request for blocks at tick 25 and five ticks later for each that follows.
pub proof fn law_first_events(n: nat, i: nat)
    requires
        n <= 1_000_000,
        i < n,
    ensures
        first_events(n).len() == n + 1,
        first_events(n).contains((10u64, EventModel::ProduceRound)),
        first_events(n).contains(((25 + 5 * i) as u64, EventModel::Sync { node: i as usize })),
{
    lemma_first_events(n, i);
}

/// The first events of the first nodes.
proof fn lemma_first_events(n: nat, i: nat)
    requires
        n <= 1_000_000,
    ensures
        first_events(n).len() == n + 1,
        first_events(n).contains((10u64, EventModel::ProduceRound)),
        i < n ==> first_events(n).contains(((25 + 5 * i) as u64, EventModel::Sync { node: i as usize })),
    decreases n,
{
    let round = (10u64, EventModel::ProduceRound);
    let mine = ((25 + 5 * i) as u64, EventModel::Sync { node: i as usize });
    if n == 0 {
        lemma_placed_content(Seq::empty(), 10, EventModel::ProduceRound, round);
    } else {
        let m = (n - 1) as nat;
        lemma_first_events(m, i);
        let q = first_events(m);
        let at = plus(25, times_five(m));
        let e = EventModel::Sync { node: m as usize };
        lemma_placed_content(q, at, e, round);
        lemma_placed_content(q, at, e, mine);
    }
}

/// Each refusal raises the count of its kind by one and no other.
pub proof fn law_tally(m: Map<RejectKind, usize>, k: RejectKind, j: RejectKind)
    requires
        m[k] < usize::MAX,
    ensures
        tallied(m, k)[k] == m[k] + 1,
        j != k ==> tallied(m, k)[j] == m[j],
{
}

/// Refusals are counted by what was broken: each kind stands for one error,
/// but for those of owners, which count together for domains and namespaces.
pub proof fn law_kinds_of_refusals(e: BlockchainError)
    ensures
        kind_of(e) == RejectKind::TxReplay <==> e is TxReplay,
        kind_of(e) == RejectKind::DomainAlreadyRegistered <==> e is DomainAlreadyRegistered,
        kind_of(e) == RejectKind::InvalidSequence <==> e is InvalidSequence,
        kind_of(e) == RejectKind::NotOwner <==> e is NotOwner || e is NotTldOwner,
        kind_of(e) == RejectKind::UnknownDomain <==> e is UnknownDomain,
        kind_of(e) == RejectKind::UnknownTld <==> e is UnknownTld,
        kind_of(e) == RejectKind::TldClosed <==> e is TldClosed,
        kind_of(e) == RejectKind::TldAlreadyRegistered <==> e is TldAlreadyRegistered,
        kind_of(e) == RejectKind::UnknownParent <==> e is UnknownParent,
        kind_of(e) == RejectKind::ParentNotTip <==> e is ParentNotTip,
        kind_of(e) == RejectKind::InvalidProducer <==> e is InvalidProducer,
        kind_of(e) == RejectKind::BlockPruned <==> e is BlockPruned,
        kind_of(e) == RejectKind::InvalidSignature <==> e is InvalidSignature,
{
}

// ---- Rounds ------------------------------------------------------------------------

/// A production round asks each group of nodes once, in ascending order, and
/// is followed by another one after the interval; a network that does not
/// produce holds none.
pub proof fn law_rounds(s: NetModel, tick: u64)
    requires
        tick + s.params.produce_interval <= u64::MAX,
    ensures
        ({
            let (t, tasks) = round_begun(s, tick);
            let groups = group_list(s.groups);
            &&& !s.producing ==> t == s && tasks.len() == 0
            &&& s.producing ==> {
                &&& t.queue.contains(((tick + s.params.produce_interval) as u64, EventModel::ProduceRound))
                &&& t.queue.len() == s.queue.len() + 1
                &&& t.nodes == s.nodes
                &&& tasks.len() == groups.len()
                &&& forall|i: int|
                    0 <= i < groups.len() ==> #[trigger] tasks[i] == TaskModel::Produce { group: groups[i] }
            }
        }),
{
    let again = (plus(tick, s.params.produce_interval), EventModel::ProduceRound);
    lemma_placed_content(s.queue, again.0, again.1, again);
}

/// A built block is progress and is counted; a refused one is tried again
/// with the same transactions but the last, until none is left.
pub proof fn law_building(
    s: NetModel,
    node: usize,
    timestamp: u64,
    txs: Seq<TxModel>,
    signing: Result<Seq<u8>, ProtocolError>,
    encoding: Result<Seq<u8>, ProtocolError>,
    producers: Seq<PublicKey>,
)
    requires
        node < s.nodes.len(),
        s.stats.blocks_produced < u64::MAX,
    ensures
        ({
            let (n, out) = attempted(s.nodes[node as int], timestamp, txs, signing, encoding, producers);
            let (t, tasks) = block_built(s, node, timestamp, txs, signing, encoding, producers);
            &&& t.nodes == s.nodes.update(node as int, n)
            &&& t.queue == s.queue
            &&& out matches AttemptModel::Produced(b) ==> tasks == seq![TaskModel::Progress { node, block: b }]
                && t.stats.blocks_produced == s.stats.blocks_produced + 1
            &&& out is NotBuilt ==> tasks.len() == 0
            &&& !(out is Produced) ==> t.stats.blocks_produced == s.stats.blocks_produced
            &&& out is Refused && txs.len() == 0 ==> tasks.len() == 0
            &&& out is Refused && txs.len() > 0 ==> tasks.len() == 1 && (tasks[0] matches TaskModel::Build {
                node: i,
                timestamp: at,
                txs: rest,
            } && i == node && at == timestamp && rest == txs.take(txs.len() - 1))
        }),
{
    if txs.len() > 0 {
        assert(txs.drop_last() =~= txs.take(txs.len() - 1));
    }
}

/// A node that is asked for checkpoints answers with all that it has, oldest
/// first, with their signatures; with none it does not answer.
pub proof fn law_served_checkpoints(s: NetModel, server: usize, to: usize)
    requires
        s.nodes[server as int].chain.checkpoints.len() <= 64,
    ensures
        ({
            let list = s.nodes[server as int].chain.checkpoints;
            let t = checkpoints_served(s, server, to);
            &&& list.len() == 0 ==> t == s
            &&& list.len() > 0 ==> exists|reply: Seq<ProposalModel>|
                {
                    &&& reply.len() == list.len()
                    &&& forall|i: int|
                        0 <= i < list.len() ==> (#[trigger] reply[i]).data == list[i].data && reply[i].signing_hash
                            == list[i].signing_hash && reply[i].signatures == list[i].signatures
                    &&& t == #[trigger] sent(s, server, to, MsgModel::Checkpoints(reply))
                }
        }),
{
    let list = s.nodes[server as int].chain.checkpoints;
    let reply = list.map_values(|c: CheckpointModel| proposal_of(c));
    if list.len() > 0 {
        assert(checkpoints_served(s, server, to) == sent(s, server, to, MsgModel::Checkpoints(reply)));
    }
}

/// A node without the blocks in memory answers with the archived ones, those
/// that there are, in order of their heights.
pub proof fn law_archived_blocks(archive: Map<u64, BlockModel>, start: u64, n: nat)
    requires
        start + n <= u64::MAX,
    ensures
        (forall|i: int| 0 <= i < n ==> #[trigger] archive.contains_key((start + i) as u64)) ==> archived(
            archive,
            start,
            n,
        ).len() == n && forall|i: int|
            0 <= i < n ==> #[trigger] archived(archive, start, n)[i] == archive[(start + i) as u64],
        forall|b: BlockModel| #[trigger]
            archived(archive, start, n).contains(b) ==> exists|i: int|
                0 <= i < n && #[trigger] archive.contains_key((start + i) as u64) && b == archive[(start + i) as u64],
    decreases n,
{
    if n > 0 {
        let m = (n - 1) as nat;
        law_archived_blocks(archive, start, m);
        let last = n - 1;
        let rest = archived(archive, start, m);
        let all = archived(archive, start, n);
        if forall|i: int| 0 <= i < n ==> #[trigger] archive.contains_key((start + i) as u64) {
            assert(archive.contains_key((start + last) as u64));
            assert forall|i: int| 0 <= i < m implies #[trigger] archive.contains_key((start + i) as u64) by {}
            assert(all == rest.push(archive[(start + last) as u64]));
        }
        assert forall|b: BlockModel| #[trigger] all.contains(b) implies exists|i: int|
            0 <= i < n && #[trigger] archive.contains_key((start + i) as u64) && b == archive[(start + i) as u64] by {
            let j = choose|j: int| 0 <= j < all.len() && all[j] == b;
            if j < rest.len() {
                assert(rest[j] == b);
                assert(rest.contains(b));
                let i = choose|i: int|
                    0 <= i < m && #[trigger] archive.contains_key((start + i) as u64) && b == archive[(start
                        + i) as u64];
                assert(archive.contains_key((start + i) as u64));
            } else {
                assert(archive.contains_key((start + last) as u64));
            }
        }
    }
}

/// The next event is the first of the queue, and leaves it. What is for a
/// node that does not run is dropped; a node whose turn it is asks for blocks.
pub proof fn law_next_event(s: NetModel)
    requires
        s.queue.len() > 0,
    ensures
        s.queue[0].1 matches EventModel::Submit { node, .. } && !s.nodes[node as int].alive ==> stepped(s).0.nodes
            == s.nodes && stepped(s).0.queue == s.queue.subrange(1, s.queue.len() as int),
        s.queue[0].1 matches EventModel::Deliver { to, .. } && !s.nodes[to as int].alive ==> stepped(s).0.nodes
            == s.nodes && stepped(s).0.queue == s.queue.subrange(1, s.queue.len() as int) && stepped(s).1.len() == 0,
        s.queue[0].1 matches EventModel::Sync { node } ==> stepped(s).1 == seq![
            TaskModel::Sync { tick: s.queue[0].0, node },
        ] && stepped(s).0.queue == s.queue.subrange(1, s.queue.len() as int),
{
    assert(s.queue.skip(1) =~= s.queue.subrange(1, s.queue.len() as int));
}

/// A crash loses all that a node holds in memory and nothing of what is its
/// own: its key, and its guard.
pub proof fn law_crash(n: NodeModel)
    ensures
        ({
            let c = crashed(n);
            &&& !c.alive
            &&& c.pk == n.pk && c.seed == n.seed && c.guard == n.guard
            &&& c.chain == genesis_chain(n.chain.network)
            &&& c.mempool.len() == 0
            &&& c.parked.dom() == Set::<Digest>::empty() && c.pending.dom() == Set::<Digest>::empty()
            &&& c.epoch_committed.dom() == Set::<u64>::empty()
            &&& c.seen_blocks == Set::<Digest>::empty() && c.seen_txs == Set::<Digest>::empty() && c.signed_cps
                == Set::<Digest>::empty()
            &&& c.last_progress_tick == 0 && c.sync_counter == 0 && c.stuck_rounds == 0
        }),
{
}

/// A network has converged exactly if any two running nodes agree on height,
/// tip and state root.
pub proof fn law_convergence(s: NetModel)
    ensures
        has_converged(s) <==> forall|i: int, j: int|
            0 <= i < s.nodes.len() && 0 <= j < s.nodes.len() && (#[trigger] s.nodes[i]).alive && (
            #[trigger] s.nodes[j]).alive ==> {
                let (a, b) = (s.nodes[i].chain, s.nodes[j].chain);
                a.canonical.last().header.height == b.canonical.last().header.height && a.tip == b.tip
                    && smt_state_root(a.state.leaves) == smt_state_root(b.state.leaves)
            },
{
    if has_converged(s) {
        assert forall|i: int, j: int|
            0 <= i < s.nodes.len() && 0 <= j < s.nodes.len() && (#[trigger] s.nodes[i]).alive && (
            #[trigger] s.nodes[j]).alive implies {
            let (a, b) = (s.nodes[i].chain, s.nodes[j].chain);
            a.canonical.last().header.height == b.canonical.last().header.height && a.tip == b.tip
                && smt_state_root(a.state.leaves) == smt_state_root(b.state.leaves)
        } by {
            assert(summary(s.nodes[i]) == summary(s.nodes[j]));
        }
    }
}

/// A new network runs all its nodes, in one group, each at the genesis with
/// nothing waiting, and produces.
pub proof fn law_fresh_network(params: SimParams, p: NetworkModel, i: int)
    requires
        0 <= i < params.nodes,
    ensures
        ({
            let s = fresh_net(params, p);
            let n = s.nodes[i];
            &&& s.nodes.len() == params.nodes && s.groups.len() == params.nodes && s.groups[i] == 0
            &&& s.producing && s.tick == 0 && s.steps == 0 && s.send_seq == 0 && s.params == params
            &&& s.finalized == Set::<(u64, Digest)>::empty() && s.archive.dom() == Set::<u64>::empty()
            &&& n.alive && n.chain == genesis_chain(p) && n.mempool.len() == 0
            &&& n.parked.dom() == Set::<Digest>::empty() && n.pending.dom() == Set::<Digest>::empty()
            &&& n.pk == digest_of(ed25519_public(n.seed))
            &&& forall|k: RejectKind| #[trigger] s.rejections[k] == 0
        }),
{
}

} // verus!

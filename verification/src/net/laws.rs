//! Laws of the network: what every run of it keeps.
use vstd::prelude::*;
use crate::block_hash::hash_of_header;
use crate::chain_model::ChainModel;
use crate::error::BlockchainError;
use crate::ids::Digest;
use crate::ids::PublicKey;
use crate::ids::Signature;
use crate::ids::ordinal;
use crate::net::NetModel;
use crate::net::TaskModel;
use crate::net::blocks::block_handled;
use crate::net::law_gossip_changes_no_node;
use crate::net::rounds::can_stand_in;
use crate::net::rounds::first_of;
use crate::net::rounds::front;
use crate::net::rounds::idle;
use crate::net::rounds::is_leader;
use crate::net::rounds::leader;
use crate::net::rounds::next_producer;
use crate::net::rounds::stand_in;
use crate::net::rounds::stepped;
use crate::net::tx_reached;
use crate::node::MEMPOOL_CAP;
use crate::node::NodeModel;
use crate::node::blocks::drained;
use crate::node::blocks::readopted;
use crate::node::blocks::unparked;
use crate::node::offered;
use crate::node::received;
use crate::node::votes::PENDING_CP_CAP;
use crate::node::votes::ProposalModel;
use crate::node::votes::capped;
use crate::node::votes::collected_at;
use crate::node::votes::is_finalized;
use crate::node::votes::is_ours;
use crate::node::votes::merged;
use crate::node::votes::more_sigs;
use crate::parking::PARKED_CAP;
use crate::parking::best_branch;
use crate::parking::forebear;
use crate::parking::is_best_parked;
use crate::parking::is_lowest;
use crate::parking::is_parked_branch;
use crate::parking::lemma_endless_line;
use crate::parking::with_room;
use crate::smt_model::lemma_sorted_list;
use crate::smt_model::sorted_members;
use crate::transport::EventModel;
use crate::transport::MsgModel;
use crate::transport::SimStats;
use crate::transport::all_fit;
use crate::transport::moves_clock;
use crate::transport::plus;
use crate::types::BlockModel;
use crate::types::CheckpointData;
use crate::types::TxModel;

verus! {

/// A block that a node has seen is absorbed: offering it again changes
/// nothing, sends nothing and leaves no task.
pub proof fn law_second_block_is_absorbed(
    s: NetModel,
    node: usize,
    b: BlockModel,
    lists: Seq<Seq<PublicKey>>,
    again: Seq<Seq<PublicKey>>,
)
    requires
        node < s.nodes.len(),
        hash_of_header(b.header) is Ok,
    ensures
        ({
            let t = block_handled(s, node, b, lists).0;
            block_handled(t, node, b, again) == (t, Seq::<TaskModel>::empty())
        }),
{
    let t = block_handled(s, node, b, lists).0;
    let h = hash_of_header(b.header)->Ok_0;
    assert(t.nodes[node as int].seen_blocks.contains(h));
    assert(t.with_node(node, t.nodes[node as int]) =~= t);
}

/// A transaction that reached a node is absorbed: the second time nothing is
/// sent and the node stays as it is.
pub proof fn law_second_transaction_is_absorbed(s: NetModel, node: usize, tx: TxModel)
    requires
        node < s.nodes.len(),
    ensures
        ({
            let t = tx_reached(s, node, tx);
            let u = tx_reached(t, node, tx);
            u.nodes == t.nodes && u.queue == t.queue && u.send_seq == t.send_seq
        }),
{
    let (n, outcome) = received(s.nodes[node as int], tx);
    let t = tx_reached(s, node, tx);
    law_gossip_changes_no_node(s.with_node(node, n), node, MsgModel::Tx(tx));
    assert(t.nodes[node as int] == n);
    assert(t.nodes =~= s.with_node(node, n).nodes);
    if outcome is New {
        assert(received(n, tx).1 is Duplicate);
    } else {
        assert(n == s.nodes[node as int]);
    }
    assert(t.nodes.update(node as int, n) =~= t.nodes);
}

/// Signatures that are there are no news.
proof fn lemma_sigs_again(sigs: Map<PublicKey, Signature>, list: Seq<(PublicKey, Signature)>, i: nat)
    requires
        i <= list.len(),
    ensures
        sigs.dom().subset_of(more_sigs(sigs, list).dom()),
        forall|j: int| 0 <= j < i ==> more_sigs(sigs, list.take(i as int)).contains_key((#[trigger] list[j]).0),
        more_sigs(more_sigs(sigs, list), list.take(i as int)).dom() == more_sigs(sigs, list).dom(),
    decreases list.len(), i,
{
    lemma_sigs_grow(sigs, list);
    if i > 0 {
        lemma_sigs_again(sigs, list, (i - 1) as nat);
        let t = list.take(i as int);
        assert(t.drop_last() =~= list.take(i - 1));
        let all = more_sigs(sigs, list);
        assert(all.contains_key(list[i - 1].0));
        assert(more_sigs(all, t).dom() =~= all.dom());
    } else {
        assert(list.take(0) =~= Seq::empty());
        assert(more_sigs(more_sigs(sigs, list), list.take(0)) == more_sigs(sigs, list));
    }
}

/// More signatures hold the old ones and the new ones.
proof fn lemma_sigs_grow(sigs: Map<PublicKey, Signature>, list: Seq<(PublicKey, Signature)>)
    ensures
        sigs.dom().subset_of(more_sigs(sigs, list).dom()),
        forall|j: int| 0 <= j < list.len() ==> more_sigs(sigs, list).contains_key((#[trigger] list[j]).0),
    decreases list.len(),
{
    if list.len() > 0 {
        lemma_sigs_grow(sigs, list.drop_last());
        let all = more_sigs(sigs, list);
        assert forall|j: int| 0 <= j < list.len() implies all.contains_key((#[trigger] list[j]).0) by {
            if j < list.len() - 1 {
                assert(list.drop_last()[j] == list[j]);
            }
        }
    }
}

/// A proposal whose signatures a node has merged is no news: the second time
/// nothing is passed on.
pub proof fn law_second_proposal_is_no_news(n: NodeModel, p: ProposalModel)
    requires
        merged(n, p).0.pending.contains_key(p.signing_hash),
        n.pending.dom().finite(),
    ensures
        merged(merged(n, p).0, p).1 is None,
{
    let t = merged(n, p).0;
    if !is_finalized(n.chain, p.data) && is_ours(n.chain, p.data) {
        let (d, before) = collected_at(n, p.data, p.signing_hash);
        let after = more_sigs(before, p.signatures);
        lemma_capped_keeps(n.pending.insert(p.signing_hash, (d, after)), p.signing_hash);
        assert(t.pending[p.signing_hash] == (d, after));
        lemma_sigs_again(before, p.signatures, p.signatures.len());
        assert(p.signatures.take(p.signatures.len() as int) =~= p.signatures);
    }
}

/// What stays under the cap stays as it is.
proof fn lemma_capped_keeps(pending: Map<Digest, (CheckpointData, Map<PublicKey, Signature>)>, h: Digest)
    requires
        pending.dom().finite(),
        capped(pending).contains_key(h),
    ensures
        pending.contains_key(h),
        capped(pending)[h] == pending[h],
    decreases pending.len(),
{
    if pending.len() > PENDING_CP_CAP {
        let k = sorted_members(pending.dom())[0];
        if pending.contains_key(k) {
            lemma_capped_keeps(pending.remove(k), h);
        }
    }
}

/// Merging a proposal keeps the contents that a node collects signatures for
/// below their cap.
pub proof fn law_pending_is_bounded(n: NodeModel, p: ProposalModel)
    requires
        n.pending.dom().finite(),
        n.pending.len() <= PENDING_CP_CAP,
    ensures
        merged(n, p).0.pending.dom().finite(),
        merged(n, p).0.pending.len() <= PENDING_CP_CAP,
{
    let (d, before) = collected_at(n, p.data, p.signing_hash);
    let more = n.pending.insert(p.signing_hash, (d, more_sigs(before, p.signatures)));
    assert(more.dom() =~= n.pending.dom().insert(p.signing_hash));
    lemma_capped_is_small(more);
}

/// What the cap leaves is no larger than the cap.
proof fn lemma_capped_is_small(pending: Map<Digest, (CheckpointData, Map<PublicKey, Signature>)>)
    requires
        pending.dom().finite(),
    ensures
        capped(pending).dom().finite(),
        capped(pending).len() <= PENDING_CP_CAP,
    decreases pending.len(),
{
    if pending.len() > PENDING_CP_CAP {
        let q = sorted_members(pending.dom());
        lemma_sorted_list(pending.dom());
        if q.len() == 0 {
            assert(q.to_set() =~= Set::empty());
        }
        assert(q.to_set().contains(q[0]));
        assert(pending.remove(q[0]).dom() =~= pending.dom().remove(q[0]));
        lemma_capped_is_small(pending.remove(q[0]));
    }
}

/// The clock never goes back, and a second copy does not move it.
pub proof fn law_clock_moves_forward(s: NetModel)
    requires
        s.queue.len() > 0,
        all_fit(s.queue, s.nodes.len()),
    ensures
        stepped(s).0.tick >= s.tick,
        !moves_clock(s.queue[0].1) ==> stepped(s).0.tick == s.tick,
{
    let (tick, event) = s.queue[0];
    let now = if moves_clock(event) && tick > s.tick {
        tick
    } else {
        s.tick
    };
    let t = NetModel { queue: s.queue.skip(1), tick: now, steps: plus(s.steps, 1), ..s };
    match event {
        EventModel::Deliver { from, to, msg, .. } => {
            let u = NetModel { stats: SimStats { delivered: plus(t.stats.delivered, 1), ..t.stats }, ..t };
            if let MsgModel::Tx(x) = msg {
                lemma_tx_keeps_tick(u, to, x);
            }
        },
        EventModel::Submit { node, tx } => {
            lemma_tx_keeps_tick(t, node, tx);
        },
        _ => {},
    }
}

/// A transaction that reaches a node does not move the clock.
proof fn lemma_tx_keeps_tick(s: NetModel, node: usize, tx: TxModel)
    ensures
        tx_reached(s, node, tx).tick == s.tick,
{
    law_gossip_changes_no_node(s.with_node(node, received(s.nodes[node as int], tx).0), node, MsgModel::Tx(tx));
}

/// Before the first finalized checkpoint of a group's best chain only the
/// first node produces: there is one chain.
pub proof fn law_one_producer_before_finality(
    s: NetModel,
    group: usize,
    committee: Seq<PublicKey>,
    allowed: Seq<Seq<PublicKey>>,
)
    requires
        front(s, group) matches Some(i) ==> s.nodes[i].chain.finalized is None,
    ensures
        next_producer(s, group, committee, allowed) matches Some(p) ==> p == (0int, false),
{
}

/// After it there is one leader per height, by rotation of the committee: a
/// producer that stands in for nobody has the key at the place of the height
/// in the committee and the group's best height.
pub proof fn law_one_leader_per_height(
    s: NetModel,
    group: usize,
    committee: Seq<PublicKey>,
    allowed: Seq<Seq<PublicKey>>,
)
    requires
        front(s, group) matches Some(i) ==> s.nodes[i].chain.finalized is Some,
    ensures
        next_producer(s, group, committee, allowed) matches Some((i, false)) ==> is_leader(
            s,
            group,
            committee,
            front(s, group)->0,
            i,
        ),
{
    if front(s, group) is Some {
        let top = front(s, group)->0;
        let among = |i: int| is_leader(s, group, committee, top, i);
        lemma_first_of_is_least(s.nodes.len(), among);
    }
}

/// A stand-in comes only after two idle intervals and where the height has no
/// leader that could produce; it is the first node of the group that runs,
/// that may produce and that has the group's best height.
pub proof fn law_stand_in_comes_after_idle_intervals(
    s: NetModel,
    group: usize,
    committee: Seq<PublicKey>,
    allowed: Seq<Seq<PublicKey>>,
)
    ensures
        next_producer(s, group, committee, allowed) matches Some((i, true)) ==> {
            let top = front(s, group)->0;
            &&& idle(s, top)
            &&& forall|j: int| !is_leader(s, group, committee, top, j)
            &&& can_stand_in(s, group, allowed, top, i)
            &&& forall|j: int| #[trigger] can_stand_in(s, group, allowed, top, j) ==> i <= j
        },
{
    if front(s, group) is Some {
        let top = front(s, group)->0;
        let leading = |i: int| is_leader(s, group, committee, top, i);
        lemma_first_of_is_least(s.nodes.len(), leading);
        let among = |i: int| can_stand_in(s, group, allowed, top, i);
        lemma_first_of_is_least(s.nodes.len(), among);
        assert forall|j: int| leader(s, group, committee, top) is None implies !is_leader(
            s,
            group,
            committee,
            top,
            j,
        ) by {
            if is_leader(s, group, committee, top, j) {
                assert(leading(j));
            }
        }
        if stand_in(s, group, allowed, top) is Some {
            let i = stand_in(s, group, allowed, top)->0;
            assert forall|j: int| #[trigger] can_stand_in(s, group, allowed, top, j) implies i <= j by {
                assert(among(j));
            }
        }
    }
}

/// The first of some numbers is one of them, and none is less.
proof fn lemma_first_of_is_least(n: nat, among: spec_fn(int) -> bool)
    ensures
        match first_of(n, among) {
            Some(i) => 0 <= i < n && among(i) && forall|j: int| 0 <= j < n && #[trigger] among(j) ==> i <= j,
            None => forall|j: int| 0 <= j < n ==> !(#[trigger] among(j)),
        },
    decreases n,
{
    if n > 0 {
        lemma_first_of_is_least((n - 1) as nat, among);
    }
}

/// A block that is not accepted is not passed on, and no block is passed on
/// at once: handling one sends nothing by itself.
pub proof fn law_only_accepted_blocks_are_passed_on(
    s: NetModel,
    node: usize,
    b: BlockModel,
    lists: Seq<Seq<PublicKey>>,
)
    ensures
        block_handled(s, node, b, lists).0.queue == s.queue,
        block_handled(s, node, b, lists).1.contains(TaskModel::Progress { node, block: b }) ==> offered(
            s.nodes[node as int],
            b,
            lists,
        ).1 is Accepted,
{
    let tasks = block_handled(s, node, b, lists).1;
    if tasks.contains(TaskModel::Progress { node, block: b }) {
        let i = choose|i: int| 0 <= i < tasks.len() && tasks[i] == (TaskModel::Progress { node, block: b });
        assert(i == 0);
    }
}

/// The waiting transactions of a node stay below their cap.
pub proof fn law_mempool_is_bounded(n: NodeModel, t: TxModel)
    requires
        n.mempool.len() <= MEMPOOL_CAP,
    ensures
        received(n, t).0.mempool.len() <= MEMPOOL_CAP,
{
}

/// There is a lowest parked block.
proof fn lemma_lowest_exists(p: Map<Digest, BlockModel>)
    requires
        p.dom().finite(),
        p.len() > 0,
    ensures
        exists|k: Digest| is_lowest(p, k),
    decreases p.len(),
{
    let a = p.dom().choose();
    let rest = p.remove(a);
    assert(rest.dom() =~= p.dom().remove(a));
    if rest.len() == 0 {
        assert forall|j: Digest| #[trigger] p.contains_key(j) implies j == a by {
            if j != a {
                assert(rest.dom().contains(j));
                assert(rest.dom().len() > 0) by {
                    vstd::set_lib::lemma_len_subset(set![j], rest.dom());
                }
            }
        }
        assert(is_lowest(p, a));
    } else {
        lemma_lowest_exists(rest);
        let k = choose|k: Digest| is_lowest(rest, k);
        assert(rest.contains_key(k));
        let a_first = p[a].header.height < p[k].header.height || (p[a].header.height == p[k].header.height
            && ordinal(a) <= ordinal(k));
        let low = if a_first {
            a
        } else {
            k
        };
        assert(is_lowest(p, low)) by {
            assert forall|j: Digest| #[trigger] p.contains_key(j) implies p[low].header.height
                < p[j].header.height || (p[low].header.height == p[j].header.height && ordinal(low)
                <= ordinal(j)) by {
                if j != a {
                    assert(rest.contains_key(j));
                }
            }
        }
    }
}

/// The parked blocks of a node stay below their cap.
pub proof fn law_parking_is_bounded(n: NodeModel, b: BlockModel, lists: Seq<Seq<PublicKey>>)
    requires
        n.parked.dom().finite(),
        n.parked.len() <= PARKED_CAP,
    ensures
        offered(n, b, lists).0.parked.dom().finite(),
        offered(n, b, lists).0.parked.len() <= PARKED_CAP,
{
    let room = with_room(n.parked);
    if n.parked.len() >= PARKED_CAP {
        lemma_lowest_exists(n.parked);
        let k = choose|k: Digest| is_lowest(n.parked, k);
        assert(room.dom() =~= n.parked.dom().remove(k));
    }
    if hash_of_header(b.header) is Ok {
        let h = hash_of_header(b.header)->Ok_0;
        assert(room.insert(h, b).dom() =~= room.dom().insert(h));
    }
}

/// Whether every parked block is found by its hash.
pub open spec fn parked_by_hash(p: Map<Digest, BlockModel>) -> bool {
    forall|k: Digest| #[trigger] p.contains_key(k) ==> hash_of_header(p[k].header) == Ok::<Digest, BlockchainError>(k)
}

/// Parked blocks stay found by their hashes.
pub proof fn law_parking_is_by_hash(n: NodeModel, b: BlockModel, lists: Seq<Seq<PublicKey>>)
    requires
        parked_by_hash(n.parked),
    ensures
        parked_by_hash(offered(n, b, lists).0.parked),
{
}

/// Draining and adopting only take blocks out of the parking, so that what
/// holds of every parked block goes on to hold.
pub proof fn law_parking_is_only_used_up(n: NodeModel, producers: Seq<PublicKey>, lists: Seq<Seq<PublicKey>>)
    ensures
        drained(n, producers).0.parked.submap_of(n.parked),
        readopted(n, lists).0.parked.submap_of(n.parked),
{
    lemma_unparked_is_less(n.parked, best_branch(n.parked, n.chain));
}

/// A parking without some blocks holds nothing new.
proof fn lemma_unparked_is_less(p: Map<Digest, BlockModel>, blocks: Seq<BlockModel>)
    ensures
        unparked(p, blocks).submap_of(p),
    decreases blocks.len(),
{
    if blocks.len() > 0 {
        lemma_unparked_is_less(p, blocks.drop_last());
    }
}

/// The best parked branch begins on a block of the chain, and its blocks
/// chain by their hashes.
pub proof fn law_best_branch_chains(p: Map<Digest, BlockModel>, m: ChainModel)
    requires
        parked_by_hash(p),
    ensures
        ({
            let branch = best_branch(p, m);
            &&& branch.len() > 0 ==> m.knows(branch[0].header.prev_hash)
            &&& forall|i: int|
                0 < i < branch.len() ==> hash_of_header(branch[i - 1].header) == Ok::<Digest, BlockchainError>(
                    (#[trigger] branch[i]).header.prev_hash,
                )
        }),
{
    let branch = best_branch(p, m);
    if exists|t: Digest, k: nat| is_best_parked(p, m, t, k) {
        let (t, k) = choose|t: Digest, k: nat| is_best_parked(p, m, t, k);
        assert(is_parked_branch(p, m, t, k));
        assert(branch[0] == p[forebear(p, t, (k - 1) as nat)]);
        assert(forebear(p, t, k) == branch[0].header.prev_hash);
        assert forall|i: int| 0 < i < branch.len() implies hash_of_header(branch[i - 1].header) == Ok::<
            Digest,
            BlockchainError,
        >((#[trigger] branch[i]).header.prev_hash) by {
            let up = (k - i) as nat;
            assert(branch[i - 1] == p[forebear(p, t, up)]);
            assert(branch[i] == p[forebear(p, t, (up - 1) as nat)]);
            assert(forebear(p, t, up) == branch[i].header.prev_hash);
            assert(p.contains_key(forebear(p, t, up)));
        }
    }
}

/// No branch of parked blocks is longer than the best one.
pub proof fn law_best_branch_is_longest(p: Map<Digest, BlockModel>, m: ChainModel, tip: Digest, n: nat)
    requires
        p.dom().finite(),
        is_parked_branch(p, m, tip, n),
    ensures
        n <= best_branch(p, m).len(),
{
    lemma_best_exists(p, m, tip, n, p.len());
    let (t, k) = choose|t: Digest, k: nat| is_best_parked(p, m, t, k);
    assert(is_parked_branch(p, m, t, k));
}

/// From any branch a best one is reached, for no branch is longer than the
/// parking.
proof fn lemma_best_exists(p: Map<Digest, BlockModel>, m: ChainModel, tip: Digest, n: nat, room: nat)
    requires
        p.dom().finite(),
        is_parked_branch(p, m, tip, n),
        n + room >= p.len(),
    ensures
        exists|t: Digest, k: nat| is_best_parked(p, m, t, k),
    decreases room, ordinal(tip),
{
    if exists|t: Digest, k: nat| #[trigger] is_parked_branch(p, m, t, k) && k > n {
        let (t, k) = choose|t: Digest, k: nat| #[trigger] is_parked_branch(p, m, t, k) && k > n;
        if k > p.len() {
            lemma_endless_line(p, t, k);
        }
        lemma_best_exists(p, m, t, k, (room - 1) as nat);
    } else if exists|t: Digest| #[trigger] is_parked_branch(p, m, t, n) && ordinal(t) < ordinal(tip) {
        let t = choose|t: Digest| #[trigger] is_parked_branch(p, m, t, n) && ordinal(t) < ordinal(tip);
        lemma_best_exists(p, m, t, n, room);
    } else {
        assert(is_best_parked(p, m, tip, n));
    }
}

} // verus!

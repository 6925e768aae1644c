//! The model network's transport: parameters, messages, delivery draws and
//! the queue of events on a virtual clock.
use vstd::prelude::*;
use crate::node::votes::Proposal;
use crate::node::votes::ProposalModel;
use crate::types::Block;
use crate::types::BlockModel;
use crate::types::Checkpoint;
use crate::types::Transaction;
use crate::types::TxModel;
use crate::types::block_models;

verus! {

/// Parameters of a run. With them and a seed the run is determined.
#[derive(Clone, Copy, Debug, PartialEq, Eq)]
pub struct SimParams {
    /// Number of nodes.
    pub nodes: usize,
    /// Every draw derives from it.
    pub seed: u64,
    /// Chance of a loss, per mille and message.
    pub loss_permille: u32,
    /// Chance of a second copy, per mille and gossip message.
    pub dup_permille: u32,
    /// Shortest and longest delivery, in ticks.
    pub latency_ticks: (u64, u64),
    /// Ticks between production rounds.
    pub produce_interval: u64,
    /// Checkpoints are proposed at heights that are multiples of it.
    pub sign_interval: u64,
    /// Ticks between a node's requests for blocks.
    pub sync_interval: u64,
    /// No event after this tick.
    pub horizon: u64,
}

impl Default for SimParams {
    fn default() -> (p: SimParams)
        ensures
            p == (SimParams {
                nodes: 8,
                seed: 0x5C0E,
                loss_permille: 50,
                dup_permille: 0,
                latency_ticks: (1, 5),
                produce_interval: 7,
                sign_interval: 16,
                sync_interval: 41,
                horizon: 200_000,
            }),
    {
        SimParams {
            nodes: 8,
            seed: 0x5C0E,
            loss_permille: 50,
            dup_permille: 0,
            latency_ticks: (1, 5),
            produce_interval: 7,
            sign_interval: 16,
            sync_interval: 41,
            horizon: 200_000,
        }
    }
}

impl SimParams {
    /// Whether a network can run under the parameters.
    pub open spec fn usable(self) -> bool {
        &&& self.nodes >= 2
        &&& 1 <= self.latency_ticks.0 <= self.latency_ticks.1
    }

    /// Whether a network can run under the parameters.
    pub fn is_usable(&self) -> (r: bool)
        ensures
            r == self.usable(),
    {
        self.nodes >= 2 && 1 <= self.latency_ticks.0 && self.latency_ticks.0 <= self.latency_ticks.1
    }
}

/// Counters of a run.
#[derive(Clone, Copy, Debug, PartialEq, Eq)]
pub struct SimStats {
    /// Messages sent, before losses.
    pub sent: u64,
    /// Messages delivered, copies among them.
    pub delivered: u64,
    /// Messages lost by chance.
    pub lost: u64,
    /// Messages dropped by a partition.
    pub partition_dropped: u64,
    /// Second copies sent.
    pub duplicates_sent: u64,
    /// Blocks that nodes built.
    pub blocks_produced: u64,
    /// Blocks that became part of a chain.
    pub blocks_accepted: u64,
    /// Branch switches.
    pub reorgs: u64,
    /// Checkpoints finalized on any node.
    pub checkpoints_finalized: u64,
    /// Productions by a stand-in.
    pub producer_timeouts: u64,
}

/// Counters at zero.
pub open spec fn no_stats() -> SimStats {
    SimStats {
        sent: 0,
        delivered: 0,
        lost: 0,
        partition_dropped: 0,
        duplicates_sent: 0,
        blocks_produced: 0,
        blocks_accepted: 0,
        reorgs: 0,
        checkpoints_finalized: 0,
        producer_timeouts: 0,
    }
}

impl Default for SimStats {
    fn default() -> (s: SimStats)
        ensures
            s == no_stats(),
    {
        SimStats {
            sent: 0,
            delivered: 0,
            lost: 0,
            partition_dropped: 0,
            duplicates_sent: 0,
            blocks_produced: 0,
            blocks_accepted: 0,
            reorgs: 0,
            checkpoints_finalized: 0,
            producer_timeouts: 0,
        }
    }
}

/// A sum on the virtual clock and on counters, up to the largest number.
pub open spec fn plus(a: u64, b: u64) -> u64 {
    if a + b > u64::MAX {
        u64::MAX
    } else {
        (a + b) as u64
    }
}

/// A sum on the virtual clock and on counters.
pub fn add_up(a: u64, b: u64) -> (sum: u64)
    ensures
        sum == plus(a, b),
{
    a.saturating_add(b)
}

/// The one source of chance: a mixer of 64 bits.
pub open spec fn mixed(z: u64) -> u64 {
    let a = z.wrapping_add(0x9E37_79B9_7F4A_7C15);
    let b = (a ^ (a >> 30)).wrapping_mul(0xBF58_476D_1CE4_E5B9);
    let c = (b ^ (b >> 27)).wrapping_mul(0x94D0_49BB_1331_11EB);
    c ^ (c >> 31)
}

/// The one source of chance: a mixer of 64 bits.
pub fn mix(z: u64) -> (r: u64)
    ensures
        r == mixed(z),
{
    let a: u64 = z.wrapping_add(0x9E37_79B9_7F4A_7C15);
    let b: u64 = (a ^ (a >> 30)).wrapping_mul(0xBF58_476D_1CE4_E5B9);
    let c: u64 = (b ^ (b >> 27)).wrapping_mul(0x94D0_49BB_1331_11EB);
    c ^ (c >> 31)
}

/// What happens to one message.
#[derive(Clone, Copy, Debug, PartialEq, Eq, Structural)]
pub struct SendDraw {
    pub lost: bool,
    pub latency: u64,
    pub dup: bool,
    pub dup_delay: u64,
}

/// The draw of a message: a function of the run's seed and of the message's
/// place among those sent.
pub open spec fn drawn(p: SimParams, seq: u64) -> SendDraw {
    let span = (p.latency_ticks.1 - p.latency_ticks.0 + 1) as u64;
    SendDraw {
        lost: mixed(p.seed ^ mixed(seq)) % 1000 < p.loss_permille,
        latency: (p.latency_ticks.0 + mixed(p.seed ^ mixed(seq.wrapping_add(0x1111))) % span) as u64,
        dup: mixed(p.seed ^ mixed(seq.wrapping_add(0x2222))) % 1000 < p.dup_permille,
        dup_delay: (1 + mixed(p.seed ^ mixed(seq.wrapping_add(0x3333))) % 8) as u64,
    }
}

/// The draw of a message.
pub fn send_draw(p: &SimParams, seq: u64) -> (d: SendDraw)
    requires
        p.usable(),
    ensures
        d == drawn(*p, seq),
        p.latency_ticks.0 <= d.latency <= p.latency_ticks.1,
        1 <= d.dup_delay <= 8,
{
    let lo: u64 = p.latency_ticks.0;
    let hi: u64 = p.latency_ticks.1;
    let span: u64 = hi - lo + 1;
    let extra: u64 = mix(p.seed ^ mix(seq.wrapping_add(0x1111))) % span;
    SendDraw {
        lost: mix(p.seed ^ mix(seq)) % 1000 < p.loss_permille as u64,
        latency: lo + extra,
        dup: mix(p.seed ^ mix(seq.wrapping_add(0x2222))) % 1000 < p.dup_permille as u64,
        dup_delay: 1 + mix(p.seed ^ mix(seq.wrapping_add(0x3333))) % 8,
    }
}

/// A message between nodes.
pub enum SimMsg {
    Block(Block),
    Tx(Transaction),
    Checkpoint(Proposal),
    GetBlocks { start: u64 },
    Blocks(Vec<Block>),
    GetCheckpoints,
    Checkpoints(Vec<Proposal>),
}

/// A message as a value.
pub enum MsgModel {
    Block(BlockModel),
    Tx(TxModel),
    Checkpoint(ProposalModel),
    GetBlocks { start: u64 },
    Blocks(Seq<BlockModel>),
    GetCheckpoints,
    Checkpoints(Seq<ProposalModel>),
}

/// The values of a list of proposals.
pub open spec fn proposal_models(ps: Seq<Proposal>) -> Seq<ProposalModel> {
    ps.map_values(|p: Proposal| p@)
}

impl View for SimMsg {
    type V = MsgModel;

    open spec fn view(&self) -> MsgModel {
        match self {
            SimMsg::Block(b) => MsgModel::Block(b@),
            SimMsg::Tx(t) => MsgModel::Tx(t@),
            SimMsg::Checkpoint(p) => MsgModel::Checkpoint(p@),
            SimMsg::GetBlocks { start } => MsgModel::GetBlocks { start: *start },
            SimMsg::Blocks(bs) => MsgModel::Blocks(block_models(bs@)),
            SimMsg::GetCheckpoints => MsgModel::GetCheckpoints,
            SimMsg::Checkpoints(ps) => MsgModel::Checkpoints(proposal_models(ps@)),
        }
    }
}

/// A copy of a list of blocks.
pub fn copy_blocks(blocks: &Vec<Block>) -> (copy: Vec<Block>)
    ensures
        block_models(copy@) == block_models(blocks@),
        copy@.len() == blocks@.len(),
{
    let mut copy: Vec<Block> = Vec::new();
    let mut i: usize = 0;
    while i < blocks.len()
        invariant
            i <= blocks@.len(),
            copy@.len() == i,
            forall|j: int| 0 <= j < i ==> (#[trigger] copy@[j])@ == blocks@[j]@,
        decreases blocks@.len() - i,
    {
        copy.push(blocks[i].clone());
        i += 1;
    }
    assert(block_models(copy@) =~= block_models(blocks@));
    copy
}

/// A copy of a list of proposals.
fn copy_proposals(ps: &Vec<Proposal>) -> (copy: Vec<Proposal>)
    ensures
        proposal_models(copy@) == proposal_models(ps@),
{
    let mut copy: Vec<Proposal> = Vec::new();
    let mut i: usize = 0;
    while i < ps.len()
        invariant
            i <= ps@.len(),
            copy@.len() == i,
            forall|j: int| 0 <= j < i ==> (#[trigger] copy@[j])@ == ps@[j]@,
        decreases ps@.len() - i,
    {
        copy.push(ps[i].clone());
        i += 1;
    }
    assert(proposal_models(copy@) =~= proposal_models(ps@));
    copy
}

impl Clone for SimMsg {
    fn clone(&self) -> (copy: SimMsg)
        ensures
            copy@ == self@,
    {
        match self {
            SimMsg::Block(b) => SimMsg::Block(b.clone()),
            SimMsg::Tx(t) => SimMsg::Tx(t.clone()),
            SimMsg::Checkpoint(p) => SimMsg::Checkpoint(p.clone()),
            SimMsg::GetBlocks { start } => SimMsg::GetBlocks { start: *start },
            SimMsg::Blocks(bs) => SimMsg::Blocks(copy_blocks(bs)),
            SimMsg::GetCheckpoints => SimMsg::GetCheckpoints,
            SimMsg::Checkpoints(ps) => SimMsg::Checkpoints(copy_proposals(ps)),
        }
    }
}

/// Whether a message may be delivered twice: only gossip.
pub open spec fn is_gossip(m: MsgModel) -> bool {
    m is Block || m is Tx || m is Checkpoint
}

impl SimMsg {
    /// Whether the message may be delivered twice: only gossip, for a second
    /// copy of a request or a reply would be answered twice.
    pub fn duplicable(&self) -> (r: bool)
        ensures
            r == is_gossip(self@),
    {
        match self {
            SimMsg::Block(_) => true,
            SimMsg::Tx(_) => true,
            SimMsg::Checkpoint(_) => true,
            _ => false,
        }
    }
}

/// Something that happens at a tick.
pub enum Event {
    Deliver { from: usize, to: usize, msg: SimMsg, copy: u32 },
    ProduceRound,
    Sync { node: usize },
    Submit { node: usize, tx: Transaction },
}

/// An event as a value.
pub enum EventModel {
    Deliver { from: usize, to: usize, msg: MsgModel, copy: u32 },
    ProduceRound,
    Sync { node: usize },
    Submit { node: usize, tx: TxModel },
}

impl View for Event {
    type V = EventModel;

    open spec fn view(&self) -> EventModel {
        match self {
            Event::Deliver { from, to, msg, copy } => EventModel::Deliver {
                from: *from,
                to: *to,
                msg: msg@,
                copy: *copy,
            },
            Event::ProduceRound => EventModel::ProduceRound,
            Event::Sync { node } => EventModel::Sync { node: *node },
            Event::Submit { node, tx } => EventModel::Submit { node: *node, tx: tx@ },
        }
    }
}

/// Whether an event moves the clock: second copies do not.
pub open spec fn moves_clock(e: EventModel) -> bool {
    !(e matches EventModel::Deliver { copy, .. } && copy == 1)
}

impl Event {
    /// Whether the event moves the clock: second copies do not.
    pub fn is_real(&self) -> (r: bool)
        ensures
            r == moves_clock(self@),
    {
        match self {
            Event::Deliver { copy, .. } => *copy != 1,
            _ => true,
        }
    }
}

/// Events to come, in order of their ticks; those of one tick in the order
/// in which they were scheduled.
pub struct EventQueue {
    entries: Vec<(u64, Event)>,
}

/// A queue with one more event: behind every event of its tick or before.
pub open spec fn placed(q: Seq<(u64, EventModel)>, tick: u64, e: EventModel) -> Seq<(u64, EventModel)>
    decreases q.len(),
{
    if q.len() == 0 || q.last().0 <= tick {
        q.push((tick, e))
    } else {
        placed(q.drop_last(), tick, e).push(q.last())
    }
}

/// Placing an event inserts it before the later ones.
proof fn lemma_placed(q: Seq<(u64, EventModel)>, i: int, tick: u64, e: EventModel)
    requires
        0 <= i <= q.len(),
        i > 0 ==> q[i - 1].0 <= tick,
        forall|j: int| i <= j < q.len() ==> (#[trigger] q[j]).0 > tick,
    ensures
        placed(q, tick, e) == q.insert(i, (tick, e)),
    decreases q.len(),
{
    if i == q.len() {
        assert(placed(q, tick, e) =~= q.insert(i, (tick, e)));
    } else {
        assert(q.last() == q[q.len() - 1]);
        lemma_placed(q.drop_last(), i, tick, e);
        assert(q.drop_last().insert(i, (tick, e)).push(q.last()) =~= q.insert(i, (tick, e)));
    }
}

/// Whether the events of a queue are in order of their ticks.
pub open spec fn in_order(q: Seq<(u64, EventModel)>) -> bool {
    forall|i: int, j: int| 0 <= i < j < q.len() ==> (#[trigger] q[i]).0 <= (#[trigger] q[j]).0
}

/// Whether an event names nodes below a number only.
pub open spec fn event_fits(e: EventModel, n: nat) -> bool {
    match e {
        EventModel::Deliver { from, to, .. } => from < n && to < n,
        EventModel::ProduceRound => true,
        EventModel::Sync { node } => node < n,
        EventModel::Submit { node, .. } => node < n,
    }
}

/// Whether all events of a queue name nodes below a number only.
pub open spec fn all_fit(q: Seq<(u64, EventModel)>, n: nat) -> bool {
    forall|i: int| 0 <= i < q.len() ==> event_fits((#[trigger] q[i]).1, n)
}

/// A queue of fitting events stays one.
pub(crate) proof fn lemma_placed_fits(q: Seq<(u64, EventModel)>, tick: u64, e: EventModel, n: nat)
    requires
        all_fit(q, n),
        event_fits(e, n),
    ensures
        all_fit(placed(q, tick, e), n),
    decreases q.len(),
{
    if q.len() > 0 && q.last().0 > tick {
        let rest = q.drop_last();
        assert(all_fit(rest, n)) by {
            assert forall|i: int| 0 <= i < rest.len() implies event_fits((#[trigger] rest[i]).1, n) by {
                assert(rest[i] == q[i]);
            }
        }
        lemma_placed_fits(rest, tick, e, n);
        let t = placed(rest, tick, e);
        let all = placed(q, tick, e);
        assert forall|i: int| 0 <= i < all.len() implies event_fits((#[trigger] all[i]).1, n) by {
            if i < t.len() {
                assert(all[i] == t[i]);
            } else {
                assert(all[i] == q[q.len() - 1]);
            }
        }
    } else {
        let all = q.push((tick, e));
        assert forall|i: int| 0 <= i < all.len() implies event_fits((#[trigger] all[i]).1, n) by {
            if i < q.len() {
                assert(all[i] == q[i]);
            }
        }
    }
}

/// A queue stays in order.
pub proof fn law_queue_stays_in_order(q: Seq<(u64, EventModel)>, tick: u64, e: EventModel)
    requires
        in_order(q),
    ensures
        in_order(placed(q, tick, e)),
        q.len() > 0 ==> in_order(q.skip(1)),
    decreases q.len(),
{
    if q.len() > 0 && q.last().0 > tick {
        let rest = q.drop_last();
        assert(in_order(rest)) by {
            assert forall|i: int, j: int| 0 <= i < j < rest.len() implies (#[trigger] rest[i]).0
                <= (#[trigger] rest[j]).0 by {
                assert(rest[i] == q[i] && rest[j] == q[j]);
            }
        }
        law_queue_stays_in_order(rest, tick, e);
        lemma_placed_below(rest, tick, e, q.last().0);
        let t = placed(rest, tick, e);
        let all = placed(q, tick, e);
        assert forall|i: int, j: int| 0 <= i < j < all.len() implies (#[trigger] all[i]).0 <= (
        #[trigger] all[j]).0 by {
            assert(all[i] == t[i]);
            if j < t.len() {
                assert(all[j] == t[j]);
            }
        }
    }
    if q.len() > 0 {
        let rest = q.skip(1);
        assert forall|i: int, j: int| 0 <= i < j < rest.len() implies (#[trigger] rest[i]).0 <= (
        #[trigger] rest[j]).0 by {
            assert(rest[i] == q[i + 1] && rest[j] == q[j + 1]);
        }
    }
}

/// A bound on the ticks of a queue and of a new event bounds them all.
proof fn lemma_placed_below(q: Seq<(u64, EventModel)>, tick: u64, e: EventModel, bound: u64)
    requires
        tick <= bound,
        forall|j: int| 0 <= j < q.len() ==> (#[trigger] q[j]).0 <= bound,
    ensures
        forall|j: int| 0 <= j < placed(q, tick, e).len() ==> (#[trigger] placed(q, tick, e)[j]).0 <= bound,
    decreases q.len(),
{
    if q.len() > 0 && q.last().0 > tick {
        let rest = q.drop_last();
        assert forall|j: int| 0 <= j < rest.len() implies (#[trigger] rest[j]).0 <= bound by {
            assert(rest[j] == q[j]);
        }
        lemma_placed_below(rest, tick, e, bound);
        let t = placed(rest, tick, e);
        let all = placed(q, tick, e);
        assert forall|j: int| 0 <= j < all.len() implies (#[trigger] all[j]).0 <= bound by {
            if j < t.len() {
                assert(all[j] == t[j]);
            } else {
                assert(all[j] == q[q.len() - 1]);
            }
        }
    }
}

impl View for EventQueue {
    type V = Seq<(u64, EventModel)>;

    closed spec fn view(&self) -> Seq<(u64, EventModel)> {
        self.entries@.map_values(|e: (u64, Event)| (e.0, e.1@))
    }
}

impl EventQueue {
    /// A queue without events.
    pub fn new() -> (q: EventQueue)
        ensures
            q@ == Seq::<(u64, EventModel)>::empty(),
    {
        let q = EventQueue { entries: Vec::new() };
        assert(q@ =~= Seq::empty());
        q
    }

    /// Whether there is no event.
    pub fn is_empty(&self) -> (r: bool)
        ensures
            r == (self@.len() == 0),
    {
        self.entries.len() == 0
    }

    /// Schedules an event.
    pub fn place(&mut self, tick: u64, event: Event)
        ensures
            final(self)@ == placed(old(self)@, tick, event@),
    {
        let mut i: usize = self.entries.len();
        let ghost q = self@;
        while i > 0 && self.entries[i - 1].0 > tick
            invariant
                i <= self.entries@.len(),
                q == self@,
                q.len() == self.entries@.len(),
                forall|j: int| i <= j < q.len() ==> (#[trigger] q[j]).0 > tick,
            decreases i,
        {
            assert(q[i - 1].0 == self.entries@[i - 1].0);
            i -= 1;
        }
        proof {
            if i > 0 {
                assert(q[i - 1].0 == self.entries@[i - 1].0);
            }
            lemma_placed(q, i as int, tick, event@);
        }
        let ghost e = event@;
        self.entries.insert(i, (tick, event));
        assert(self@ =~= q.insert(i as int, (tick, e)));
    }

    /// Takes the next event out.
    pub fn pop_first(&mut self) -> (e: Option<(u64, Event)>)
        ensures
            match e {
                None => old(self)@.len() == 0 && final(self)@ == old(self)@,
                Some(x) => old(self)@.len() > 0 && (x.0, x.1@) == old(self)@[0] && final(self)@ == old(
                    self,
                )@.skip(1),
            },
    {
        if self.entries.len() == 0 {
            return None;
        }
        let ghost q = self@;
        let x = self.entries.remove(0);
        assert(self@ =~= q.skip(1));
        Some(x)
    }
}

} // verus!

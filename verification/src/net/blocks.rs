//! Blocks that reach a node: offered one by one, in batches, or out of its
//! parking.
use vstd::prelude::*;
use crate::chain::Blockchain;
use crate::chain_model::ChainModel;
use crate::consensus::PermissiveConsensus;
use crate::fork_model::adopt_lists;
use crate::fork_model::producer_lists;
use crate::ids::PublicKey;
use crate::net::NetModel;
use crate::net::SimNet;
use crate::net::Task;
use crate::net::TaskModel;
use crate::net::progress_tasks;
use crate::net::task_models;
use crate::node::BlockOutcome;
use crate::node::blocks::drained;
use crate::node::blocks::extended_by;
use crate::node::blocks::readopted;
use crate::node::blocks::switched_to;
use crate::node::offer_lists;
use crate::node::offered;
use crate::node::progressed;
use crate::parking::best_branch;
use crate::transport::MsgModel;
use crate::transport::SimMsg;
use crate::transport::add_up;
use crate::transport::plus;
use crate::types::Block;
use crate::types::BlockModel;
use crate::types::block_models;

verus! {

/// The network after a block was offered to a node, and what follows. Only
/// an accepted block is passed on; a parked one may let others in.
pub open spec fn block_handled(s: NetModel, node: usize, b: BlockModel, lists: Seq<Seq<PublicKey>>) -> (
    NetModel,
    Seq<TaskModel>,
) {
    let (n, outcome) = offered(s.nodes[node as int], b, lists);
    let t = s.with_node(node, n);
    match outcome {
        BlockOutcome::Accepted => (t.accepting(1), seq![TaskModel::Progress { node, block: b }]),
        BlockOutcome::ParkedKnown => (t, seq![TaskModel::Drain { node, count: 0 }]),
        BlockOutcome::ParkedOrphan => (t, seq![TaskModel::Drain { node, count: 0 }]),
        BlockOutcome::Duplicate => (t, Seq::empty()),
        BlockOutcome::Rejected(k) => (t.noting(k), Seq::empty()),
    }
}

/// The network after a block became part of a node's chain, and what
/// follows: the node's transactions are settled, its tip is archived, it
/// holds a checkpoint round, and the block is passed on.
pub open spec fn progress_noted(s: NetModel, node: usize, b: BlockModel) -> (NetModel, Seq<TaskModel>) {
    let n = progressed(s.nodes[node as int], s.tick, b.txs);
    let tip = n.chain.canonical.last();
    let t = NetModel { archive: s.archive.insert(tip.header.height, tip), ..s.with_node(node, n) };
    (t, seq![TaskModel::Anchor { node }, TaskModel::Announce { node, msg: MsgModel::Block(b) }])
}

/// What follows once no more block of a batch fits: those that did are
/// progress, the rest is offered as a branch.
pub open spec fn batch_rest(node: usize, blocks: Seq<BlockModel>, done: usize) -> Seq<TaskModel> {
    if done < blocks.len() {
        progress_tasks(node, blocks.take(done as int)) + seq![
            TaskModel::SyncAdopt { node, blocks: blocks.skip(done as int) },
        ]
    } else {
        progress_tasks(node, blocks)
    }
}

/// The network after the next block of a batch was tried, and what follows.
pub open spec fn batch_pushed(
    s: NetModel,
    node: usize,
    blocks: Seq<BlockModel>,
    done: usize,
    producers: Seq<PublicKey>,
) -> (NetModel, Seq<TaskModel>) {
    if done < blocks.len() {
        let (n, accepted) = extended_by(s.nodes[node as int], blocks[done as int], producers);
        let t = s.with_node(node, n);
        if accepted {
            (t.accepting(1), seq![TaskModel::SyncPush { node, blocks, done: (done + 1) as usize }])
        } else {
            (t, batch_rest(node, blocks, done))
        }
    } else {
        (s, batch_rest(node, blocks, done))
    }
}

/// The network after the rest of a batch was offered as a branch, and what
/// follows: progress if the branch won, else every block is offered by
/// itself.
pub open spec fn batch_adopted(s: NetModel, node: usize, blocks: Seq<BlockModel>, lists: Seq<Seq<PublicKey>>) -> (
    NetModel,
    Seq<TaskModel>,
) {
    let (n, won) = switched_to(s.nodes[node as int], blocks, lists);
    let t = s.with_node(node, n);
    if won {
        (t.switching(node, blocks.len() as u64), progress_tasks(node, blocks))
    } else {
        (t, blocks.map_values(|b: BlockModel| TaskModel::Block { node, block: b }))
    }
}

/// The blocks that a chain has in memory at `n` heights from one on.
pub open spec fn held_blocks(m: ChainModel, start: u64, n: nat) -> Seq<BlockModel>
    decreases n,
{
    if n == 0 {
        Seq::empty()
    } else {
        let rest = held_blocks(m, start, (n - 1) as nat);
        match m.block((start + n - 1) as u64) {
            Some(b) => rest.push(b),
            None => rest,
        }
    }
}

/// The last blocks of a chain, as far as they are in memory.
pub open spec fn last_blocks(m: ChainModel, count: u64) -> Seq<BlockModel> {
    if count == 0 {
        Seq::empty()
    } else if count > m.height() {
        held_blocks(m, 0, (m.height() + 1) as nat)
    } else {
        held_blocks(m, (m.height() + 1 - count) as u64, count as nat)
    }
}

/// The network after the next parked block was tried, and what follows:
/// another try, or else progress with all that were pushed and a look for a
/// better branch.
pub open spec fn parked_pushed(s: NetModel, node: usize, count: u64, producers: Seq<PublicKey>) -> (
    NetModel,
    Seq<TaskModel>,
) {
    let (n, accepted) = drained(s.nodes[node as int], producers);
    let t = s.with_node(node, n);
    if accepted {
        (t, seq![TaskModel::Drain { node, count: plus(count, 1) }])
    } else {
        (
            t.accepting(count),
            progress_tasks(node, last_blocks(n.chain, count)) + seq![TaskModel::Adopt { node, drained: count }],
        )
    }
}

/// The network after a node tried to switch to its best parked branch, and
/// what follows: after any change, the parking is tried again.
pub open spec fn parked_adopted(s: NetModel, node: usize, drained: u64, lists: Seq<Seq<PublicKey>>) -> (
    NetModel,
    Seq<TaskModel>,
) {
    let (n, branch) = readopted(s.nodes[node as int], lists);
    let t = s.with_node(node, n);
    match branch {
        Some(b) => (
            t.switching(node, b.len() as u64),
            progress_tasks(node, b) + seq![TaskModel::Drain { node, count: 0 }],
        ),
        None => (
            t,
            if drained == 0 {
                Seq::empty()
            } else {
                seq![TaskModel::Drain { node, count: 0 }]
            },
        ),
    }
}

/// Adds the tasks of progress to a list.
fn push_progress(tasks: &mut Vec<Task>, node: usize, blocks: &Vec<Block>)
    ensures
        task_models(final(tasks)@) == task_models(old(tasks)@) + progress_tasks(node, block_models(blocks@)),
{
    let ghost before = task_models(tasks@);
    let ghost all = block_models(blocks@);
    let mut i: usize = 0;
    assert(before =~= before + progress_tasks(node, all.take(0)));
    while i < blocks.len()
        invariant
            i <= blocks@.len(),
            all == block_models(blocks@),
            task_models(tasks@) == before + progress_tasks(node, all.take(i as int)),
        decreases blocks@.len() - i,
    {
        let ghost t = tasks@;
        tasks.push(Task::Progress { node, block: blocks[i].clone() });
        proof {
            assert(task_models(tasks@) =~= task_models(t).push(
                TaskModel::Progress { node, block: blocks@[i as int]@ },
            ));
            assert(progress_tasks(node, all.take(i + 1)) =~= progress_tasks(node, all.take(i as int)).push(
                TaskModel::Progress { node, block: blocks@[i as int]@ },
            ));
            assert(task_models(tasks@) =~= before + progress_tasks(node, all.take(i + 1)));
        }
        i += 1;
    }
    assert(all.take(i as int) =~= all);
}

/// One task as a list.
pub(crate) fn one_task(task: Task) -> (tasks: Vec<Task>)
    ensures
        task_models(tasks@) == seq![task@],
{
    let mut tasks: Vec<Task> = Vec::new();
    let ghost t = task@;
    tasks.push(task);
    assert(task_models(tasks@) =~= seq![t]);
    tasks
}

/// Adds a task to a list.
pub(crate) fn push_task(tasks: &mut Vec<Task>, task: Task)
    ensures
        task_models(final(tasks)@) == task_models(old(tasks)@).push(task@),
{
    let ghost before = tasks@;
    let ghost t = task@;
    tasks.push(task);
    assert(task_models(tasks@) =~= task_models(before).push(t));
}

/// No task.
pub(crate) fn no_tasks() -> (tasks: Vec<Task>)
    ensures
        task_models(tasks@) == Seq::<TaskModel>::empty(),
        tasks@.len() == 0,
{
    let tasks: Vec<Task> = Vec::new();
    assert(task_models(tasks@) =~= Seq::empty());
    tasks
}

/// The blocks that a chain has in memory at some heights.
pub(crate) fn collect_held(chain: &Blockchain<PermissiveConsensus>, start: u64, n: u64) -> (blocks: Vec<Block>)
    requires
        chain.wf(),
        start + n <= u64::MAX + 1,
    ensures
        block_models(blocks@) == held_blocks(chain@, start, n as nat),
        blocks@.len() <= n,
{
    let mut blocks: Vec<Block> = Vec::new();
    let mut i: u64 = 0;
    assert(block_models(blocks@) =~= held_blocks(chain@, start, 0));
    while i < n
        invariant
            chain.wf(),
            start + n <= u64::MAX + 1,
            i <= n,
            blocks@.len() <= i,
            block_models(blocks@) == held_blocks(chain@, start, i as nat),
        decreases n - i,
    {
        match chain.block(start + i) {
            Some(b) => {
                let ghost before = blocks@;
                blocks.push(b.clone());
                assert(block_models(blocks@) =~= block_models(before).push(b@));
            },
            None => {},
        }
        i += 1;
    }
    blocks
}

impl SimNet {
    /// Counts accepted blocks.
    fn note_accepted(&mut self, n: u64)
        requires
            old(self).wf(),
        ensures
            final(self).wf(),
            final(self)@ == old(self)@.accepting(n),
    {
        self.stats.blocks_accepted = add_up(self.stats.blocks_accepted, n);
    }

    /// Counts a branch switch on a node.
    fn note_switch(&mut self, node: usize, n: u64)
        requires
            old(self).wf(),
            node < old(self)@.nodes.len(),
        ensures
            final(self).wf(),
            final(self)@ == old(self)@.switching(node, n),
    {
        let ghost s = self@;
        self.note_accepted(n);
        self.stats.reorgs = add_up(self.stats.reorgs, 1);
        self.nodes[node].clear_stuck();
        assert(self@.nodes =~= s.switching(node, n).nodes);
    }

    /// Offers a block to a node. `producers` holds the keys that may produce
    /// the blocks to push.
    pub fn handle_block(&mut self, node: usize, block: Block, producers: &Vec<Vec<PublicKey>>) -> (tasks: Vec<Task>)
        requires
            old(self).wf(),
            node < old(self)@.nodes.len(),
            producers@.len() >= offer_lists(old(self)@.nodes[node as int], block@),
        ensures
            final(self).wf(),
            (final(self)@, task_models(tasks@)) == block_handled(
                old(self)@,
                node,
                block@,
                producer_lists(producers@),
            ),
    {
        let ghost s = self@;
        assert(s.nodes[node as int] == self.nodes@[node as int]@);
        let outcome = self.nodes[node].accept_block(&block, producers);
        proof {
            let n = offered(s.nodes[node as int], block@, producer_lists(producers@)).0;
            assert(self@.nodes =~= s.nodes.update(node as int, n));
            assert(self@ =~= s.with_node(node, n));
        }
        match outcome {
            BlockOutcome::Accepted => {
                self.note_accepted(1);
                one_task(Task::Progress { node, block })
            },
            BlockOutcome::ParkedKnown => one_task(Task::Drain { node, count: 0 }),
            BlockOutcome::ParkedOrphan => one_task(Task::Drain { node, count: 0 }),
            BlockOutcome::Duplicate => no_tasks(),
            BlockOutcome::Rejected(k) => {
                self.rejections.count(k);
                no_tasks()
            },
        }
    }

    /// Takes note that a block became part of a node's chain.
    pub fn after_progress(&mut self, node: usize, block: Block) -> (tasks: Vec<Task>)
        requires
            old(self).wf(),
            node < old(self)@.nodes.len(),
        ensures
            final(self).wf(),
            (final(self)@, task_models(tasks@)) == progress_noted(old(self)@, node, block@),
    {
        broadcast use vstd::std_specs::hash::group_hash_axioms;

        let ghost s = self@;
        let tick: u64 = self.logical_tick;
        self.nodes[node].note_progress(tick, &block.transactions);
        let ghost n = progressed(s.nodes[node as int], s.tick, block@.txs);
        proof {
            assert(self@.nodes =~= s.nodes.update(node as int, n));
            assert(self.nodes@[node as int]@ == n);
        }
        let tip = self.nodes[node].chain().tip().clone();
        let ghost archive = self.archive@;
        let height: u64 = tip.header.height;
        let ghost t = tip@;
        self.archive.insert(height, tip);
        proof {
            assert(self@.archive =~= s.archive.insert(height, t));
            assert(self@ =~= progress_noted(s, node, block@).0);
        }
        let mut tasks = one_task(Task::Anchor { node });
        push_task(&mut tasks, Task::Announce { node, msg: SimMsg::Block(block) });
        assert(task_models(tasks@) =~= progress_noted(s, node, tasks@[1]->Announce_msg->Block_0@).1);
        tasks
    }

    /// Tries the next block of a batch. `producers` are the keys that may
    /// produce it.
    pub fn handle_sync_batch(&mut self, node: usize, blocks: Vec<Block>, done: usize, producers: &Vec<PublicKey>) -> (
    tasks: Vec<Task>)
        requires
            old(self).wf(),
            node < old(self)@.nodes.len(),
            done <= blocks@.len(),
        ensures
            final(self).wf(),
            (final(self)@, task_models(tasks@)) == batch_pushed(
                old(self)@,
                node,
                block_models(blocks@),
                done,
                producers@,
            ),
    {
        let ghost s = self@;
        let ghost all = block_models(blocks@);
        if done < blocks.len() {
            assert(all[done as int] == blocks@[done as int]@);
            let accepted = self.nodes[node].push_next(&blocks[done], producers);
            proof {
                let n = extended_by(s.nodes[node as int], all[done as int], producers@).0;
                assert(self@.nodes =~= s.nodes.update(node as int, n));
                assert(self@ =~= s.with_node(node, n));
            }
            if accepted {
                self.note_accepted(1);
                return one_task(Task::SyncPush { node, blocks, done: done + 1 });
            }
        }
        let mut tasks = no_tasks();
        if done < blocks.len() {
            let mut first = blocks;
            let rest = first.split_off(done);
            assert(block_models(first@) =~= all.take(done as int));
            assert(block_models(rest@) =~= all.skip(done as int));
            push_progress(&mut tasks, node, &first);
            push_task(&mut tasks, Task::SyncAdopt { node, blocks: rest });
        } else {
            push_progress(&mut tasks, node, &blocks);
        }
        assert(task_models(tasks@) =~= batch_rest(node, all, done));
        tasks
    }

    /// Offers the rest of a batch to a node as a branch. `producers` holds
    /// the keys that may produce each block of the replay.
    pub fn adopt_batch(&mut self, node: usize, blocks: Vec<Block>, producers: &Vec<Vec<PublicKey>>) -> (tasks: Vec<Task>)
        requires
            old(self).wf(),
            node < old(self)@.nodes.len(),
            producers@.len() >= adopt_lists(old(self)@.nodes[node as int].chain, block_models(blocks@)),
        ensures
            final(self).wf(),
            (final(self)@, task_models(tasks@)) == batch_adopted(
                old(self)@,
                node,
                block_models(blocks@),
                producer_lists(producers@),
            ),
    {
        let ghost s = self@;
        let ghost all = block_models(blocks@);
        assert(s.nodes[node as int] == self.nodes@[node as int]@);
        let won = self.nodes[node].switch_if_better(&blocks, producers);
        proof {
            let n = switched_to(s.nodes[node as int], all, producer_lists(producers@)).0;
            assert(self@.nodes =~= s.nodes.update(node as int, n));
            assert(self@ =~= s.with_node(node, n));
        }
        let mut tasks = no_tasks();
        if won {
            self.note_switch(node, blocks.len() as u64);
            push_progress(&mut tasks, node, &blocks);
            assert(task_models(tasks@) =~= progress_tasks(node, all));
            return tasks;
        }
        let ghost offers = all.map_values(|b: BlockModel| TaskModel::Block { node, block: b });
        let mut i: usize = 0;
        assert(task_models(tasks@) =~= offers.take(0));
        while i < blocks.len()
            invariant
                i <= blocks@.len(),
                all == block_models(blocks@),
                offers == all.map_values(|b: BlockModel| TaskModel::Block { node, block: b }),
                task_models(tasks@) == offers.take(i as int),
            decreases blocks@.len() - i,
        {
            push_task(&mut tasks, Task::Block { node, block: blocks[i].clone() });
            assert(task_models(tasks@) =~= offers.take(i + 1));
            i += 1;
        }
        assert(offers.take(i as int) =~= offers);
        tasks
    }

    /// Tries the next parked block of a node, after so many were pushed.
    /// `producers` are the keys that may produce it.
    pub fn drain_node(&mut self, node: usize, count: u64, producers: &Vec<PublicKey>) -> (tasks: Vec<Task>)
        requires
            old(self).wf(),
            node < old(self)@.nodes.len(),
        ensures
            final(self).wf(),
            (final(self)@, task_models(tasks@)) == parked_pushed(old(self)@, node, count, producers@),
    {
        let ghost s = self@;
        let accepted = self.nodes[node].drain_parked(producers);
        let ghost n = drained(s.nodes[node as int], producers@).0;
        proof {
            assert(self@.nodes =~= s.nodes.update(node as int, n));
            assert(self@ =~= s.with_node(node, n));
            assert(self.nodes@[node as int]@ == n);
        }
        if accepted {
            return one_task(Task::Drain { node, count: add_up(count, 1) });
        }
        self.note_accepted(count);
        assert(self@.nodes[node as int] == self.nodes@[node as int]@);
        let mut tasks = no_tasks();
        if count > 0 {
            let chain = self.nodes[node].chain();
            let height: u64 = chain.height();
            let held = if count > height {
                collect_held(chain, 0, height + 1)
            } else {
                collect_held(chain, height - (count - 1), count)
            };
            assert(block_models(held@) == last_blocks(n.chain, count));
            push_progress(&mut tasks, node, &held);
        } else {
            assert(progress_tasks(node, last_blocks(n.chain, count)) =~= Seq::empty());
        }
        push_task(&mut tasks, Task::Adopt { node, drained: count });
        assert(task_models(tasks@) =~= parked_pushed(s, node, count, producers@).1);
        tasks
    }

    /// Switches a node to its best parked branch if that wins, after so many
    /// parked blocks were pushed. `producers` holds the keys that may produce
    /// each block of the replay.
    pub fn adopt_parked(&mut self, node: usize, drained: u64, producers: &Vec<Vec<PublicKey>>) -> (tasks: Vec<Task>)
        requires
            old(self).wf(),
            node < old(self)@.nodes.len(),
            ({
                let n = old(self)@.nodes[node as int];
                producers@.len() >= adopt_lists(n.chain, best_branch(n.parked, n.chain))
            }),
        ensures
            final(self).wf(),
            (final(self)@, task_models(tasks@)) == parked_adopted(
                old(self)@,
                node,
                drained,
                producer_lists(producers@),
            ),
    {
        let ghost s = self@;
        assert(s.nodes[node as int] == self.nodes@[node as int]@);
        let branch = self.nodes[node].try_adopt(producers);
        proof {
            let n = readopted(s.nodes[node as int], producer_lists(producers@)).0;
            assert(self@.nodes =~= s.nodes.update(node as int, n));
            assert(self@ =~= s.with_node(node, n));
        }
        match branch {
            Some(blocks) => {
                assert(block_models(blocks@).len() == blocks@.len());
                self.note_switch(node, blocks.len() as u64);
                let mut tasks = no_tasks();
                push_progress(&mut tasks, node, &blocks);
                push_task(&mut tasks, Task::Drain { node, count: 0 });
                assert(task_models(tasks@) =~= parked_adopted(s, node, drained, producer_lists(producers@)).1);
                tasks
            },
            None => {
                if drained == 0 {
                    no_tasks()
                } else {
                    one_task(Task::Drain { node, count: 0 })
                }
            },
        }
    }
}

} // verus!

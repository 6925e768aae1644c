//! Blocks that wait for their place in the chain.
//!
//! A parked block is found by its hash and names its parent, so the parked
//! blocks form lines. A line that begins on a block of the chain is a branch
//! that the chain may switch to.
use vstd::prelude::*;
use crate::chain::Blockchain;
use crate::chain_model::ChainModel;
use crate::consensus::PermissiveConsensus;
use crate::idmap::IdMap;
use crate::ids::BlockHash;
use crate::ids::Digest;
use crate::ids::lemma_ordinal_injective;
use crate::ids::ordinal;
use crate::ids::same_id;
use crate::ids::zeros;
use crate::types::Block;
use crate::types::BlockModel;
use crate::types::block_models;

verus! {

/// Parked blocks as values.
pub open spec fn parked_models(parked: Map<Digest, Block>) -> Map<Digest, BlockModel> {
    parked.map_values(|b: Block| b@)
}

/// The `n`-th forebear of a parked block; the 0-th is the block itself.
pub open spec fn forebear(p: Map<Digest, BlockModel>, k: Digest, n: nat) -> Digest
    decreases n,
{
    if n == 0 {
        k
    } else {
        p[forebear(p, k, (n - 1) as nat)].header.prev_hash
    }
}

/// Whether the first `n` forebears of a block are parked.
pub open spec fn in_line(p: Map<Digest, BlockModel>, k: Digest, n: nat) -> bool {
    forall|i: nat| i < n ==> p.contains_key(#[trigger] forebear(p, k, i))
}

/// Whether the line of a block leaves the parking at some forebear. Only
/// blocks that are their own forebears have a line that does not.
pub open spec fn line_ends(p: Map<Digest, BlockModel>, k: Digest) -> bool {
    exists|n: nat| in_line(p, k, n) && !p.contains_key(#[trigger] forebear(p, k, n))
}

/// Whether the `n` parked blocks that end with a tip begin on a block of the
/// chain.
pub open spec fn is_parked_branch(p: Map<Digest, BlockModel>, m: ChainModel, tip: Digest, n: nat) -> bool {
    &&& n > 0
    &&& in_line(p, tip, n)
    &&& line_ends(p, tip)
    &&& m.knows(forebear(p, tip, n))
}

/// Whether a branch is the longest, and among those the one with the lowest
/// tip hash.
pub open spec fn is_best_parked(p: Map<Digest, BlockModel>, m: ChainModel, tip: Digest, n: nat) -> bool {
    &&& is_parked_branch(p, m, tip, n)
    &&& forall|t: Digest, k: nat| #[trigger]
        is_parked_branch(p, m, t, k) ==> k < n || (k == n && ordinal(tip) <= ordinal(t))
}

/// The blocks of a branch, oldest first.
pub open spec fn branch_blocks(p: Map<Digest, BlockModel>, tip: Digest, n: nat) -> Seq<BlockModel> {
    Seq::new(n, |i: int| p[forebear(p, tip, (n - 1 - i) as nat)])
}

/// The best branch of parked blocks; no block when there is none.
pub open spec fn best_branch(p: Map<Digest, BlockModel>, m: ChainModel) -> Seq<BlockModel> {
    if exists|t: Digest, k: nat| is_best_parked(p, m, t, k) {
        let (t, k) = choose|t: Digest, k: nat| is_best_parked(p, m, t, k);
        branch_blocks(p, t, k)
    } else {
        Seq::empty()
    }
}

/// There is one best branch at most.
proof fn lemma_best_branch(p: Map<Digest, BlockModel>, m: ChainModel, tip: Digest, n: nat)
    requires
        is_best_parked(p, m, tip, n),
    ensures
        best_branch(p, m) == branch_blocks(p, tip, n),
{
    let (t, k) = choose|t: Digest, k: nat| is_best_parked(p, m, t, k);
    assert(is_parked_branch(p, m, t, k));
    assert(is_parked_branch(p, m, tip, n));
    lemma_ordinal_injective(t, tip);
}

/// Equal forebears have equal forebears.
proof fn lemma_forebears_agree(p: Map<Digest, BlockModel>, k: Digest, i: nat, j: nat, d: nat)
    requires
        forebear(p, k, i) == forebear(p, k, j),
    ensures
        forebear(p, k, i + d) == forebear(p, k, j + d),
    decreases d,
{
    if d > 0 {
        lemma_forebears_agree(p, k, i, j, (d - 1) as nat);
    }
}

/// A line longer than the parking never leaves it.
pub(crate) proof fn lemma_endless_line(p: Map<Digest, BlockModel>, k: Digest, n: nat)
    requires
        p.dom().finite(),
        in_line(p, k, n),
        n > p.len(),
    ensures
        !line_ends(p, k),
{
    if line_ends(p, k) {
        let e = choose|e: nat| in_line(p, k, e) && !p.contains_key(#[trigger] forebear(p, k, e));
        if e < n {
            assert(p.contains_key(forebear(p, k, e)));
        }
        let s = Seq::new(e, |i: int| forebear(p, k, i as nat));
        assert forall|i: int, j: int| 0 <= i < j < s.len() implies s[i] != s[j] by {
            if s[i] == s[j] {
                let d = (e - j) as nat;
                lemma_forebears_agree(p, k, i as nat, j as nat, d);
                assert(p.contains_key(forebear(p, k, (i + d) as nat)));
            }
        }
        assert(s.no_duplicates());
        s.unique_seq_to_set();
        assert forall|x: Digest| #[trigger] s.to_set().contains(x) implies p.dom().contains(x) by {
            let i = choose|i: int| 0 <= i < s.len() && s[i] == x;
            assert(p.contains_key(forebear(p, k, i as nat)));
        }
        vstd::set_lib::lemma_len_subset(s.to_set(), p.dom());
    }
}

/// The longest branch with a tip; 0 when it ends none.
fn branch_length(parked: &IdMap<Block>, roots: &IdMap<()>, tip: &Digest, Ghost(m): Ghost<ChainModel>) -> (n: usize)
    requires
        parked.wf(),
        roots.wf(),
        forall|h: Digest| roots@.contains_key(h) <==> #[trigger] m.knows(h),
    ensures
        n > 0 ==> is_parked_branch(parked_models(parked@), m, *tip, n as nat),
        forall|k: nat| #[trigger] is_parked_branch(parked_models(parked@), m, *tip, k) ==> k <= n,
{
    let ghost p = parked_models(parked@);
    let size: usize = parked.len();
    let mut cur: Digest = *tip;
    let mut steps: usize = 0;
    let mut best: usize = 0;
    assert(p.dom() =~= parked@.dom());
    loop
        invariant
            parked.wf(),
            roots.wf(),
            forall|h: Digest| roots@.contains_key(h) <==> #[trigger] m.knows(h),
            p == parked_models(parked@),
            p.dom() == parked@.dom(),
            p.dom().finite(),
            size == p.len(),
            steps <= size,
            best <= steps,
            in_line(p, *tip, steps as nat),
            cur == forebear(p, *tip, steps as nat),
            best > 0 ==> m.knows(forebear(p, *tip, best as nat)),
            forall|k: nat| 0 < k <= steps && m.knows(#[trigger] forebear(p, *tip, k)) ==> k <= best,
        decreases size - steps,
    {
        match parked.get(&cur) {
            None => {
                assert(line_ends(p, *tip));
                assert forall|k: nat| #[trigger] is_parked_branch(p, m, *tip, k) implies k <= best by {
                    if k > steps {
                        assert(p.contains_key(forebear(p, *tip, steps as nat)));
                    }
                }
                return best;
            },
            Some(b) => {
                assert(p[cur] == b@);
                assert(in_line(p, *tip, (steps + 1) as nat)) by {
                    assert forall|i: nat| i < steps + 1 implies p.contains_key(#[trigger] forebear(p, *tip, i)) by {
                        if i == steps {
                            assert(p.contains_key(cur));
                        }
                    }
                }
                if steps == size {
                    proof {
                        lemma_endless_line(p, *tip, (steps + 1) as nat);
                    }
                    return 0;
                }
                cur = b.header.prev_hash;
                steps += 1;
                if roots.contains_key(&cur) {
                    best = steps;
                }
            },
        }
    }
}

/// The blocks of a branch, oldest first.
fn collect_branch(parked: &IdMap<Block>, tip: &Digest, n: usize) -> (blocks: Vec<Block>)
    requires
        parked.wf(),
        in_line(parked_models(parked@), *tip, n as nat),
    ensures
        block_models(blocks@) == branch_blocks(parked_models(parked@), *tip, n as nat),
{
    let ghost p = parked_models(parked@);
    let mut blocks: Vec<Block> = Vec::new();
    let mut cur: Digest = *tip;
    let mut i: usize = 0;
    while i < n
        invariant
            parked.wf(),
            p == parked_models(parked@),
            in_line(p, *tip, n as nat),
            i <= n,
            i < n ==> cur == forebear(p, *tip, i as nat),
            blocks@.len() == i,
            forall|j: int| 0 <= j < i ==> (#[trigger] blocks@[j])@ == p[forebear(p, *tip, (i - 1 - j) as nat)],
        decreases n - i,
    {
        assert(p.contains_key(forebear(p, *tip, i as nat)));
        match parked.get(&cur) {
            Some(b) => {
                let ghost before = blocks@;
                assert(p[cur] == b@);
                blocks.insert(0, b.clone());
                assert forall|j: int| 0 <= j < i + 1 implies (#[trigger] blocks@[j])@ == p[forebear(
                    p,
                    *tip,
                    (i - j) as nat,
                )] by {
                    if j > 0 {
                        assert(blocks@[j] == before[j - 1]);
                    }
                }
                cur = b.header.prev_hash;
            },
            None => {},
        }
        i += 1;
    }
    assert(block_models(blocks@) =~= branch_blocks(p, *tip, n as nat));
    blocks
}

/// The best branch of parked blocks: the longest line that begins on a block
/// of the chain, and among those the one with the lowest tip hash.
pub fn best_parked_branch(parked: &IdMap<Block>, chain: &Blockchain<PermissiveConsensus>) -> (blocks: Vec<Block>)
    requires
        parked.wf(),
    ensures
        block_models(blocks@) == best_branch(parked_models(parked@), chain@),
{
    let ghost p = parked_models(parked@);
    let ghost m = chain@;
    let roots = chain.known_set();
    let size: usize = parked.len();
    let mut tip: Digest = zeros();
    let mut length: usize = 0;
    let mut i: usize = 0;
    let ghost items = parked.items();
    while i < size
        invariant
            parked.wf(),
            roots.wf(),
            forall|h: Digest| roots@.contains_key(h) <==> #[trigger] m.knows(h),
            p == parked_models(parked@),
            items == parked.items(),
            size == items.len(),
            i <= size,
            length > 0 ==> is_parked_branch(p, m, tip, length as nat),
            length > 0 ==> exists|j: int| 0 <= j < i && (#[trigger] items[j]).0 == tip,
            forall|j: int, k: nat|
                0 <= j < i && #[trigger] is_parked_branch(p, m, items[j].0, k) ==> k < length || (k == length && ordinal(
                    tip,
                ) <= ordinal(items[j].0)),
        decreases size - i,
    {
        let key: Digest = parked.entry(i).0;
        let n: usize = branch_length(parked, &roots, &key, Ghost(m));
        proof {
            parked.lemma_items();
            if length > 0 {
                let j = choose|j: int| 0 <= j < i && (#[trigger] items[j]).0 == tip;
                assert(ordinal(items[j].0) < ordinal(items[i as int].0));
            }
        }
        if n > length {
            tip = key;
            length = n;
            assert(items[i as int].0 == tip);
        }
        i += 1;
    }
    proof {
        assert forall|t: Digest, k: nat| #[trigger] is_parked_branch(p, m, t, k) implies k < length || (k == length
            && ordinal(tip) <= ordinal(t)) by {
            assert(p.contains_key(forebear(p, t, 0)));
            assert(parked@.contains_key(t));
            parked.lemma_items();
            let j = choose|j: int| 0 <= j < items.len() && (#[trigger] items[j]).0 == t;
            assert(is_parked_branch(p, m, items[j].0, k));
        }
    }
    if length == 0 {
        proof {
            assert forall|t: Digest, k: nat| !is_best_parked(p, m, t, k) by {
                if is_best_parked(p, m, t, k) {
                    assert(is_parked_branch(p, m, t, k));
                }
            }
            assert(block_models(Seq::<Block>::empty()) =~= best_branch(p, m));
        }
        return Vec::new();
    }
    proof {
        lemma_best_branch(p, m, tip, length as nat);
    }
    collect_branch(parked, &tip, length)
}

/// Parked blocks of a node at most.
pub const PARKED_CAP: usize = 2048;

/// Whether a parked block is the lowest: by height, then by hash.
pub open spec fn is_lowest(p: Map<Digest, BlockModel>, k: Digest) -> bool {
    &&& p.contains_key(k)
    &&& forall|j: Digest| #[trigger]
        p.contains_key(j) ==> p[k].header.height < p[j].header.height || (p[k].header.height == p[j].header.height
            && ordinal(k) <= ordinal(j))
}

/// The parking after room was made for one more block: at the cap, the
/// lowest block leaves.
pub open spec fn with_room(p: Map<Digest, BlockModel>) -> Map<Digest, BlockModel> {
    if p.len() >= PARKED_CAP {
        p.remove(choose|k: Digest| is_lowest(p, k))
    } else {
        p
    }
}

/// Makes room for one more block.
pub fn make_room(parked: &mut IdMap<Block>)
    requires
        old(parked).wf(),
    ensures
        final(parked).wf(),
        parked_models(final(parked)@) == with_room(parked_models(old(parked)@)),
{
    let ghost p = parked_models(parked@);
    let n: usize = parked.len();
    proof {
        assert(p.dom() =~= parked@.dom());
    }
    if n < PARKED_CAP {
        return;
    }
    let mut victim: Digest = parked.entry(0).0;
    let mut height: u64 = parked.entry(0).1.header.height;
    let mut i: usize = 1;
    let ghost items = parked.items();
    assert(items[0].0 == victim);
    while i < n
        invariant
            parked.wf(),
            p == parked_models(parked@),
            items == parked.items(),
            n == items.len(),
            1 <= i <= n,
            p.contains_key(victim),
            height == p[victim].header.height,
            exists|j: int| 0 <= j < i && (#[trigger] items[j]).0 == victim,
            forall|j: int|
                0 <= j < i ==> height < p[(#[trigger] items[j]).0].header.height || (height
                    == p[items[j].0].header.height && ordinal(victim) <= ordinal(items[j].0)),
        decreases n - i,
    {
        let entry = parked.entry(i);
        proof {
            parked.lemma_items();
            let j = choose|j: int| 0 <= j < i && (#[trigger] items[j]).0 == victim;
            assert(ordinal(items[j].0) < ordinal(items[i as int].0));
        }
        if entry.1.header.height < height {
            victim = entry.0;
            height = entry.1.header.height;
            assert(items[i as int].0 == victim);
        }
        i += 1;
    }
    proof {
        parked.lemma_items();
        assert(is_lowest(p, victim)) by {
            assert forall|j: Digest| #[trigger] p.contains_key(j) implies p[victim].header.height
                < p[j].header.height || (p[victim].header.height == p[j].header.height && ordinal(victim)
                <= ordinal(j)) by {
                assert(parked@.contains_key(j));
                let x = choose|x: int| 0 <= x < items.len() && (#[trigger] items[x]).0 == j;
            }
        }
        let k = choose|k: Digest| is_lowest(p, k);
        assert(p.contains_key(victim) && p.contains_key(k));
        lemma_ordinal_injective(k, victim);
        assert(parked_models(parked@.remove(victim)) =~= p.remove(victim));
    }
    parked.remove(&victim);
}

/// Whether a parked block extends a tip.
pub open spec fn extends_tip(p: Map<Digest, BlockModel>, k: Digest, tip: BlockHash, height: u64) -> bool {
    p.contains_key(k) && p[k].header.prev_hash == tip && p[k].header.height == height + 1
}

/// The parked block that extends a tip, the one with the lowest hash if there
/// are several.
pub open spec fn next_parked(p: Map<Digest, BlockModel>, tip: BlockHash, height: u64) -> Option<Digest> {
    if exists|k: Digest| extends_tip(p, k, tip, height) {
        Some(
            choose|k: Digest|
                extends_tip(p, k, tip, height) && forall|j: Digest| #[trigger]
                    extends_tip(p, j, tip, height) ==> ordinal(k) <= ordinal(j),
        )
    } else {
        None
    }
}

/// The parked block that extends a tip, lowest hash first.
pub fn find_next(parked: &IdMap<Block>, tip: &BlockHash, height: u64) -> (key: Option<Digest>)
    requires
        parked.wf(),
    ensures
        key == next_parked(parked_models(parked@), *tip, height),
        key matches Some(k) ==> extends_tip(parked_models(parked@), k, *tip, height),
{
    let ghost p = parked_models(parked@);
    let n: usize = parked.len();
    let mut i: usize = 0;
    let ghost items = parked.items();
    while i < n
        invariant
            parked.wf(),
            p == parked_models(parked@),
            items == parked.items(),
            n == items.len(),
            i <= n,
            forall|j: int| 0 <= j < i ==> !extends_tip(p, (#[trigger] items[j]).0, *tip, height),
        decreases n - i,
    {
        let entry = parked.entry(i);
        let h = &entry.1.header;
        if h.height > 0 && h.height - 1 == height && same_id(&h.prev_hash, tip) {
            let key: Digest = entry.0;
            proof {
                parked.lemma_items();
                assert(extends_tip(p, key, *tip, height));
                assert forall|j: Digest| #[trigger] extends_tip(p, j, *tip, height) implies ordinal(key)
                    <= ordinal(j) by {
                    assert(parked@.contains_key(j));
                    let x = choose|x: int| 0 <= x < items.len() && (#[trigger] items[x]).0 == j;
                    if x > i {
                        assert(ordinal(items[i as int].0) < ordinal(items[x].0));
                    }
                }
                let k = choose|k: Digest|
                    extends_tip(p, k, *tip, height) && forall|j: Digest| #[trigger]
                        extends_tip(p, j, *tip, height) ==> ordinal(k) <= ordinal(j);
                lemma_ordinal_injective(k, key);
            }
            return Some(key);
        }
        i += 1;
    }
    proof {
        assert forall|k: Digest| !extends_tip(p, k, *tip, height) by {
            if extends_tip(p, k, *tip, height) {
                assert(parked@.contains_key(k));
                parked.lemma_items();
                let x = choose|x: int| 0 <= x < items.len() && (#[trigger] items[x]).0 == k;
            }
        }
    }
    None
}

} // verus!

//! Mathematical model of the sparse Merkle tree: the commitment of a
//! key-to-leaves map, and the compact trie that stores it.
use vstd::prelude::*;
use crate::digest::blake3_digest;
use crate::fold::fold_root;
use crate::ids::Digest;
use crate::ids::ascending;
use crate::ids::lemma_ascending_unique;
use crate::ids::lemma_ordinal_injective;
use crate::ids::ordinal;
use crate::smt::BranchNode;
use crate::smt::SMT_EMPTY_LEAF_TAG;
use crate::smt::SMT_NODE_TAG;

verus! {

/// Tag bit of a child slot: an implicit chain down to one leaf.
pub const CHAIN_BIT: u64 = 0x8000_0000_0000_0000;

/// Tag bit of a child slot: a branch point.
pub const NODE_BIT: u64 = 0x4000_0000_0000_0000;

/// The content of the tree: for each key the set of its entry leaves.
pub type Leaves = Map<u64, Set<Digest>>;

// ---- Commitment -------------------------------------------------------

/// Hash of an inner node: tag, left child, right child.
pub open spec fn node_value(left: Digest, right: Digest) -> Digest {
    blake3_digest(SMT_NODE_TAG@ + left@ + right@)
}

/// Hash of a leaf that holds nothing.
pub open spec fn empty_leaf_value() -> Digest {
    blake3_digest(SMT_EMPTY_LEAF_TAG@)
}

/// Merkle root of a bucket: its inner nodes carry no tag.
pub open spec fn bucket_merkle(level: Seq<Digest>) -> Digest {
    fold_root(Seq::empty(), level)
}

/// The members of a set in ascending byte order.
pub open spec fn sorted_members(s: Set<Digest>) -> Seq<Digest> {
    choose|q: Seq<Digest>| ascending(q) && #[trigger] q.to_set() == s
}

/// Value of the leaf at `key`: the Merkle root of its sorted entries.
pub open spec fn leaf_value(m: Leaves, key: u64) -> Digest {
    if m.contains_key(key) {
        bucket_merkle(sorted_members(m[key]))
    } else {
        empty_leaf_value()
    }
}

/// Value of the subtree at depth `d` under the `d`-bit prefix `p`.
pub open spec fn subtree(m: Leaves, d: int, p: int) -> Digest
    decreases 40 - d,
{
    if d >= 40 {
        leaf_value(m, p as u64)
    } else {
        node_value(subtree(m, d + 1, 2 * p), subtree(m, d + 1, 2 * p + 1))
    }
}

/// The commitment: the root of the full binary tree of depth 40.
pub open spec fn smt_root(m: Leaves) -> Digest {
    subtree(m, 0, 0)
}

/// Value of a subtree of height `h` that holds no leaf.
pub open spec fn default_value(h: int) -> Digest
    decreases h,
{
    if h <= 0 {
        empty_leaf_value()
    } else {
        node_value(default_value(h - 1), default_value(h - 1))
    }
}

/// The content after one entry leaf was added.
pub open spec fn with_leaf(m: Leaves, key: u64, leaf: Digest) -> Leaves {
    if m.contains_key(key) {
        m.insert(key, m[key].insert(leaf))
    } else {
        m.insert(key, set![leaf])
    }
}

/// The content after one entry leaf was taken away.
pub open spec fn without_leaf(m: Leaves, key: u64, leaf: Digest) -> Leaves {
    if m.contains_key(key) && m[key].contains(leaf) {
        if m[key].remove(leaf) =~= Set::empty() {
            m.remove(key)
        } else {
            m.insert(key, m[key].remove(leaf))
        }
    } else {
        m
    }
}

/// A well-formed content: 40-bit keys, and at least one leaf under each.
pub open spec fn leaves_wf(m: Leaves) -> bool {
    forall|k: u64| #[trigger] m.contains_key(k) ==> k < 0x100_0000_0000 && m[k].finite() && m[k].len() > 0
}

// ---- Prefixes ---------------------------------------------------------

/// The prefix `n` levels above prefix `p`.
pub open spec fn up(p: int, n: int) -> int
    decreases n,
{
    if n <= 0 {
        p
    } else {
        up(p, n - 1) / 2
    }
}

/// The prefix at depth `e` above position (d, p).
pub open spec fn above(d: int, p: int, e: int) -> int {
    up(p, d - e)
}

/// The `d`-bit prefix of a 40-bit key.
pub open spec fn prefix(key: u64, d: int) -> int {
    above(40, key as int, d)
}

/// Number of prefixes at depth `d`.
pub open spec fn width(d: int) -> int
    decreases d,
{
    if d <= 0 {
        1
    } else {
        2 * width(d - 1)
    }
}

/// Whether (d, p) is a position of the tree.
pub open spec fn position(d: int, p: int) -> bool {
    0 <= d <= 40 && 0 <= p < width(d)
}

/// The other child of the parent of `p`.
pub open spec fn sibling(p: int) -> int {
    if p % 2 == 0 {
        p + 1
    } else {
        p - 1
    }
}

// ---- Compact trie -----------------------------------------------------

/// Slot of an implicit chain down to leaf `key`.
pub open spec fn chain_slot(key: u64) -> u64 {
    CHAIN_BIT | key
}

/// Slot that refers to a branch point.
pub open spec fn node_slot(packed: u64) -> u64 {
    NODE_BIT | packed
}

/// Packed id of a position: the depth above bit 40, the prefix below.
pub open spec fn packed(d: int, p: int) -> u64 {
    ((d as u64) << 40) | (p as u64)
}

/// What the slot over position (d, p) holds, given the set of keys: nothing,
/// the chain of the single key below, or the topmost branch point below.
pub open spec fn slot(keys: Set<u64>, d: int, p: int) -> u64
    decreases 40 - d,
{
    if d >= 40 {
        if keys.contains(p as u64) {
            chain_slot(p as u64)
        } else {
            0
        }
    } else {
        let left = slot(keys, d + 1, 2 * p);
        let right = slot(keys, d + 1, 2 * p + 1);
        if left == 0 {
            right
        } else if right == 0 {
            left
        } else {
            node_slot(packed(d, p))
        }
    }
}

/// Whether keys lie under both children of (d, p).
pub open spec fn is_branch(keys: Set<u64>, d: int, p: int) -> bool {
    &&& position(d, p)
    &&& d < 40
    &&& slot(keys, d + 1, 2 * p) != 0
    &&& slot(keys, d + 1, 2 * p + 1) != 0
}

/// Depth of the position that a slot's content stands at: 40 for a chain.
pub open spec fn slot_depth(c: u64) -> int {
    if c & CHAIN_BIT != 0 {
        40
    } else {
        ((c & !(CHAIN_BIT | NODE_BIT)) >> 40) as int
    }
}

/// Prefix of the position that a slot's content stands at.
pub open spec fn slot_prefix(c: u64) -> int {
    if c & CHAIN_BIT != 0 {
        (c & !(CHAIN_BIT | NODE_BIT)) as int
    } else {
        ((c & !(CHAIN_BIT | NODE_BIT)) & 0xff_ffff_ffff) as int
    }
}

/// Depth in a packed id.
pub open spec fn id_depth(id: u64) -> int {
    (id >> 40) as int
}

/// Prefix in a packed id.
pub open spec fn id_prefix(id: u64) -> int {
    (id & 0xff_ffff_ffff) as int
}

/// Whether a packed id is that of a branch point.
pub open spec fn branch_id(keys: Set<u64>, id: u64) -> bool {
    is_branch(keys, id_depth(id), id_prefix(id)) && id == packed(id_depth(id), id_prefix(id))
}

/// Packed ids of the branch points on the path of `key` above depth `d`,
/// deepest first.
pub open spec fn path_branches(keys: Set<u64>, key: u64, d: int) -> Seq<u64>
    decreases d,
{
    if d <= 0 {
        Seq::empty()
    } else {
        let rest = path_branches(keys, key, d - 1);
        if is_branch(keys, d - 1, prefix(key, d - 1)) {
            seq![packed(d - 1, prefix(key, d - 1))] + rest
        } else {
            rest
        }
    }
}

// ---- Bit facts --------------------------------------------------------

pub proof fn lemma_chain_bits(k: u64)
    requires
        k < 0x100_0000_0000,
    ensures
        chain_slot(k) & CHAIN_BIT != 0,
        chain_slot(k) & NODE_BIT == 0,
        chain_slot(k) & !(CHAIN_BIT | NODE_BIT) == k,
        chain_slot(k) != 0,
{
    assert((0x8000_0000_0000_0000u64 | k) & 0x8000_0000_0000_0000u64 != 0 && (0x8000_0000_0000_0000u64 | k)
        & 0x4000_0000_0000_0000u64 == 0 && (0x8000_0000_0000_0000u64 | k) & !(0x8000_0000_0000_0000u64
        | 0x4000_0000_0000_0000u64) == k && (0x8000_0000_0000_0000u64 | k) != 0) by (bit_vector)
        requires
            k < 0x100_0000_0000u64,
    ;
}

pub proof fn lemma_node_bits(d: u64, p: u64)
    requires
        d <= 40,
        p < 0x100_0000_0000,
    ensures
        ({
            let c = node_slot((d << 40) | p);
            &&& c & NODE_BIT != 0
            &&& c & CHAIN_BIT == 0
            &&& c & !(CHAIN_BIT | NODE_BIT) == (d << 40) | p
            &&& c != 0
        }),
        ((d << 40) | p) >> 40 == d,
        ((d << 40) | p) & 0xff_ffff_ffff == p,
{
    assert(({
        let c = 0x4000_0000_0000_0000u64 | ((d << 40) | p);
        c & 0x4000_0000_0000_0000u64 != 0 && c & 0x8000_0000_0000_0000u64 == 0 && c & !(
        0x8000_0000_0000_0000u64 | 0x4000_0000_0000_0000u64) == (d << 40) | p && c != 0
    }) && ((d << 40) | p) >> 40 == d && ((d << 40) | p) & 0xff_ffff_ffffu64 == p) by (bit_vector)
        requires
            d <= 40u64,
            p < 0x100_0000_0000u64,
    ;
}

/// At depth 40 the prefixes are the 40-bit keys.
pub proof fn lemma_width()
    ensures
        width(40) == 0x100_0000_0000,
        width(0) == 1,
{
    reveal_with_fuel(width, 41);
}

pub proof fn lemma_width_monotone(a: int, b: int)
    requires
        0 <= a <= b,
    ensures
        1 <= width(a) <= width(b),
    decreases b,
{
    if a < b {
        lemma_width_monotone(a, b - 1);
    } else if a > 0 {
        lemma_width_monotone(a - 1, a - 1);
    }
}

/// A position's prefix fits in 40 bits.
pub proof fn lemma_position_range(d: int, p: int)
    requires
        position(d, p),
    ensures
        0 <= p < 0x100_0000_0000,
{
    lemma_width();
    lemma_width_monotone(d, 40);
}

/// Different positions have different packed ids, and `unpack` inverts it.
pub proof fn lemma_packed(d: int, p: int)
    requires
        position(d, p),
    ensures
        (packed(d, p) >> 40) as int == d,
        (packed(d, p) & 0xff_ffff_ffff) as int == p,
        node_slot(packed(d, p)) & NODE_BIT != 0,
        node_slot(packed(d, p)) & CHAIN_BIT == 0,
        node_slot(packed(d, p)) & !(CHAIN_BIT | NODE_BIT) == packed(d, p),
        node_slot(packed(d, p)) != 0,
{
    lemma_position_range(d, p);
    lemma_node_bits(d as u64, p as u64);
}

pub proof fn lemma_packed_injective(d: int, p: int, e: int, q: int)
    requires
        position(d, p),
        position(e, q),
        packed(d, p) == packed(e, q),
    ensures
        d == e,
        p == q,
{
    lemma_packed(d, p);
    lemma_packed(e, q);
}

/// A shift by `n` is `n` levels up.
pub proof fn lemma_shift(key: u64, n: int)
    requires
        0 <= n <= 40,
    ensures
        (key >> (n as u64)) as int == up(key as int, n),
    decreases n,
{
    if n == 0 {
        assert(key >> 0u64 == key) by (bit_vector);
    } else {
        lemma_shift(key, n - 1);
        let m = (n - 1) as u64;
        assert(key >> ((m + 1) as u64) == (key >> m) / 2) by (bit_vector)
            requires
                m < 40,
        ;
    }
}

/// The low bit of a prefix says which child it is.
pub proof fn lemma_low_bit(x: u64)
    ensures
        x & 1 == x % 2,
{
    assert(x & 1 == x % 2) by (bit_vector);
}

/// The prefix of a 40-bit key is a position, and one level down adds a bit.
pub proof fn lemma_prefix(key: u64, d: int)
    requires
        key < 0x100_0000_0000,
        0 <= d <= 40,
    ensures
        position(d, prefix(key, d)),
        d < 40 ==> prefix(key, d) == prefix(key, d + 1) / 2,
        d == 40 ==> prefix(key, d) == key,
    decreases 40 - d,
{
    lemma_width();
    if d < 40 {
        lemma_prefix(key, d + 1);
        assert(width(d + 1) == 2 * width(d));
    }
}

pub proof fn lemma_up_sum(p: int, a: int, b: int)
    requires
        0 <= a,
        0 <= b,
    ensures
        up(up(p, a), b) == up(p, a + b),
    decreases b,
{
    if b > 0 {
        lemma_up_sum(p, a, b - 1);
    }
}

/// Prefixes above a position are positions.
pub proof fn lemma_up_position(d: int, p: int, n: int)
    requires
        position(d, p),
        0 <= n <= d,
    ensures
        position(d - n, up(p, n)),
    decreases n,
{
    if n > 0 {
        lemma_up_position(d, p, n - 1);
        assert(width(d - n + 1) == 2 * width(d - n));
    }
}

/// Children of a position are positions.
pub proof fn lemma_children(d: int, p: int)
    requires
        position(d, p),
        d < 40,
    ensures
        position(d + 1, 2 * p),
        position(d + 1, 2 * p + 1),
{
    assert(width(d + 1) == 2 * width(d));
}

// ---- Slots ------------------------------------------------------------

/// What a filled slot says: the position (e, q) that its content stands at
/// lies below, nothing hangs off the way down to it, and there stands a leaf
/// or a branch point.
pub proof fn lemma_slot(keys: Set<u64>, d: int, p: int)
    requires
        position(d, p),
        slot(keys, d, p) != 0,
    ensures
        ({
            let c = slot(keys, d, p);
            let e = slot_depth(c);
            let q = slot_prefix(c);
            &&& d <= e <= 40
            &&& position(e, q)
            &&& above(e, q, d) == p
            &&& forall|f: int| d <= f <= e ==> slot(keys, f, #[trigger] above(e, q, f)) == c
            &&& forall|f: int|
                d < f <= e ==> slot(keys, f, sibling(#[trigger] above(e, q, f))) == 0
            &&& (c & CHAIN_BIT != 0) == (e == 40)
            &&& (c & NODE_BIT != 0) == (e < 40)
            &&& e == 40 ==> c == chain_slot(q as u64) && keys.contains(q as u64)
            &&& e < 40 ==> c == node_slot(packed(e, q)) && is_branch(keys, e, q)
        }),
    decreases 40 - d,
{
    lemma_position_range(d, p);
    let c = slot(keys, d, p);
    let e = slot_depth(c);
    let q = slot_prefix(c);
    if d == 40 {
        lemma_chain_bits(p as u64);
        assert forall|f: int| d <= f <= e implies slot(keys, f, #[trigger] above(e, q, f)) == c by {
            assert(f == 40);
        }
    } else {
        lemma_children(d, p);
        let left = slot(keys, d + 1, 2 * p);
        let right = slot(keys, d + 1, 2 * p + 1);
        if left == 0 || right == 0 {
            let child = if left == 0 { 2 * p + 1 } else { 2 * p };
            lemma_slot(keys, d + 1, child);
            assert(above(e, q, d + 1) == child);
            assert(above(e, q, d) == above(e, q, d + 1) / 2);
            assert forall|f: int| d <= f <= e implies slot(keys, f, #[trigger] above(e, q, f)) == c by {
            }
            assert forall|f: int| d < f <= e implies slot(keys, f, sibling(#[trigger] above(e, q, f))) == 0 by {
            }
        } else {
            lemma_packed(d, p);
            assert(e == d && q == p);
            assert forall|f: int| d <= f <= e implies slot(keys, f, #[trigger] above(e, q, f)) == c by {
            }
        }
    }
}

/// Below an empty slot every slot is empty.
pub proof fn lemma_empty_below(keys: Set<u64>, key: u64, d: int, e: int)
    requires
        key < 0x100_0000_0000,
        0 <= d <= e <= 40,
        slot(keys, d, prefix(key, d)) == 0,
    ensures
        slot(keys, e, prefix(key, e)) == 0,
        e < 40 ==> slot(keys, e + 1, sibling(prefix(key, e + 1))) == 0,
    decreases e - d,
{
    lemma_prefix(key, d);
    if d < 40 {
        lemma_prefix(key, d + 1);
        lemma_packed(d, prefix(key, d));
        if d < e {
            lemma_empty_below(keys, key, d + 1, e);
        }
    }
}

/// An empty slot stands over an empty subtree.
pub proof fn lemma_empty_value(m: Leaves, d: int, p: int)
    requires
        position(d, p),
        slot(m.dom(), d, p) == 0,
    ensures
        subtree(m, d, p) == default_value(40 - d),
    decreases 40 - d,
{
    lemma_position_range(d, p);
    if d < 40 {
        lemma_children(d, p);
        lemma_packed(d, p);
        lemma_empty_value(m, d + 1, 2 * p);
        lemma_empty_value(m, d + 1, 2 * p + 1);
    } else {
        lemma_chain_bits(p as u64);
    }
}

/// Slots over a key that is there are filled.
pub proof fn lemma_key_fills(keys: Set<u64>, key: u64, d: int)
    requires
        key < 0x100_0000_0000,
        keys.contains(key),
        0 <= d <= 40,
    ensures
        slot(keys, d, prefix(key, d)) != 0,
    decreases 40 - d,
{
    lemma_prefix(key, d);
    if d < 40 {
        lemma_prefix(key, d + 1);
        lemma_key_fills(keys, key, d + 1);
        lemma_packed(d, prefix(key, d));
    } else {
        lemma_chain_bits(key);
    }
}

/// Slots above a filled slot are filled.
pub proof fn lemma_filled_above(keys: Set<u64>, key: u64, d: int, e: int)
    requires
        key < 0x100_0000_0000,
        0 <= d <= e <= 40,
        slot(keys, e, prefix(key, e)) != 0,
    ensures
        slot(keys, d, prefix(key, d)) != 0,
{
    if slot(keys, d, prefix(key, d)) == 0 {
        lemma_empty_below(keys, key, d, e);
    }
}

/// Two key sets that agree off `key` have the same slots off its path.
pub proof fn lemma_slot_frame(a: Set<u64>, b: Set<u64>, key: u64, d: int, p: int)
    requires
        key < 0x100_0000_0000,
        a.remove(key) == b.remove(key),
        position(d, p),
        p != prefix(key, d),
    ensures
        slot(a, d, p) == slot(b, d, p),
    decreases 40 - d,
{
    lemma_position_range(d, p);
    lemma_prefix(key, d);
    if d < 40 {
        lemma_children(d, p);
        lemma_slot_frame(a, b, key, d + 1, 2 * p);
        lemma_slot_frame(a, b, key, d + 1, 2 * p + 1);
    } else {
        assert(a.contains(p as u64) == a.remove(key).contains(p as u64));
        assert(b.contains(p as u64) == b.remove(key).contains(p as u64));
    }
}

/// Two contents that agree off `key` have the same values off its path.
pub proof fn lemma_value_frame(a: Leaves, b: Leaves, key: u64, d: int, p: int)
    requires
        key < 0x100_0000_0000,
        a.remove(key) == b.remove(key),
        position(d, p),
        p != prefix(key, d),
    ensures
        subtree(a, d, p) == subtree(b, d, p),
    decreases 40 - d,
{
    lemma_position_range(d, p);
    lemma_prefix(key, d);
    if d < 40 {
        lemma_children(d, p);
        lemma_value_frame(a, b, key, d + 1, 2 * p);
        lemma_value_frame(a, b, key, d + 1, 2 * p + 1);
    } else {
        let k = p as u64;
        assert(a.contains_key(k) == a.remove(key).contains_key(k));
        assert(b.contains_key(k) == b.remove(key).contains_key(k));
        if a.contains_key(k) {
            assert(a.remove(key)[k] == a[k]);
            assert(b.remove(key)[k] == b[k]);
        }
    }
}

/// The step from a position on the path of `key` to its two children: one is
/// on the path, the other is its sibling.
pub proof fn lemma_path_step(keys: Set<u64>, key: u64, d: int)
    requires
        key < 0x100_0000_0000,
        0 <= d < 40,
    ensures
        ({
            let p = prefix(key, d);
            let c = prefix(key, d + 1);
            let on = slot(keys, d + 1, c);
            let off = slot(keys, d + 1, sibling(c));
            &&& position(d, p)
            &&& position(d + 1, c)
            &&& position(d + 1, sibling(c))
            &&& sibling(c) != c
            &&& c / 2 == p
            &&& c == 2 * p + c % 2
            &&& sibling(c) == 2 * p + 1 - c % 2
            &&& is_branch(keys, d, p) == (on != 0 && off != 0)
            &&& on == 0 ==> slot(keys, d, p) == off
            &&& off == 0 ==> slot(keys, d, p) == on
            &&& on != 0 && off != 0 ==> slot(keys, d, p) == node_slot(packed(d, p))
        }),
{
    lemma_prefix(key, d);
    lemma_prefix(key, d + 1);
    lemma_children(d, prefix(key, d));
}

// ---- Adding and taking away a key ---------------------------------------

/// Positions that agree at one depth agree above it.
pub proof fn lemma_agree_above(d: int, p: int, key: u64, f: int, g: int)
    requires
        key < 0x100_0000_0000,
        0 <= f <= g <= d <= 40,
        above(d, p, g) == prefix(key, g),
    ensures
        above(d, p, f) == prefix(key, f),
{
    lemma_up_sum(p, d - g, g - f);
    lemma_up_sum(key as int, 40 - g, g - f);
}

/// Under an empty slot a new key hangs as a bare chain.
pub proof fn lemma_lone_chain(keys: Set<u64>, key: u64, d: int)
    requires
        key < 0x100_0000_0000,
        0 <= d <= 40,
        slot(keys, d, prefix(key, d)) == 0,
    ensures
        slot(keys.insert(key), d, prefix(key, d)) == chain_slot(key),
    decreases 40 - d,
{
    let more = keys.insert(key);
    lemma_chain_bits(key);
    lemma_prefix(key, d);
    if d < 40 {
        lemma_path_step(keys, key, d);
        lemma_path_step(more, key, d);
        lemma_packed(d, prefix(key, d));
        lemma_lone_chain(keys, key, d + 1);
        assert(keys.remove(key) =~= more.remove(key));
        lemma_slot_frame(keys, more, key, d + 1, sibling(prefix(key, d + 1)));
    }
}

/// Where a new key joins the trie: `e` is the depth of the slot that it
/// falls into, `div` the depth at which it parts from what hangs there.
pub open spec fn joins_at(keys: Set<u64>, key: u64, e: int, div: int) -> bool {
    let c = slot(keys, e, prefix(key, e));
    &&& key < 0x100_0000_0000
    &&& 0 <= e <= div < slot_depth(c)
    &&& slot_depth(c) <= 40
    &&& c != 0
    &&& e > 0 ==> is_branch(keys, e - 1, prefix(key, e - 1))
    &&& above(slot_depth(c), slot_prefix(c), div) == prefix(key, div)
    &&& above(slot_depth(c), slot_prefix(c), div + 1) != prefix(key, div + 1)
}

/// Where a new key parts from what hangs in its slot: its own side is empty,
/// the other side holds all of the slot's content.
pub proof fn lemma_parting(keys: Set<u64>, key: u64, e: int, div: int)
    requires
        joins_at(keys, key, e, div),
    ensures
        slot(keys, div + 1, prefix(key, div + 1)) == 0,
        slot(keys, div + 1, sibling(prefix(key, div + 1))) == slot(keys, e, prefix(key, e)),
        forall|f: int|
            e < f <= div ==> slot(keys, f, sibling(#[trigger] prefix(key, f))) == 0,
        forall|f: int|
            e <= f <= div ==> slot(keys, f, #[trigger] prefix(key, f)) == slot(keys, e, prefix(key, e)),
        forall|f: int| div < f <= 40 ==> slot(keys, f, #[trigger] prefix(key, f)) == 0,
        forall|f: int| div + 1 < f <= 40 ==> slot(keys, f, sibling(#[trigger] prefix(key, f))) == 0,
        !keys.contains(key),
{
    let c = slot(keys, e, prefix(key, e));
    let dd = slot_depth(c);
    let pp = slot_prefix(c);
    lemma_prefix(key, e);
    lemma_slot(keys, e, prefix(key, e));
    lemma_path_step(keys, key, div);
    lemma_up_position(dd, pp, dd - div - 1);
    assert(above(dd, pp, div) == above(dd, pp, div + 1) / 2);
    let mine = prefix(key, div + 1);
    let other = above(dd, pp, div + 1);
    assert(sibling(mine) == other);
    assert(sibling(other) == mine);
    assert forall|f: int| e < f <= div implies slot(keys, f, sibling(#[trigger] prefix(key, f))) == 0 by {
        lemma_agree_above(dd, pp, key, f, div);
        assert(above(dd, pp, f) == prefix(key, f));
    }
    assert forall|f: int| e <= f <= div implies slot(keys, f, #[trigger] prefix(key, f)) == c by {
        lemma_agree_above(dd, pp, key, f, div);
        assert(above(dd, pp, f) == prefix(key, f));
    }
    assert forall|f: int| div < f <= 40 implies slot(keys, f, #[trigger] prefix(key, f)) == 0 by {
        lemma_empty_below(keys, key, div + 1, f);
    }
    assert forall|f: int| div + 1 < f <= 40 implies slot(keys, f, sibling(#[trigger] prefix(key, f))) == 0 by {
        lemma_empty_below(keys, key, div + 1, f - 1);
    }
    if keys.contains(key) {
        lemma_key_fills(keys, key, div + 1);
    }
}

/// The slots on the path of a new key, from its leaf up: a bare chain below
/// the new branch point, the branch point above it, and the old content
/// from the slot that it fell into on.
pub proof fn lemma_joined_slot(keys: Set<u64>, key: u64, e: int, div: int, d: int)
    requires
        joins_at(keys, key, e, div),
        0 <= d <= 40,
    ensures
        div < d ==> slot(keys.insert(key), d, prefix(key, d)) == chain_slot(key),
        e <= d <= div ==> slot(keys.insert(key), d, prefix(key, d)) == node_slot(
            packed(div, prefix(key, div)),
        ),
        d < e ==> slot(keys.insert(key), d, prefix(key, d)) == slot(keys, d, prefix(key, d)),
    decreases 40 - d,
{
    let more = keys.insert(key);
    lemma_parting(keys, key, e, div);
    if div < d {
        assert(slot(keys, d, prefix(key, d)) == 0);
        lemma_lone_chain(keys, key, d);
    } else {
        lemma_joined_slot(keys, key, e, div, d + 1);
        lemma_path_step(keys, key, d);
        lemma_path_step(more, key, d);
        assert(keys.remove(key) =~= more.remove(key));
        lemma_slot_frame(keys, more, key, d + 1, sibling(prefix(key, d + 1)));
        lemma_chain_bits(key);
        lemma_prefix(key, div);
        lemma_packed(div, prefix(key, div));
        if d == div {
        } else if e <= d {
            assert(slot(keys, d + 1, sibling(prefix(key, d + 1))) == 0);
        } else if d == e - 1 {
        }
    }
}

/// Which positions are branch points after a new key joined: those before,
/// and the one where it parted.
pub proof fn lemma_joined_branches(keys: Set<u64>, key: u64, e: int, div: int, d: int, p: int)
    requires
        joins_at(keys, key, e, div),
        position(d, p),
        d < 40,
    ensures
        is_branch(keys.insert(key), d, p) == (is_branch(keys, d, p) || (d == div && p == prefix(
            key,
            div,
        ))),
        !is_branch(keys, div, prefix(key, div)),
        p != prefix(key, d) ==> slot(keys.insert(key), d + 1, 2 * p) == slot(keys, d + 1, 2 * p) && slot(
            keys.insert(key),
            d + 1,
            2 * p + 1,
        ) == slot(keys, d + 1, 2 * p + 1),
        slot(keys.insert(key), d + 1, sibling(prefix(key, d + 1))) == slot(
            keys,
            d + 1,
            sibling(prefix(key, d + 1)),
        ),
{
    let more = keys.insert(key);
    lemma_parting(keys, key, e, div);
    lemma_prefix(key, div);
    lemma_path_step(keys, key, div);
    lemma_path_step(keys, key, d);
    lemma_path_step(more, key, d);
    assert(keys.remove(key) =~= more.remove(key));
    lemma_slot_frame(keys, more, key, d + 1, sibling(prefix(key, d + 1)));
    lemma_children(d, p);
    if p != prefix(key, d) {
        lemma_slot_frame(keys, more, key, d + 1, 2 * p);
        lemma_slot_frame(keys, more, key, d + 1, 2 * p + 1);
    } else {
        lemma_joined_slot(keys, key, e, div, d + 1);
        lemma_chain_bits(key);
        lemma_packed(div, prefix(key, div));
        if d < div {
            if d + 1 > e {
                assert(slot(keys, d + 1, sibling(prefix(key, d + 1))) == 0);
            } else {
                lemma_filled_above(keys, key, d + 1, e);
            }
        } else if d > div {
            assert(slot(keys, d + 1, sibling(prefix(key, d + 1))) == 0);
        }
    }
}

/// Taking away a key whose bare chain hangs below the branch point at
/// `div`: without it, the key would join just there.
pub proof fn lemma_leaves_at(keys: Set<u64>, key: u64, e: int, div: int)
    requires
        key < 0x100_0000_0000,
        keys.contains(key),
        0 <= e <= div < 40,
        slot(keys, div + 1, prefix(key, div + 1)) == chain_slot(key),
        is_branch(keys, div, prefix(key, div)),
        forall|f: int| e <= f < div ==> !is_branch(keys, f, #[trigger] prefix(key, f)),
        e > 0 ==> is_branch(keys, e - 1, prefix(key, e - 1)),
    ensures
        joins_at(keys.remove(key), key, e, div),
        keys.remove(key).insert(key) == keys,
        slot(keys.remove(key), e, prefix(key, e)) == slot(keys, div + 1, sibling(prefix(key, div + 1))),
{
    let less = keys.remove(key);
    assert(less.insert(key) =~= keys);
    assert(less.remove(key) =~= keys.remove(key));
    let c = slot(keys, div + 1, sibling(prefix(key, div + 1)));
    lemma_path_step(keys, key, div);
    lemma_alone_gone(keys, key, div + 1);
    lemma_gone_slot(keys, key, e, div, e);
    lemma_slot(keys, div + 1, sibling(prefix(key, div + 1)));
    assert(above(slot_depth(c), slot_prefix(c), div) == above(slot_depth(c), slot_prefix(c), div + 1) / 2);
    if e > 0 {
        lemma_path_step(keys, key, e - 1);
        lemma_path_step(less, key, e - 1);
        lemma_slot_frame(keys, less, key, e, sibling(prefix(key, e)));
    }
}

/// A key that hangs as a bare chain leaves an empty slot.
pub proof fn lemma_alone_gone(keys: Set<u64>, key: u64, d: int)
    requires
        key < 0x100_0000_0000,
        0 <= d <= 40,
        slot(keys, d, prefix(key, d)) == chain_slot(key),
    ensures
        slot(keys.remove(key), d, prefix(key, d)) == 0,
    decreases 40 - d,
{
    let less = keys.remove(key);
    lemma_chain_bits(key);
    lemma_prefix(key, d);
    lemma_slot(keys, d, prefix(key, d));
    if d < 40 {
        lemma_path_step(keys, key, d);
        lemma_path_step(less, key, d);
        assert(above(40, key as int, d + 1) == prefix(key, d + 1));
        lemma_alone_gone(keys, key, d + 1);
        assert(less.remove(key) =~= keys.remove(key));
        lemma_slot_frame(keys, less, key, d + 1, sibling(prefix(key, d + 1)));
    }
}

proof fn lemma_gone_slot(keys: Set<u64>, key: u64, e: int, div: int, d: int)
    requires
        key < 0x100_0000_0000,
        keys.contains(key),
        0 <= e <= d <= div < 40,
        is_branch(keys, div, prefix(key, div)),
        slot(keys.remove(key), div + 1, prefix(key, div + 1)) == 0,
        forall|f: int| e <= f < div ==> !is_branch(keys, f, #[trigger] prefix(key, f)),
    ensures
        slot(keys.remove(key), d, prefix(key, d)) == slot(keys, div + 1, sibling(prefix(key, div + 1))),
    decreases div - d,
{
    let less = keys.remove(key);
    assert(less.remove(key) =~= keys.remove(key));
    lemma_path_step(keys, key, d);
    lemma_path_step(less, key, d);
    lemma_slot_frame(keys, less, key, d + 1, sibling(prefix(key, d + 1)));
    if d < div {
        lemma_gone_slot(keys, key, e, div, d + 1);
        lemma_key_fills(keys, key, d + 1);
        assert(!is_branch(keys, d, prefix(key, d)));
    }
}

/// A stretch of the path without branch points adds nothing to the list.
pub proof fn lemma_path_stretch(keys: Set<u64>, key: u64, d: int, e: int)
    requires
        0 <= d <= e <= 40,
        forall|f: int| d <= f < e ==> !is_branch(keys, f, #[trigger] prefix(key, f)),
    ensures
        path_branches(keys, key, e) == path_branches(keys, key, d),
    decreases e - d,
{
    if d < e {
        assert(!is_branch(keys, e - 1, prefix(key, e - 1)));
        lemma_path_stretch(keys, key, d, e - 1);
    }
}

/// The deepest branch point on the path above depth `d`: its depth, if there
/// is one.
pub proof fn lemma_deepest_branch(keys: Set<u64>, key: u64, d: int) -> (f: int)
    requires
        0 <= d <= 40,
    ensures
        path_branches(keys, key, d).len() == 0 ==> f == -1,
        path_branches(keys, key, d).len() > 0 ==> {
            &&& 0 <= f < d
            &&& is_branch(keys, f, prefix(key, f))
            &&& path_branches(keys, key, d) == seq![packed(f, prefix(key, f))] + path_branches(keys, key, f)
        },
        forall|g: int| f < g < d ==> !is_branch(keys, g, #[trigger] prefix(key, g)),
    decreases d,
{
    if d == 0 {
        -1
    } else if is_branch(keys, d - 1, prefix(key, d - 1)) {
        d - 1
    } else {
        lemma_deepest_branch(keys, key, d - 1)
    }
}

/// Off the path of `key` the list of branch points plays no role: two key
/// sets that agree on which positions of the path branch have one list.
pub proof fn lemma_path_same(a: Set<u64>, b: Set<u64>, key: u64, d: int)
    requires
        0 <= d <= 40,
        forall|f: int|
            0 <= f < d ==> is_branch(a, f, #[trigger] prefix(key, f)) == is_branch(b, f, prefix(key, f)),
    ensures
        path_branches(a, key, d) == path_branches(b, key, d),
    decreases d,
{
    if d > 0 {
        assert(is_branch(a, d - 1, prefix(key, d - 1)) == is_branch(b, d - 1, prefix(key, d - 1)));
        lemma_path_same(a, b, key, d - 1);
    }
}

// ---- Leaves -----------------------------------------------------------

/// An ascending sequence is the sorted list of its members.
pub proof fn lemma_sorted_members(q: Seq<Digest>)
    requires
        ascending(q),
    ensures
        sorted_members(q.to_set()) == q,
{
    let r = sorted_members(q.to_set());
    assert(ascending(r) && r.to_set() == q.to_set());
    lemma_ascending_unique(r, q);
}

/// A finite set has a member of the highest rank.
proof fn lemma_highest_member(s: Set<Digest>) -> (x: Digest)
    requires
        s.finite(),
        s.len() > 0,
    ensures
        s.contains(x),
        forall|y: Digest| #[trigger] s.contains(y) ==> ordinal(y) <= ordinal(x),
    decreases s.len(),
{
    let a = s.choose();
    if s.remove(a).len() == 0 {
        assert forall|y: Digest| #[trigger] s.contains(y) implies ordinal(y) <= ordinal(a) by {
            if y != a {
                assert(s.remove(a).contains(y));
            }
        }
        a
    } else {
        let b = lemma_highest_member(s.remove(a));
        let x = if ordinal(a) > ordinal(b) {
            a
        } else {
            b
        };
        assert forall|y: Digest| #[trigger] s.contains(y) implies ordinal(y) <= ordinal(x) by {
            if y != a {
                assert(s.remove(a).contains(y));
            }
        }
        x
    }
}

/// The sorted list of a finite set holds its members in ascending order.
pub proof fn lemma_sorted_list(s: Set<Digest>)
    requires
        s.finite(),
    ensures
        ascending(sorted_members(s)),
        sorted_members(s).to_set() == s,
    decreases s.len(),
{
    if s.len() == 0 {
        let q = Seq::<Digest>::empty();
        assert(q.to_set() =~= s);
        lemma_sorted_members(q);
    } else {
        let x = lemma_highest_member(s);
        let rest = s.remove(x);
        lemma_sorted_list(rest);
        let q = sorted_members(rest);
        let r = q.push(x);
        assert forall|i: int, j: int| 0 <= i < j < r.len() implies ordinal(#[trigger] r[i]) < ordinal(
            #[trigger] r[j],
        ) by {
            if j == q.len() {
                assert(q.to_set().contains(q[i]));
                assert(rest.contains(q[i]));
                if ordinal(q[i]) == ordinal(x) {
                    lemma_ordinal_injective(q[i], x);
                }
            }
        }
        assert(r.to_set() =~= s) by {
            assert forall|y: Digest| r.contains(y) == s.contains(y) by {
                if s.contains(y) && y != x {
                    assert(q.to_set().contains(y));
                    let i = choose|i: int| 0 <= i < q.len() && q[i] == y;
                    assert(r[i] == y);
                }
                if s.contains(y) && y == x {
                    assert(r[q.len() as int] == y);
                }
                if r.contains(y) {
                    let i = choose|i: int| 0 <= i < r.len() && r[i] == y;
                    if i < q.len() {
                        assert(q.to_set().contains(q[i]));
                    }
                }
            }
        }
        lemma_sorted_members(r);
    }
}

/// A key with one leaf has that leaf as its value.
pub proof fn lemma_single_leaf(m: Leaves, key: u64, leaf: Digest)
    requires
        m.contains_key(key),
        m[key] == set![leaf],
    ensures
        leaf_value(m, key) == leaf,
{
    let q = seq![leaf];
    assert(q.to_set() =~= set![leaf]) by {
        assert(q[0] == leaf);
    }
    lemma_sorted_members(q);
}

// ---- Stored nodes -----------------------------------------------------

/// The stored branch points are those of the key set, with their slots.
pub open spec fn shape_ok(nodes: Map<u64, BranchNode>, root_child: u64, keys: Set<u64>) -> bool {
    &&& root_child == slot(keys, 0, 0)
    &&& forall|id: u64| #[trigger] nodes.contains_key(id) <==> branch_id(keys, id)
    &&& forall|id: u64| #[trigger]
        nodes.contains_key(id) ==> nodes[id].left == slot(keys, id_depth(id) + 1, 2 * id_prefix(id))
            && nodes[id].right == slot(keys, id_depth(id) + 1, 2 * id_prefix(id) + 1)
}

/// Stored hashes are right off the path of `key`, and on it from depth `d` on.
pub open spec fn hashes_from(nodes: Map<u64, BranchNode>, m: Leaves, key: u64, d: int) -> bool {
    forall|id: u64| #[trigger]
        nodes.contains_key(id) && (id_prefix(id) != prefix(key, id_depth(id)) || id_depth(id) >= d)
            ==> nodes[id].hash == subtree(m, id_depth(id), id_prefix(id))
}

/// Every stored hash is that of its subtree.
pub open spec fn hashes_ok(nodes: Map<u64, BranchNode>, m: Leaves) -> bool {
    forall|id: u64| #[trigger]
        nodes.contains_key(id) ==> nodes[id].hash == subtree(m, id_depth(id), id_prefix(id))
}

/// A branch node with the child on side `bit` replaced.
pub open spec fn with_child(n: BranchNode, bit: int, val: u64) -> BranchNode {
    if bit == 0 {
        BranchNode { left: val, ..n }
    } else {
        BranchNode { right: val, ..n }
    }
}

/// The nodes after `val` was written into the slot at depth `e` of the path
/// of `key` (the root slot is not in a node).
pub open spec fn slot_written(
    nodes: Map<u64, BranchNode>,
    key: u64,
    e: int,
    val: u64,
) -> Map<u64, BranchNode> {
    if e == 0 {
        nodes
    } else {
        let id = packed(e - 1, prefix(key, e - 1));
        nodes.insert(id, with_child(nodes[id], prefix(key, e) % 2, val))
    }
}

pub proof fn lemma_root_prefix(key: u64)
    requires
        key < 0x100_0000_0000,
    ensures
        prefix(key, 0) == 0,
{
    lemma_prefix(key, 0);
    lemma_width();
}

/// Storing the branch point where a new key parts, and writing it into the
/// slot that the key fell into, gives the shape of the larger key set.
pub proof fn lemma_attach(
    nodes: Map<u64, BranchNode>,
    root: u64,
    keys: Set<u64>,
    key: u64,
    e: int,
    div: int,
    n: BranchNode,
)
    requires
        shape_ok(nodes, root, keys),
        joins_at(keys, key, e, div),
        prefix(key, div + 1) % 2 == 0 ==> n.left == chain_slot(key) && n.right == slot(
            keys,
            e,
            prefix(key, e),
        ),
        prefix(key, div + 1) % 2 != 0 ==> n.right == chain_slot(key) && n.left == slot(
            keys,
            e,
            prefix(key, e),
        ),
    ensures
        ({
            let np = packed(div, prefix(key, div));
            let nodes2 = slot_written(nodes.insert(np, n), key, e, node_slot(np));
            let root2 = if e == 0 { node_slot(np) } else { root };
            &&& shape_ok(nodes2, root2, keys.insert(key))
            &&& !nodes.contains_key(np)
            &&& forall|id: u64|
                id_prefix(id) != prefix(key, id_depth(id)) && #[trigger] nodes2.contains_key(id)
                    ==> nodes.contains_key(id) && nodes2[id] == nodes[id]
            &&& nodes2.dom() == nodes.dom().insert(np)
        }),
{
    let more = keys.insert(key);
    let np = packed(div, prefix(key, div));
    let mid = nodes.insert(np, n);
    let nodes2 = slot_written(mid, key, e, node_slot(np));
    let root2 = if e == 0 { node_slot(np) } else { root };
    let par = packed(e - 1, prefix(key, e - 1));
    lemma_prefix(key, div);
    lemma_packed(div, prefix(key, div));
    lemma_parting(keys, key, e, div);
    lemma_root_prefix(key);
    lemma_joined_slot(keys, key, e, div, 0);
    lemma_joined_branches(keys, key, e, div, div, prefix(key, div));
    if e > 0 {
        lemma_prefix(key, e - 1);
        lemma_packed(e - 1, prefix(key, e - 1));
        assert(branch_id(keys, par));
        assert(nodes.contains_key(par));
        assert(par != np);
    }
    assert forall|id: u64| #[trigger] nodes2.contains_key(id) <==> branch_id(more, id) by {
        let d = id_depth(id);
        let p = id_prefix(id);
        assert(nodes.contains_key(id) <==> branch_id(keys, id));
        if position(d, p) && d < 40 {
            lemma_joined_branches(keys, key, e, div, d, p);
        }
    }
    assert forall|id: u64| #[trigger] nodes2.contains_key(id) implies nodes2[id].left == slot(
        more,
        id_depth(id) + 1,
        2 * id_prefix(id),
    ) && nodes2[id].right == slot(more, id_depth(id) + 1, 2 * id_prefix(id) + 1) by {
        let d = id_depth(id);
        let p = id_prefix(id);
        assert(branch_id(more, id));
        assert(nodes.contains_key(id) <==> branch_id(keys, id));
        lemma_joined_branches(keys, key, e, div, d, p);
        if p == prefix(key, d) {
            lemma_path_step(keys, key, d);
            lemma_path_step(more, key, d);
            lemma_joined_slot(keys, key, e, div, d + 1);
            if d == div {
                assert(id == np);
            } else {
                assert(branch_id(keys, id));
                if d >= e {
                    assert(slot(keys, d + 1, sibling(prefix(key, d + 1))) == 0);
                    assert(false);
                }
                if d == e - 1 {
                    assert(id == par);
                } else {
                    assert(id != par) by {
                        if id == par {
                            lemma_packed_injective(d, p, e - 1, prefix(key, e - 1));
                        }
                    }
                }
            }
        } else {
            assert(id != np) by {
                if id == np {
                    lemma_packed_injective(d, p, div, prefix(key, div));
                }
            }
            if e > 0 {
                assert(id != par) by {
                    if id == par {
                        lemma_packed_injective(d, p, e - 1, prefix(key, e - 1));
                    }
                }
            }
        }
    }
    assert forall|id: u64|
        id_prefix(id) != prefix(key, id_depth(id)) && #[trigger] nodes2.contains_key(id) implies nodes.contains_key(
        id,
    ) && nodes2[id] == nodes[id] by {
        assert(id != np);
        if e > 0 {
            assert(id != par);
        }
    }
    assert(nodes2.dom() =~= nodes.dom().insert(np));
}

/// Dropping the branch point above a bare chain, and writing what hangs on
/// its other side into the slot above, gives the shape without the key.
pub proof fn lemma_detach(
    nodes: Map<u64, BranchNode>,
    root: u64,
    keys: Set<u64>,
    key: u64,
    e: int,
    div: int,
)
    requires
        shape_ok(nodes, root, keys),
        key < 0x100_0000_0000,
        keys.contains(key),
        0 <= e <= div < 40,
        slot(keys, div + 1, prefix(key, div + 1)) == chain_slot(key),
        is_branch(keys, div, prefix(key, div)),
        forall|f: int| e <= f < div ==> !is_branch(keys, f, #[trigger] prefix(key, f)),
        e > 0 ==> is_branch(keys, e - 1, prefix(key, e - 1)),
    ensures
        ({
            let np = packed(div, prefix(key, div));
            let val = slot(keys, div + 1, sibling(prefix(key, div + 1)));
            let nodes2 = slot_written(nodes.remove(np), key, e, val);
            let root2 = if e == 0 { val } else { root };
            &&& shape_ok(nodes2, root2, keys.remove(key))
            &&& nodes.contains_key(np)
            &&& nodes2.dom() == nodes.dom().remove(np)
            &&& val != 0
            &&& val == slot(keys.remove(key), e, prefix(key, e))
            &&& forall|id: u64|
                id_prefix(id) != prefix(key, id_depth(id)) && #[trigger] nodes2.contains_key(id)
                    ==> nodes.contains_key(id) && nodes2[id] == nodes[id]
            &&& forall|f: int| e <= f < 40 ==> !is_branch(keys.remove(key), f, #[trigger] prefix(key, f))
        }),
{
    let less = keys.remove(key);
    let np = packed(div, prefix(key, div));
    let val = slot(keys, div + 1, sibling(prefix(key, div + 1)));
    let mid = nodes.remove(np);
    let nodes2 = slot_written(mid, key, e, val);
    let root2 = if e == 0 { val } else { root };
    let par = packed(e - 1, prefix(key, e - 1));
    lemma_leaves_at(keys, key, e, div);
    lemma_prefix(key, div);
    lemma_packed(div, prefix(key, div));
    lemma_parting(less, key, e, div);
    lemma_root_prefix(key);
    lemma_joined_slot(less, key, e, div, 0);
    lemma_path_step(keys, key, div);
    assert(branch_id(keys, np));
    if e > 0 {
        lemma_prefix(key, e - 1);
        lemma_packed(e - 1, prefix(key, e - 1));
        assert(branch_id(keys, par));
        assert(nodes.contains_key(par));
        assert(par != np);
    }
    assert forall|f: int| e <= f < 40 implies !is_branch(less, f, #[trigger] prefix(key, f)) by {
        lemma_path_step(less, key, f);
        if f < div {
            assert(slot(less, f + 1, sibling(prefix(key, f + 1))) == 0);
        } else {
            assert(slot(less, f + 1, prefix(key, f + 1)) == 0);
        }
    }
    assert forall|id: u64| #[trigger] nodes2.contains_key(id) <==> branch_id(less, id) by {
        let d = id_depth(id);
        let p = id_prefix(id);
        assert(nodes.contains_key(id) <==> branch_id(keys, id));
        if position(d, p) && d < 40 {
            lemma_joined_branches(less, key, e, div, d, p);
        }
    }
    assert forall|id: u64| #[trigger] nodes2.contains_key(id) implies nodes2[id].left == slot(
        less,
        id_depth(id) + 1,
        2 * id_prefix(id),
    ) && nodes2[id].right == slot(less, id_depth(id) + 1, 2 * id_prefix(id) + 1) by {
        let d = id_depth(id);
        let p = id_prefix(id);
        assert(branch_id(less, id));
        assert(nodes.contains_key(id) <==> branch_id(keys, id));
        lemma_joined_branches(less, key, e, div, d, p);
        if p == prefix(key, d) {
            lemma_path_step(keys, key, d);
            lemma_path_step(less, key, d);
            lemma_joined_slot(less, key, e, div, d + 1);
            if d >= e {
                assert(!is_branch(less, d, prefix(key, d)));
                assert(false);
            }
            if d == e - 1 {
                assert(id == par);
            } else {
                assert(id != par) by {
                    if id == par {
                        lemma_packed_injective(d, p, e - 1, prefix(key, e - 1));
                    }
                }
            }
        } else {
            if e > 0 {
                assert(id != par) by {
                    if id == par {
                        lemma_packed_injective(d, p, e - 1, prefix(key, e - 1));
                    }
                }
            }
        }
    }
    assert forall|id: u64|
        id_prefix(id) != prefix(key, id_depth(id)) && #[trigger] nodes2.contains_key(id) implies nodes.contains_key(
        id,
    ) && nodes2[id] == nodes[id] by {
        if e > 0 {
            assert(id != par);
        }
    }
    assert(nodes2.dom() =~= nodes.dom().remove(np));
}

/// Without keys every slot is empty.
pub proof fn lemma_no_keys(d: int, p: int)
    requires
        0 <= d <= 40,
    ensures
        slot(Set::<u64>::empty(), d, p) == 0,
    decreases 40 - d,
{
    if d < 40 {
        lemma_no_keys(d + 1, 2 * p);
        lemma_no_keys(d + 1, 2 * p + 1);
    }
}

/// An empty root slot stands over no key.
pub proof fn lemma_empty_tree(keys: Set<u64>, key: u64)
    requires
        slot(keys, 0, 0) == 0,
        key < 0x100_0000_0000,
    ensures
        !keys.contains(key),
{
    lemma_root_prefix(key);
    if keys.contains(key) {
        lemma_key_fills(keys, key, 0);
    }
}

/// A single key makes no branch point.
pub proof fn lemma_single_key(key: u64, d: int, p: int)
    requires
        key < 0x100_0000_0000,
    ensures
        !is_branch(set![key], d, p),
{
    if is_branch(set![key], d, p) {
        let none = Set::<u64>::empty();
        lemma_children(d, p);
        lemma_prefix(key, d + 1);
        lemma_no_keys(d + 1, 2 * p);
        lemma_no_keys(d + 1, 2 * p + 1);
        assert(none.remove(key) =~= set![key].remove(key));
        if 2 * p != prefix(key, d + 1) {
            lemma_slot_frame(none, set![key], key, d + 1, 2 * p);
        } else {
            lemma_slot_frame(none, set![key], key, d + 1, 2 * p + 1);
        }
    }
}

/// Without keys no path has a branch point.
pub proof fn lemma_no_branches(keys: Set<u64>, key: u64, d: int)
    requires
        keys =~= Set::empty(),
        0 <= d <= 40,
    ensures
        path_branches(keys, key, d) == Seq::<u64>::empty(),
    decreases d,
{
    if d > 0 {
        lemma_no_branches(keys, key, d - 1);
        lemma_no_keys(d, 2 * prefix(key, d - 1));
    }
}

/// A slot over a key that is there, in which a descent for the key stops,
/// holds the chain of that key.
pub proof fn lemma_own_slot(keys: Set<u64>, key: u64, e: int)
    requires
        key < 0x100_0000_0000,
        keys.contains(key),
        0 <= e <= 40,
        ({
            let c = slot(keys, e, prefix(key, e));
            c & NODE_BIT != 0 ==> slot_prefix(c) != prefix(key, slot_depth(c))
        }),
    ensures
        slot(keys, e, prefix(key, e)) == chain_slot(key),
{
    let c = slot(keys, e, prefix(key, e));
    let d = slot_depth(c);
    let q = slot_prefix(c);
    lemma_key_fills(keys, key, e);
    lemma_prefix(key, e);
    lemma_slot(keys, e, prefix(key, e));
    lemma_follows(keys, key, e, d);
    lemma_prefix(key, 40);
}

/// What a slot over a key holds lies on the path of that key.
proof fn lemma_follows(keys: Set<u64>, key: u64, e: int, f: int)
    requires
        key < 0x100_0000_0000,
        keys.contains(key),
        0 <= e <= 40,
        e <= f <= slot_depth(slot(keys, e, prefix(key, e))),
    ensures
        ({
            let c = slot(keys, e, prefix(key, e));
            above(slot_depth(c), slot_prefix(c), f) == prefix(key, f)
        }),
    decreases f - e,
{
    let c = slot(keys, e, prefix(key, e));
    let d = slot_depth(c);
    let q = slot_prefix(c);
    lemma_prefix(key, e);
    lemma_key_fills(keys, key, e);
    lemma_slot(keys, e, prefix(key, e));
    if e < f {
        lemma_follows(keys, key, e, f - 1);
        lemma_key_fills(keys, key, f);
        lemma_path_step(keys, key, f - 1);
        lemma_up_position(d, q, d - f);
        assert(above(d, q, f - 1) == above(d, q, f) / 2);
        assert(slot(keys, f, sibling(above(d, q, f))) == 0);
    }
}

/// The empty content commits to the top of the default chain.
pub proof fn lemma_empty_root()
    ensures
        smt_root(Leaves::empty()) == default_value(40),
{
    lemma_width();
    lemma_no_keys(0, 0);
    assert(Leaves::empty().dom() =~= Set::<u64>::empty());
    lemma_empty_value(Leaves::empty(), 0, 0);
}

} // verus!

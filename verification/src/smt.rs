//! Compact sparse Merkle tree: the incremental state commitment.
//!
//! A trie over 40 key bits. Only branch points are stored; a chain with a
//! single leaf below is implicit and its hash is folded from that leaf. The
//! stored shape and every hash are functions of the content alone.
use vstd::prelude::*;
use std::collections::HashMap;
use vstd::std_specs::iter::IteratorSpec;
use vstd::std_specs::bits::axiom_u64_leading_zeros;

pub mod laws;
use crate::digest::append_bytes;
use crate::digest::hash256;
use crate::fold::fold_hashes;
use crate::ids::Digest;
use crate::ids::ascending;
use crate::ids::big_endian;
use crate::ids::copy_digests;
use crate::ids::id_before;
use crate::ids::lemma_ascending_unique;
use crate::ids::lemma_ordinal_injective;
use crate::ids::ordinal;
use crate::ids::same_id;
use crate::smt_model::CHAIN_BIT;
use crate::smt_model::Leaves;
use crate::smt_model::NODE_BIT;
use crate::smt_model::above;
use crate::smt_model::branch_id;
use crate::smt_model::bucket_merkle;
use crate::smt_model::chain_slot;
use crate::smt_model::default_value;
use crate::smt_model::empty_leaf_value;
use crate::smt_model::hashes_from;
use crate::smt_model::hashes_ok;
use crate::smt_model::id_depth;
use crate::smt_model::id_prefix;
use crate::smt_model::is_branch;
use crate::smt_model::joins_at;
use crate::smt_model::leaf_value;
use crate::smt_model::leaves_wf;
use crate::smt_model::lemma_agree_above;
use crate::smt_model::lemma_alone_gone;
use crate::smt_model::lemma_attach;
use crate::smt_model::lemma_chain_bits;
use crate::smt_model::lemma_children;
use crate::smt_model::lemma_deepest_branch;
use crate::smt_model::lemma_detach;
use crate::smt_model::lemma_empty_root;
use crate::smt_model::lemma_empty_tree;
use crate::smt_model::lemma_empty_value;
use crate::smt_model::lemma_joined_branches;
use crate::smt_model::lemma_key_fills;
use crate::smt_model::lemma_lone_chain;
use crate::smt_model::lemma_low_bit;
use crate::smt_model::lemma_no_branches;
use crate::smt_model::lemma_no_keys;
use crate::smt_model::lemma_own_slot;
use crate::smt_model::lemma_packed;
use crate::smt_model::lemma_parting;
use crate::smt_model::lemma_path_step;
use crate::smt_model::lemma_path_stretch;
use crate::smt_model::lemma_position_range;
use crate::smt_model::lemma_prefix;
use crate::smt_model::lemma_root_prefix;
use crate::smt_model::lemma_shift;
use crate::smt_model::lemma_single_key;
use crate::smt_model::lemma_single_leaf;
use crate::smt_model::lemma_slot;
use crate::smt_model::lemma_sorted_members;
use crate::smt_model::lemma_up_position;
use crate::smt_model::lemma_up_sum;
use crate::smt_model::lemma_value_frame;
use crate::smt_model::lemma_width;
use crate::smt_model::node_slot;
use crate::smt_model::node_value;
use crate::smt_model::packed;
use crate::smt_model::path_branches;
use crate::smt_model::position;
use crate::smt_model::prefix;
use crate::smt_model::shape_ok;
use crate::smt_model::sibling;
use crate::smt_model::slot;
use crate::smt_model::slot_depth;
use crate::smt_model::slot_prefix;
use crate::smt_model::slot_written;
use crate::smt_model::smt_root;
use crate::smt_model::sorted_members;
use crate::smt_model::subtree;
use crate::smt_model::with_leaf;
use crate::smt_model::without_leaf;

verus! {

/// Domain-separation tag of inner node hashes: `SCONE-SMT-NODE`.
pub const SMT_NODE_TAG: [u8; 14] = [83, 67, 79, 78, 69, 45, 83, 77, 84, 45, 78, 79, 68, 69];

/// Tag hashed to build the empty leaf: `SCONE-SMT-LEAF-EMPTY`.
pub const SMT_EMPTY_LEAF_TAG: [u8; 20] = [
    83,
    67,
    79,
    78,
    69,
    45,
    83,
    77,
    84,
    45,
    76,
    69,
    65,
    70,
    45,
    69,
    77,
    80,
    84,
    89,
];

/// Branch node: subtree hash and the two child slots.
#[derive(Clone, Copy, Debug, PartialEq, Eq)]
pub struct BranchNode {
    pub hash: Digest,
    pub left: u64,
    pub right: u64,
}


/// Persisted leaf of a key: the single hash, or the first hash and the
/// sorted bucket where several entries share the key.
pub type LeafEntry = (Digest, Option<Vec<Digest>>);

/// Depth of the tree in bits.
pub const MAX_DEPTH: u64 = 40;

/// Empty child slot.
const EMPTY: u64 = 0;

/// Location of a child slot: the root, or child `bit` of node `parent`.
#[derive(Clone, Copy)]
enum SlotRef {
    Root,
    Child { parent: u64, bit: u64 },
}

/// Slot of an implicit chain down to leaf `key`.
pub fn chain(key: u64) -> (c: u64)
    requires
        key < 0x100_0000_0000,
    ensures
        c == chain_slot(key),
{
    CHAIN_BIT | key
}

/// Whether a slot holds an implicit chain.
pub fn is_chain(c: u64) -> (r: bool)
    ensures
        r == (c & CHAIN_BIT != 0),
{
    c & CHAIN_BIT != 0
}

/// Key of the leaf at the end of a chain slot.
pub fn chain_key(c: u64) -> (key: u64)
    ensures
        key == c & !(CHAIN_BIT | NODE_BIT),
{
    c & !(CHAIN_BIT | NODE_BIT)
}

/// Slot that refers to the branch point with a packed id.
pub fn node_ref(id: u64) -> (c: u64)
    ensures
        c == node_slot(id),
{
    NODE_BIT | id
}

/// Whether a slot refers to a branch point.
pub fn is_node(c: u64) -> (r: bool)
    ensures
        r == (c & NODE_BIT != 0),
{
    c & NODE_BIT != 0
}

/// Packed id that a slot refers to.
pub fn node_packed(c: u64) -> (id: u64)
    ensures
        id == c & !(CHAIN_BIT | NODE_BIT),
{
    c & !(CHAIN_BIT | NODE_BIT)
}

/// Packs a position: the depth from bit 40 on, the prefix below.
pub fn pack(depth: u64, path: u64) -> (id: u64)
    requires
        position(depth as int, path as int),
    ensures
        id == packed(depth as int, path as int),
{
    (depth << 40) | path
}

/// Splits a packed id into depth and prefix.
pub fn unpack(id: u64) -> (r: (u64, u64))
    ensures
        r.0 == id_depth(id),
        r.1 == id_prefix(id),
{
    (id >> 40, id & 0xff_ffff_ffff)
}

/// Depth of the first bit, from the root, in which two 40-bit keys differ.
pub fn divergence_depth(a: u64, b: u64) -> (div: u64)
    requires
        a < 0x100_0000_0000,
        b < 0x100_0000_0000,
        a != b,
    ensures
        div < 40,
        prefix(a, div as int) == prefix(b, div as int),
        prefix(a, div + 1) != prefix(b, div + 1),
{
    proof {
        lemma_width();
    }
    prefix_divergence(a, b, 40)
}

/// Depth of the first bit in which two different `d`-bit prefixes differ.
fn prefix_divergence(a: u64, b: u64, d: u64) -> (div: u64)
    requires
        0 < d <= 40,
        position(d as int, a as int),
        position(d as int, b as int),
        a != b,
    ensures
        div < d,
        above(d as int, a as int, div as int) == above(d as int, b as int, div as int),
        above(d as int, a as int, div + 1) != above(d as int, b as int, div + 1),
{
    let x: u64 = a ^ b;
    proof {
        lemma_position_range(d as int, a as int);
        lemma_position_range(d as int, b as int);
        axiom_u64_leading_zeros(x);
        assert(a ^ b != 0) by (bit_vector)
            requires
                a != b,
        ;
    }
    let z: u32 = x.leading_zeros();
    let top: u64 = 63 - z as u64;
    proof {
        let n = (64 - z) as u64;
        let t = top;
        assert(x >> t & 1u64 != 0);
        assert(x >> n == 0);
        assert(x >> t != 0) by (bit_vector)
            requires
                x >> t & 1u64 != 0u64,
        ;
        assert(a >> t != b >> t) by (bit_vector)
            requires
                a ^ b == x,
                x >> t != 0,
        ;
        assert(top < 40) by {
            assert(t >= 40 ==> a >> t == b >> t) by (bit_vector)
                requires
                    a < 0x100_0000_0000u64,
                    b < 0x100_0000_0000u64,
                    t < 64,
            ;
        }
        assert(a >> n == b >> n) by (bit_vector)
            requires
                a ^ b == x,
                x >> n == 0,
        ;
        lemma_shift(a, top as int);
        lemma_shift(b, top as int);
        lemma_shift(a, n as int);
        lemma_shift(b, n as int);
        if top >= d {
            lemma_up_position(d as int, a as int, d as int);
            lemma_up_position(d as int, b as int, d as int);
            lemma_width();
            lemma_up_sum(a as int, d as int, top - d);
            lemma_up_sum(b as int, d as int, top - d);
            assert(false);
        }
    }
    d - 1 - top
}

/// Hash of an inner node.
pub fn node_hash(left: &Digest, right: &Digest) -> (h: Digest)
    ensures
        h == node_value(*left, *right),
{
    let tag: [u8; 14] = SMT_NODE_TAG;
    let mut buf: Vec<u8> = Vec::new();
    append_bytes(&mut buf, tag.as_slice());
    append_bytes(&mut buf, left.as_slice());
    append_bytes(&mut buf, right.as_slice());
    assert(buf@ =~= SMT_NODE_TAG@ + left@ + right@);
    hash256(&buf)
}

/// Hash of a leaf that holds nothing.
pub fn empty_leaf() -> (h: Digest)
    ensures
        h == empty_leaf_value(),
{
    let tag: [u8; 20] = SMT_EMPTY_LEAF_TAG;
    let mut buf: Vec<u8> = Vec::new();
    append_bytes(&mut buf, tag.as_slice());
    assert(buf@ =~= SMT_EMPTY_LEAF_TAG@);
    hash256(&buf)
}

/// Merkle root over the sorted leaves of a bucket: zeros for none, the leaf
/// itself for one; an odd last hash of a level is paired with itself.
pub fn bucket_merkle_root(leaves: &Vec<Digest>) -> (root: Digest)
    ensures
        root == bucket_merkle(leaves@),
{
    let tag: Vec<u8> = Vec::new();
    assert(tag@ =~= Seq::empty());
    fold_hashes(&tag, leaves)
}

/// Default chain: the hash of the empty subtree of each height up to 40.
pub fn defaults() -> (d: Vec<Digest>)
    ensures
        d@.len() == 41,
        forall|i: int| 0 <= i <= 40 ==> d@[i] == default_value(i),
{
    let mut d: Vec<Digest> = Vec::new();
    d.push(empty_leaf());
    let mut i: usize = 1;
    while i <= 40
        invariant
            1 <= i <= 41,
            d@.len() == i,
            forall|j: int| 0 <= j < i ==> d@[j] == default_value(j),
        decreases 41 - i,
    {
        let h = node_hash(&d[i - 1], &d[i - 1]);
        d.push(h);
        assert(default_value(i as int) == node_value(default_value(i - 1), default_value(i - 1)));
        i += 1;
    }
    d
}


/// Position of `leaf` in an ascending bucket, or where it belongs.
fn bucket_search(v: &Vec<Digest>, leaf: &Digest) -> (r: (bool, usize))
    requires
        ascending(v@),
    ensures
        r.1 <= v@.len(),
        r.0 == v@.to_set().contains(*leaf),
        r.0 ==> r.1 < v@.len() && v@[r.1 as int] == *leaf,
        forall|i: int| 0 <= i < r.1 ==> ordinal(#[trigger] v@[i]) < ordinal(*leaf),
        !r.0 ==> forall|i: int| r.1 <= i < v@.len() ==> ordinal(#[trigger] v@[i]) > ordinal(*leaf),
{
    let mut i: usize = 0;
    while i < v.len() && id_before(&v[i], leaf)
        invariant
            i <= v@.len(),
            forall|j: int| 0 <= j < i ==> ordinal(#[trigger] v@[j]) < ordinal(*leaf),
        decreases v@.len() - i,
    {
        i += 1;
    }
    if i < v.len() && !id_before(leaf, &v[i]) {
        proof {
            lemma_ordinal_injective(v@[i as int], *leaf);
            assert(v@.contains(*leaf));
        }
        return (true, i);
    }
    proof {
        assert forall|j: int| i <= j < v@.len() implies ordinal(#[trigger] v@[j]) > ordinal(*leaf) by {
            if j > i {
                assert(ordinal(v@[i as int]) < ordinal(v@[j]));
            }
        }
        assert(!v@.contains(*leaf));
    }
    (false, i)
}

/// Inserting in order keeps a bucket ascending and adds one member.
proof fn lemma_bucket_insert(q: Seq<Digest>, pos: int, leaf: Digest)
    requires
        ascending(q),
        0 <= pos <= q.len(),
        forall|i: int| 0 <= i < pos ==> ordinal(#[trigger] q[i]) < ordinal(leaf),
        forall|i: int| pos <= i < q.len() ==> ordinal(#[trigger] q[i]) > ordinal(leaf),
    ensures
        ascending(q.insert(pos, leaf)),
        q.insert(pos, leaf).to_set() == q.to_set().insert(leaf),
        !q.contains(leaf),
{
    let t = q.insert(pos, leaf);
    assert forall|i: int, j: int| 0 <= i < j < t.len() implies ordinal(#[trigger] t[i]) < ordinal(
        #[trigger] t[j],
    ) by {
        let si = if i < pos { i } else { i - 1 };
        let sj = if j < pos { j } else { j - 1 };
        if i != pos && j != pos {
            assert(ordinal(q[si]) < ordinal(q[sj]));
        } else if i == pos {
            assert(ordinal(q[sj]) > ordinal(leaf));
        } else {
            assert(ordinal(q[si]) < ordinal(leaf));
        }
    }
    assert forall|x: Digest| t.contains(x) == (q.contains(x) || x == leaf) by {
        if q.contains(x) {
            let i = choose|i: int| 0 <= i < q.len() && q[i] == x;
            if i < pos {
                assert(t[i] == x);
            } else {
                assert(t[i + 1] == x);
            }
        }
        if x == leaf {
            assert(t[pos] == x);
        }
        if t.contains(x) && x != leaf {
            let i = choose|i: int| 0 <= i < t.len() && t[i] == x;
            if i < pos {
                assert(q[i] == x);
            } else {
                assert(q[i - 1] == x);
            }
        }
    }
    assert(t.to_set() =~= q.to_set().insert(leaf));
}

/// Taking a member out keeps a bucket ascending.
proof fn lemma_bucket_remove(q: Seq<Digest>, pos: int)
    requires
        ascending(q),
        0 <= pos < q.len(),
    ensures
        ascending(q.remove(pos)),
        q.remove(pos).to_set() == q.to_set().remove(q[pos]),
{
    let t = q.remove(pos);
    let leaf = q[pos];
    assert forall|i: int, j: int| 0 <= i < j < t.len() implies ordinal(#[trigger] t[i]) < ordinal(
        #[trigger] t[j],
    ) by {
        let si = if i < pos { i } else { i + 1 };
        let sj = if j < pos { j } else { j + 1 };
        assert(ordinal(q[si]) < ordinal(q[sj]));
    }
    assert forall|i: int| 0 <= i < pos implies ordinal(#[trigger] t[i]) < ordinal(leaf) by {
        assert(ordinal(q[i]) < ordinal(q[pos]));
    }
    assert forall|i: int| pos <= i < t.len() implies ordinal(#[trigger] t[i]) > ordinal(leaf) by {
        assert(ordinal(q[pos]) < ordinal(q[i + 1]));
    }
    lemma_bucket_insert(t, pos, leaf);
    assert(t.insert(pos, leaf) =~= q);
    assert(t.to_set() =~= q.to_set().remove(leaf));
}

/// The content that the leaf and bucket maps hold.
pub open spec fn content(leaves: Map<u64, Digest>, buckets: Map<u64, Vec<Digest>>) -> Leaves {
    Map::new(
        |k: u64| leaves.contains_key(k) || buckets.contains_key(k),
        |k: u64|
            if buckets.contains_key(k) {
                buckets[k]@.to_set()
            } else {
                set![leaves[k]]
            },
    )
}

/// A key has a single leaf or an ascending bucket of several, not both.
pub open spec fn content_ok(leaves: Map<u64, Digest>, buckets: Map<u64, Vec<Digest>>) -> bool {
    &&& leaves.dom().finite()
    &&& buckets.dom().finite()
    &&& forall|k: u64| #[trigger] leaves.contains_key(k) ==> k < 0x100_0000_0000 && !buckets.contains_key(k)
    &&& forall|k: u64| #[trigger]
        buckets.contains_key(k) ==> k < 0x100_0000_0000 && ascending(buckets[k]@) && buckets[k]@.len() >= 2
}

/// The default chain is the one of the commitment.
pub open spec fn defaults_ok(d: Seq<Digest>) -> bool {
    d.len() == 41 && forall|i: int| 0 <= i <= 40 ==> #[trigger] d[i] == default_value(i)
}

/// Sparse Merkle tree of depth 40 over `u64` keys below 2^40.
pub struct Smt {
    /// Single leaf per key.
    leaves: HashMap<u64, Digest>,
    /// Sorted leaves of the keys that hold several.
    buckets: HashMap<u64, Vec<Digest>>,
    /// Branch points by packed position.
    nodes: HashMap<u64, BranchNode>,
    /// Root slot.
    root_child: u64,
    /// Cached root; none for an empty tree.
    root_hash: Option<Digest>,
    /// Packed positions touched since the last `take_dirty`.
    dirty_nodes: Vec<u64>,
    /// Leaf keys touched since the last `take_dirty`.
    dirty_leaves: Vec<u64>,
    /// Hashes of the empty subtrees, by height.
    empties: Vec<Digest>,
}

impl View for Smt {
    type V = Leaves;

    closed spec fn view(&self) -> Leaves {
        content(self.leaves@, self.buckets@)
    }
}

impl Smt {
    /// The leaf and bucket maps and the default chain are in order.
    closed spec fn leaves_ok(&self) -> bool {
        content_ok(self.leaves@, self.buckets@) && defaults_ok(self.empties@)
    }

    /// The stored tree is the compact trie of the content, with its hashes.
    pub closed spec fn wf(&self) -> bool {
        &&& self.leaves_ok()
        &&& shape_ok(self.nodes@, self.root_child, self@.dom())
        &&& hashes_ok(self.nodes@, self@)
        &&& self.nodes@.dom().finite()
        &&& self@.dom().finite()
        &&& match self.root_hash {
            Some(h) => h == smt_root(self@) && self@.dom().len() == self.nodes@.dom().len() + 1,
            None => self@ == Leaves::empty() && self.nodes@ == Map::<u64, BranchNode>::empty(),
        }
    }

    /// Packed positions touched since the last `take_dirty`, in order.
    pub closed spec fn touched_nodes(&self) -> Seq<u64> {
        self.dirty_nodes@
    }

    /// Leaf keys touched since the last `take_dirty`, in order.
    pub closed spec fn touched_leaves(&self) -> Seq<u64> {
        self.dirty_leaves@
    }

    /// The stored branch points.
    pub closed spec fn stored_nodes(&self) -> Map<u64, BranchNode> {
        self.nodes@
    }

    /// The stored single leaves.
    pub closed spec fn stored_leaves(&self) -> Map<u64, Digest> {
        self.leaves@
    }

    /// The stored buckets.
    pub closed spec fn stored_buckets(&self) -> Map<u64, Seq<Digest>> {
        self.buckets@.map_values(|v: Vec<Digest>| v@)
    }

    /// The stored root slot and root hash.
    pub closed spec fn stored_root(&self) -> (u64, Option<Digest>) {
        (self.root_child, self.root_hash)
    }

    /// An empty tree.
    pub fn new() -> (tree: Self)
        ensures
            tree.wf(),
            tree@ == Leaves::empty(),
            tree.touched_nodes() == Seq::<u64>::empty(),
            tree.touched_leaves() == Seq::<u64>::empty(),
            tree.stored_root() == (0u64, None::<Digest>),
            tree.stored_nodes() == Map::<u64, BranchNode>::empty(),
            tree.stored_leaves() == Map::<u64, Digest>::empty(),
            tree.stored_buckets() == Map::<u64, Seq<Digest>>::empty(),
    {
        broadcast use vstd::std_specs::hash::group_hash_axioms;

        let tree = Smt {
            leaves: HashMap::new(),
            buckets: HashMap::new(),
            nodes: HashMap::new(),
            root_child: EMPTY,
            root_hash: None,
            dirty_nodes: Vec::new(),
            dirty_leaves: Vec::new(),
            empties: defaults(),
        };
        proof {
            assert(tree@ =~= Leaves::empty());
            lemma_no_keys(0, 0);
            assert forall|id: u64| branch_id(Set::<u64>::empty(), id) implies false by {
                lemma_children(id_depth(id), id_prefix(id));
                lemma_no_keys(id_depth(id) + 1, 2 * id_prefix(id));
            }
            assert(tree@.dom() =~= Set::<u64>::empty());
            assert(tree.stored_buckets() =~= Map::<u64, Seq<Digest>>::empty());
        }
        tree
    }

    /// Value of the leaf at `key`: the single leaf, the root of its bucket,
    /// or the empty leaf.
    fn bucket_root(&self, key: u64) -> (h: Digest)
        requires
            self.leaves_ok(),
        ensures
            h == leaf_value(self@, key),
    {
        broadcast use vstd::std_specs::hash::group_hash_axioms;

        match self.buckets.get(&key) {
            Some(v) => {
                proof {
                    lemma_sorted_members(v@);
                }
                bucket_merkle_root(v)
            },
            None => match self.leaves.get(&key) {
                Some(h) => {
                    proof {
                        lemma_single_leaf(self@, key, *h);
                    }
                    *h
                },
                None => empty_leaf(),
            },
        }
    }

    /// Lifts the value of the subtree at (d, p) to depth `to`: nothing else
    /// hangs in between.
    fn lift(&self, v0: Digest, d: u64, p: u64, to: u64) -> (v: Digest)
        requires
            self.leaves_ok(),
            to <= d <= 40,
            position(d as int, p as int),
            v0 == subtree(self@, d as int, p as int),
            forall|f: int|
                to < f <= d ==> slot(
                    self@.dom(),
                    f,
                    sibling(#[trigger] above(d as int, p as int, f)),
                ) == 0,
        ensures
            v == subtree(self@, to as int, above(d as int, p as int, to as int)),
    {
        let mut v = v0;
        let mut f: u64 = d;
        while f > to
            invariant
                self.leaves_ok(),
                to <= f <= d <= 40,
                position(d as int, p as int),
                v == subtree(self@, f as int, above(d as int, p as int, f as int)),
                forall|g: int|
                    to < g <= d ==> slot(
                        self@.dom(),
                        g,
                        sibling(#[trigger] above(d as int, p as int, g)),
                    ) == 0,
            decreases f,
        {
            let ghost here = above(d as int, p as int, f as int);
            proof {
                lemma_up_position(d as int, p as int, d - f);
                lemma_up_position(d as int, p as int, d - f + 1);
                lemma_shift(p, d - f);
                lemma_low_bit(p >> ((d - f) as u64));
                assert(above(d as int, p as int, f - 1) == here / 2);
                lemma_children(f - 1, here / 2);
                assert(slot(self@.dom(), f as int, sibling(here)) == 0);
                lemma_empty_value(self@, f as int, sibling(here));
            }
            let bit: u64 = (p >> (d - f)) & 1;
            let def = &self.empties[(40 - f) as usize];
            v = if bit == 0 {
                node_hash(&v, def)
            } else {
                node_hash(def, &v)
            };
            f -= 1;
        }
        v
    }

    /// Value of the subtree that `repr` stands for, seen from depth `to`.
    fn slot_value(&self, repr: u64, to: u64) -> (v: Digest)
        requires
            self.leaves_ok(),
            to <= 40,
            repr != 0 ==> {
                let e = slot_depth(repr);
                let q = slot_prefix(repr);
                &&& to <= e <= 40
                &&& position(e, q)
                &&& slot(self@.dom(), to as int, above(e, q, to as int)) == repr
                &&& e < 40 ==> self.nodes@.contains_key(packed(e, q)) && self.nodes@[packed(e, q)].hash
                    == subtree(self@, e, q)
            },
        ensures
            repr == 0 ==> v == default_value(40 - to),
            repr != 0 ==> v == subtree(
                self@,
                to as int,
                above(slot_depth(repr), slot_prefix(repr), to as int),
            ),
    {
        broadcast use vstd::std_specs::hash::group_hash_axioms;

        if repr == EMPTY {
            return self.empties[(40 - to) as usize];
        }
        proof {
            let e = slot_depth(repr);
            let q = slot_prefix(repr);
            lemma_up_position(e, q, e - to);
            lemma_slot(self@.dom(), to as int, above(e, q, to as int));
            lemma_position_range(e, q);
        }
        if is_chain(repr) {
            let k = chain_key(repr);
            let v0 = self.bucket_root(k);
            self.lift(v0, 40, k, to)
        } else {
            let id = node_packed(repr);
            let (d, p) = unpack(id);
            proof {
                lemma_packed(slot_depth(repr), slot_prefix(repr));
            }
            match self.nodes.get(&id) {
                Some(n) => self.lift(n.hash, d, p, to),
                None => {
                    assert(false);
                    self.empties[0]
                },
            }
        }
    }
}


/// Whether `at` names the slot at depth `e` of the path of `key`.
spec fn names_slot(at: SlotRef, key: u64, e: int) -> bool {
    match at {
        SlotRef::Root => e == 0,
        SlotRef::Child { parent, bit } => e > 0 && parent == packed(e - 1, prefix(key, e - 1)) && bit
            == prefix(key, e) % 2,
    }
}

/// Whether `stack` lists the branch points above depth `e` of the path of
/// `key`, from the root down, each with the side taken.
spec fn stack_ok(keys: Set<u64>, key: u64, e: int, stack: Seq<(u64, u64)>) -> bool {
    let path = path_branches(keys, key, e);
    &&& stack.len() == path.len()
    &&& forall|i: int|
        0 <= i < stack.len() ==> (#[trigger] stack[i]).0 == path[stack.len() - 1 - i] && stack[i].1
            == prefix(key, id_depth(stack[i].0) + 1) % 2
}

/// What a descent along the path of `key` to depth `e` has found.
spec fn descended(
    keys: Set<u64>,
    key: u64,
    e: int,
    stack: Seq<(u64, u64)>,
    at: SlotRef,
    repr: u64,
) -> bool {
    &&& 0 <= e <= 40
    &&& repr == slot(keys, e, prefix(key, e))
    &&& names_slot(at, key, e)
    &&& e > 0 ==> is_branch(keys, e - 1, prefix(key, e - 1))
    &&& stack_ok(keys, key, e, stack)
}

/// A slot content that a descent for `key` stops at: no branch point that
/// covers `key`.
spec fn terminal(key: u64, repr: u64) -> bool {
    repr & NODE_BIT != 0 ==> slot_prefix(repr) != prefix(key, slot_depth(repr))
}

impl Smt {
    /// Descends along the path of `key` to the terminal slot, whose content
    /// is empty, a chain, or a branch point that does not cover `key`. Also
    /// returns the branch points passed, from the root down, each with the
    /// side taken, and the depth of the slot.
    fn locate_full(&self, key: u64, Ghost(keys): Ghost<Set<u64>>) -> (r: (
        Vec<(u64, u64)>,
        SlotRef,
        u64,
        Ghost<int>,
    ))
        requires
            key < 0x100_0000_0000,
            shape_ok(self.nodes@, self.root_child, keys),
        ensures
            descended(keys, key, r.3@, r.0@, r.1, r.2),
            terminal(key, r.2),
    {
        broadcast use vstd::std_specs::hash::group_hash_axioms;

        let mut stack: Vec<(u64, u64)> = Vec::new();
        let mut at = SlotRef::Root;
        let mut repr: u64 = self.root_child;
        let ghost mut e: int = 0;
        let mut done: bool = !is_node(repr);
        proof {
            lemma_root_prefix(key);
        }
        while !done
            invariant
                key < 0x100_0000_0000,
                shape_ok(self.nodes@, self.root_child, keys),
                descended(keys, key, e, stack@, at, repr),
                done ==> terminal(key, repr),
                !done ==> repr & NODE_BIT != 0,
            decreases 40 - e, (if done { 0int } else { 1int }),
        {
            let id = node_packed(repr);
            let (d, p) = unpack(id);
            proof {
                lemma_prefix(key, e);
                if repr == 0 {
                    assert(0u64 & 0x4000_0000_0000_0000u64 == 0) by (bit_vector);
                }
                lemma_slot(keys, e, prefix(key, e));
                lemma_packed(d as int, p as int);
                lemma_shift(key, 40 - d);
                assert(branch_id(keys, id));
                assert(self.nodes@.contains_key(id));
            }
            if (key >> (40 - d)) != p {
                done = true;
            } else {
                proof {
                    lemma_shift(key, 39 - d);
                    lemma_low_bit(key >> ((39 - d) as u64));
                    lemma_path_step(keys, key, d as int);
                    assert forall|f: int| e <= f < d implies !is_branch(keys, f, #[trigger] prefix(key, f)) by {
                        lemma_path_step(keys, key, f);
                        lemma_agree_above(d as int, p as int, key, f + 1, d as int);
                        assert(above(d as int, p as int, f + 1) == prefix(key, f + 1));
                    }
                    lemma_path_stretch(keys, key, e, d as int);
                }
                let bit: u64 = (key >> (39 - d)) & 1;
                let ghost before = stack@;
                stack.push((id, bit));
                at = SlotRef::Child { parent: id, bit };
                match self.nodes.get(&id) {
                    Some(n) => {
                        repr = if bit == 0 {
                            n.left
                        } else {
                            n.right
                        };
                    },
                    None => {
                        assert(false);
                    },
                }
                done = !is_node(repr);
                proof {
                    let rest = path_branches(keys, key, d as int);
                    let path = path_branches(keys, key, d + 1);
                    assert(path =~= seq![id] + rest);
                    assert forall|i: int| 0 <= i < stack@.len() implies (#[trigger] stack@[i]).0
                        == path[stack@.len() - 1 - i] && stack@[i].1 == prefix(
                        key,
                        id_depth(stack@[i].0) + 1,
                    ) % 2 by {
                        if i < before.len() {
                            assert(stack@[i] == before[i]);
                            assert(path[stack@.len() - 1 - i] == rest[before.len() - 1 - i]);
                        }
                    }
                    e = d + 1;
                }
            }
        }
        (stack, at, repr, Ghost(e))
    }

    /// Writes a slot.
    fn write_slot(&mut self, at: SlotRef, val: u64, Ghost(key): Ghost<u64>, Ghost(e): Ghost<int>)
        requires
            names_slot(at, key, e),
            e > 0 ==> old(self).nodes@.contains_key(packed(e - 1, prefix(key, e - 1))),
        ensures
            final(self).nodes@ == slot_written(old(self).nodes@, key, e, val),
            final(self).root_child == (if e == 0 { val } else { old(self).root_child }),
            final(self).leaves == old(self).leaves,
            final(self).buckets == old(self).buckets,
            final(self).root_hash == old(self).root_hash,
            final(self).dirty_nodes == old(self).dirty_nodes,
            final(self).dirty_leaves == old(self).dirty_leaves,
            final(self).empties == old(self).empties,
    {
        broadcast use vstd::std_specs::hash::group_hash_axioms;

        match at {
            SlotRef::Root => {
                self.root_child = val;
            },
            SlotRef::Child { parent, bit } => {
                match self.nodes.get(&parent) {
                    Some(n) => {
                        let mut m: BranchNode = *n;
                        if bit == 0 {
                            m.left = val;
                        } else {
                            m.right = val;
                        }
                        self.nodes.insert(parent, m);
                    },
                    None => {
                        assert(false);
                    },
                }
            },
        }
    }

    /// Rewrites the hashes along the path of `key` above depth `v0_depth`,
    /// whose subtree has the value `v0`, and the cached root.
    fn recompute_from(&mut self, key: u64, v0: Digest, v0_depth: u64)
        requires
            key < 0x100_0000_0000,
            v0_depth <= 40,
            old(self).leaves_ok(),
            shape_ok(old(self).nodes@, old(self).root_child, old(self)@.dom()),
            hashes_from(old(self).nodes@, old(self)@, key, v0_depth as int),
            slot(old(self)@.dom(), v0_depth as int, prefix(key, v0_depth as int)) != 0,
            v0 == subtree(old(self)@, v0_depth as int, prefix(key, v0_depth as int)),
        ensures
            final(self).leaves == old(self).leaves,
            final(self).buckets == old(self).buckets,
            final(self).empties == old(self).empties,
            final(self).dirty_leaves == old(self).dirty_leaves,
            final(self).root_child == old(self).root_child,
            final(self).nodes@.dom() == old(self).nodes@.dom(),
            shape_ok(final(self).nodes@, final(self).root_child, final(self)@.dom()),
            hashes_ok(final(self).nodes@, final(self)@),
            final(self).root_hash == Some(smt_root(final(self)@)),
            final(self).dirty_nodes@ == old(self).dirty_nodes@ + path_branches(
                old(self)@.dom(),
                key,
                v0_depth as int,
            ),
    {
        broadcast use vstd::std_specs::hash::group_hash_axioms;

        let mut v = v0;
        let mut d: u64 = v0_depth;
        let ghost m = self@;
        let ghost keys = self@.dom();
        let ghost path = path_branches(keys, key, v0_depth as int);
        let ghost first = self.dirty_nodes@;
        while d > 0
            invariant
                key < 0x100_0000_0000,
                d <= v0_depth <= 40,
                m == self@,
                keys == m.dom(),
                first == old(self).dirty_nodes@,
                self.leaves_ok(),
                self.leaves == old(self).leaves,
                self.buckets == old(self).buckets,
                self.empties == old(self).empties,
                self.dirty_leaves == old(self).dirty_leaves,
                self.root_child == old(self).root_child,
                self.nodes@.dom() == old(self).nodes@.dom(),
                shape_ok(self.nodes@, self.root_child, keys),
                hashes_from(self.nodes@, m, key, d as int),
                slot(keys, d as int, prefix(key, d as int)) != 0,
                v == subtree(m, d as int, prefix(key, d as int)),
                self.dirty_nodes@ + path_branches(keys, key, d as int) == first + path,
            decreases d,
        {
            d -= 1;
            proof {
                lemma_path_step(keys, key, d as int);
                lemma_shift(key, 40 - d);
                lemma_shift(key, 39 - d);
                lemma_low_bit(key >> ((39 - d) as u64));
                lemma_packed(d as int, prefix(key, d as int));
            }
            let bit: u64 = (key >> (39 - d)) & 1;
            let id = pack(d, key >> (40 - d));
            let ghost c = prefix(key, d + 1);
            match self.nodes.get(&id) {
                Some(node) => {
                    let mut n: BranchNode = *node;
                    assert(branch_id(keys, id));
                    let sib: u64 = if bit == 0 {
                        n.right
                    } else {
                        n.left
                    };
                    proof {
                        assert(sib == slot(keys, d + 1, sibling(c)));
                        lemma_slot(keys, d + 1, sibling(c));
                        let e = slot_depth(sib);
                        let q = slot_prefix(sib);
                        if e < 40 {
                            lemma_packed(e, q);
                            assert(branch_id(keys, packed(e, q)));
                            assert(self.nodes@.contains_key(packed(e, q)));
                            if q == prefix(key, e) {
                                lemma_agree_above(e, q, key, d + 1, e);
                                assert(false);
                            }
                        }
                    }
                    let sib_val = self.slot_value(sib, d + 1);
                    v = if bit == 0 {
                        node_hash(&v, &sib_val)
                    } else {
                        node_hash(&sib_val, &v)
                    };
                    n.hash = v;
                    let ghost before = self.nodes@;
                    self.nodes.insert(id, n);
                    let ghost dirty = self.dirty_nodes@;
                    self.dirty_nodes.push(id);
                    proof {
                        assert(self.nodes@.dom() =~= before.dom());
                        assert(path_branches(keys, key, d + 1) =~= seq![id] + path_branches(
                            keys,
                            key,
                            d as int,
                        ));
                        assert(self.dirty_nodes@ + path_branches(keys, key, d as int) =~= dirty
                            + path_branches(keys, key, d + 1));
                        assert forall|x: u64| #[trigger]
                            self.nodes@.contains_key(x) && (id_prefix(x) != prefix(key, id_depth(x))
                                || id_depth(x) >= d) implies self.nodes@[x].hash == subtree(
                            m,
                            id_depth(x),
                            id_prefix(x),
                        ) by {
                            assert(before.contains_key(x));
                            if x != id {
                                assert(branch_id(keys, x));
                                if id_prefix(x) == prefix(key, id_depth(x)) && id_depth(x) == d {
                                    assert(x == id);
                                }
                            }
                        }
                    }
                },
                None => {
                    assert(!branch_id(keys, id));
                    proof {
                        lemma_empty_value(m, d + 1, sibling(c));
                    }
                    let def = &self.empties[(39 - d) as usize];
                    v = if bit == 0 {
                        node_hash(&v, def)
                    } else {
                        node_hash(def, &v)
                    };
                    proof {
                        assert forall|x: u64| #[trigger]
                            self.nodes@.contains_key(x) && (id_prefix(x) != prefix(key, id_depth(x))
                                || id_depth(x) >= d) implies self.nodes@[x].hash == subtree(
                            m,
                            id_depth(x),
                            id_prefix(x),
                        ) by {
                            assert(branch_id(keys, x));
                            if id_prefix(x) == prefix(key, id_depth(x)) && id_depth(x) == d {
                                assert(x == id);
                            }
                        }
                    }
                },
            }
        }
        self.root_hash = Some(v);
        proof {
            lemma_root_prefix(key);
            assert(path_branches(keys, key, 0) =~= Seq::<u64>::empty());
            assert(self.dirty_nodes@ =~= first + path);
            assert(self@ == m);
        }
    }

    /// Rewrites the hashes along the path of `key`, from its leaf up.
    fn recompute(&mut self, key: u64)
        requires
            key < 0x100_0000_0000,
            old(self).leaves_ok(),
            shape_ok(old(self).nodes@, old(self).root_child, old(self)@.dom()),
            hashes_from(old(self).nodes@, old(self)@, key, 40),
            old(self)@.contains_key(key),
        ensures
            final(self).leaves == old(self).leaves,
            final(self).buckets == old(self).buckets,
            final(self).empties == old(self).empties,
            final(self).dirty_leaves == old(self).dirty_leaves,
            final(self).root_child == old(self).root_child,
            final(self).nodes@.dom() == old(self).nodes@.dom(),
            shape_ok(final(self).nodes@, final(self).root_child, final(self)@.dom()),
            hashes_ok(final(self).nodes@, final(self)@),
            final(self).root_hash == Some(smt_root(final(self)@)),
            final(self).dirty_nodes@ == old(self).dirty_nodes@ + path_branches(old(self)@.dom(), key, 40),
    {
        proof {
            lemma_key_fills(self@.dom(), key, 40);
            lemma_prefix(key, 40);
        }
        let leaf = self.bucket_root(key);
        self.recompute_from(key, leaf, 40);
    }
}


/// The branch point that adding `key` creates: none if the key is there or
/// the tree is empty, else the one position that branches only with it.
pub open spec fn fresh_branch(keys: Set<u64>, key: u64) -> Seq<u64> {
    if keys.contains(key) || keys =~= Set::empty() {
        Seq::empty()
    } else {
        seq![choose|id: u64| #[trigger] branch_id(keys.insert(key), id) && !branch_id(keys, id)]
    }
}

proof fn lemma_fresh_branch(keys: Set<u64>, key: u64, e: int, div: int)
    requires
        joins_at(keys, key, e, div),
    ensures
        fresh_branch(keys, key) == seq![packed(div, prefix(key, div))],
        !keys.contains(key),
{
    let np = packed(div, prefix(key, div));
    lemma_parting(keys, key, e, div);
    lemma_prefix(key, div);
    lemma_packed(div, prefix(key, div));
    lemma_joined_branches(keys, key, e, div, div, prefix(key, div));
    assert(branch_id(keys.insert(key), np) && !branch_id(keys, np));
    let id = choose|id: u64| #[trigger] branch_id(keys.insert(key), id) && !branch_id(keys, id);
    lemma_joined_branches(keys, key, e, div, id_depth(id), id_prefix(id));
    assert(id == np);
    if keys =~= Set::empty() {
        lemma_no_keys(e, prefix(key, e));
    }
}

impl Smt {
    /// Adds a leaf to the leaf and bucket maps; whether anything changed.
    fn add_leaf(&mut self, key: u64, leaf: Digest) -> (touched: bool)
        requires
            old(self).leaves_ok(),
            key < 0x100_0000_0000,
        ensures
            final(self).leaves_ok(),
            final(self)@ == with_leaf(old(self)@, key, leaf),
            touched == !(old(self)@.contains_key(key) && old(self)@[key].contains(leaf)),
            !touched ==> *final(self) == *old(self),
            final(self).nodes == old(self).nodes,
            final(self).root_child == old(self).root_child,
            final(self).root_hash == old(self).root_hash,
            final(self).dirty_nodes == old(self).dirty_nodes,
            final(self).dirty_leaves == old(self).dirty_leaves,
            final(self).empties == old(self).empties,
    {
        broadcast use vstd::std_specs::hash::group_hash_axioms;

        let ghost m = self@;
        let ghost l0 = self.leaves@;
        let ghost b0 = self.buckets@;
        let mut hit: Option<usize> = None;
        match self.buckets.get(&key) {
            Some(v) => {
                let (found, pos) = bucket_search(v, &leaf);
                if found {
                    proof {
                        assert(m[key].insert(leaf) =~= m[key]);
                        assert(with_leaf(m, key, leaf) =~= m);
                    }
                    return false;
                }
                proof {
                    lemma_bucket_insert(v@, pos as int, leaf);
                }
                hit = Some(pos);
            },
            None => {},
        }
        match hit {
            Some(pos) => {
                let taken = self.buckets.remove(&key);
                match taken {
                    Some(bucket) => {
                        let mut v: Vec<Digest> = bucket;
                        v.insert(pos, leaf);
                        self.buckets.insert(key, v);
                        proof {
                            assert(self.buckets@ =~= b0.insert(key, v));
                            assert(v@.to_set() == m[key].insert(leaf));
                            assert(self@ =~= with_leaf(m, key, leaf));
                        }
                    },
                    None => {
                        assert(false);
                    },
                }
                return true;
            },
            None => {},
        }
        let single: Option<Digest> = match self.leaves.get(&key) {
            Some(h) => Some(*h),
            None => None,
        };
        match single {
            Some(h) => {
                if same_id(&h, &leaf) {
                    proof {
                        assert(m[key].insert(leaf) =~= m[key]);
                        assert(with_leaf(m, key, leaf) =~= m);
                    }
                    return false;
                }
                let mut v: Vec<Digest> = Vec::new();
                if id_before(&h, &leaf) {
                    v.push(h);
                    v.push(leaf);
                } else {
                    proof {
                        if ordinal(h) == ordinal(leaf) {
                            lemma_ordinal_injective(h, leaf);
                        }
                    }
                    v.push(leaf);
                    v.push(h);
                }
                proof {
                    assert(v@[0] == h || v@[1] == h);
                    assert(v@[0] == leaf || v@[1] == leaf);
                    assert(v@.contains(h) && v@.contains(leaf));
                    assert(v@.to_set() =~= m[key].insert(leaf));
                }
                self.buckets.insert(key, v);
                self.leaves.remove(&key);
                proof {
                    assert(self@ =~= with_leaf(m, key, leaf));
                }
                true
            },
            None => {
                self.leaves.insert(key, leaf);
                proof {
                    assert(self@ =~= with_leaf(m, key, leaf));
                }
                true
            },
        }
    }

    /// Adds an entry leaf at `key`; a second distinct leaf makes the key a
    /// sorted bucket. Adding a leaf that is there changes nothing.
    #[verifier::rlimit(40)]
    pub fn insert(&mut self, key: u64, leaf: Digest)
        requires
            old(self).wf(),
            key < 0x100_0000_0000,
        ensures
            final(self).wf(),
            final(self)@ == with_leaf(old(self)@, key, leaf),
            old(self)@.contains_key(key) && old(self)@[key].contains(leaf) ==> *final(self) == *old(self),
            !(old(self)@.contains_key(key) && old(self)@[key].contains(leaf)) ==> {
                &&& final(self).touched_leaves() == old(self).touched_leaves().push(key)
                &&& final(self).touched_nodes() == old(self).touched_nodes() + fresh_branch(
                    old(self)@.dom(),
                    key,
                ) + path_branches(final(self)@.dom(), key, 40)
            },
    {
        broadcast use vstd::std_specs::hash::group_hash_axioms;

        let ghost m0 = self@;
        let ghost keys = self@.dom();
        let ghost nodes0 = self.nodes@;
        let ghost root0 = self.root_child;
        let ghost dirty0 = self.dirty_nodes@;
        let touched = self.add_leaf(key, leaf);
        if !touched {
            return;
        }
        let ghost m = self@;
        self.dirty_leaves.push(key);
        proof {
            assert(m.dom() =~= keys.insert(key));
            assert(m0.remove(key) =~= m.remove(key));
            assert forall|id: u64| #[trigger]
                nodes0.contains_key(id) && id_prefix(id) != prefix(key, id_depth(id)) implies nodes0[id].hash
                == subtree(m, id_depth(id), id_prefix(id)) by {
                assert(branch_id(keys, id));
                lemma_value_frame(m0, m, key, id_depth(id), id_prefix(id));
            }
        }
        let (_stack, at, repr, Ghost(e)) = self.locate_full(key, Ghost(keys));
        if repr == EMPTY {
            proof {
                if e > 0 {
                    lemma_path_step(keys, key, e - 1);
                }
                assert(e == 0);
                lemma_root_prefix(key);
                assert forall|k: u64| !keys.contains(k) by {
                    if keys.contains(k) {
                        assert(m0.contains_key(k));
                        lemma_empty_tree(keys, k);
                    }
                }
                assert(keys =~= Set::empty());
                assert(m.dom() =~= set![key]);
                lemma_chain_bits(key);
            }
            let c = chain(key);
            self.write_slot(at, c, Ghost(key), Ghost(e));
            proof {
                lemma_lone_chain(keys, key, 0);
                assert(m.dom().len() == 1);
                assert forall|id: u64| branch_id(m.dom(), id) implies false by {
                    lemma_single_key(key, id_depth(id), id_prefix(id));
                }
            }
        } else {
            let ghost d = slot_depth(repr);
            let ghost q = slot_prefix(repr);
            proof {
                lemma_prefix(key, e);
                lemma_slot(keys, e, prefix(key, e));
                lemma_position_range(d, q);
                if m0 == Leaves::empty() {
                    assert(keys =~= Set::empty());
                    lemma_no_keys(e, prefix(key, e));
                }
                assert(keys.len() == nodes0.dom().len() + 1);
            }
            if is_chain(repr) {
                let k = chain_key(repr);
                if k != key {
                    let div = divergence_depth(k, key);
                    self.join(key, at, repr, div, Ghost(keys), Ghost(e));
                } else {
                    assert(keys.contains(key));
                    assert(keys.insert(key) =~= keys);
                }
            } else {
                let (dd, p) = unpack(node_packed(repr));
                proof {
                    lemma_packed(d, q);
                    lemma_shift(key, 40 - dd);
                    lemma_prefix(key, d);
                }
                let mine: u64 = key >> (40 - dd);
                proof {
                    if dd == 0 {
                        lemma_width();
                    }
                }
                let div = prefix_divergence(mine, p, dd);
                proof {
                    lemma_up_sum(key as int, 40 - dd, dd - div);
                    lemma_up_sum(key as int, 40 - dd, dd - div - 1);
                }
                self.join(key, at, repr, div, Ghost(keys), Ghost(e));
            }
        }
        let ghost grown = self.nodes@;
        self.recompute(key);
        proof {
            assert(self@ == m);
            assert(m.dom().finite());
            assert(grown.dom().finite());
            assert(m.dom().len() == grown.dom().len() + 1);
        }
    }

    /// Stores the branch point at depth `div` where `key` parts from what
    /// hangs in its slot, and writes it into the slot.
    fn join(
        &mut self,
        key: u64,
        at: SlotRef,
        repr: u64,
        div: u64,
        Ghost(keys): Ghost<Set<u64>>,
        Ghost(e): Ghost<int>,
    )
        requires
            key < 0x100_0000_0000,
            shape_ok(old(self).nodes@, old(self).root_child, keys),
            names_slot(at, key, e),
            0 <= e <= 40,
            repr == slot(keys, e, prefix(key, e)),
            e > 0 ==> is_branch(keys, e - 1, prefix(key, e - 1)),
            repr != 0,
            terminal(key, repr),
            repr & CHAIN_BIT != 0 ==> slot_prefix(repr) != key,
            div < slot_depth(repr),
            above(slot_depth(repr), slot_prefix(repr), div as int) == prefix(key, div as int),
            above(slot_depth(repr), slot_prefix(repr), div + 1) != prefix(key, div + 1),
        ensures
            shape_ok(final(self).nodes@, final(self).root_child, keys.insert(key)),
            !keys.contains(key),
            final(self).nodes@.dom() == old(self).nodes@.dom().insert(packed(div as int, prefix(key, div as int))),
            !old(self).nodes@.contains_key(packed(div as int, prefix(key, div as int))),
            forall|id: u64|
                id_prefix(id) != prefix(key, id_depth(id)) && #[trigger] final(self).nodes@.contains_key(id)
                    ==> old(self).nodes@.contains_key(id) && final(self).nodes@[id] == old(self).nodes@[id],
            final(self).dirty_nodes@ == old(self).dirty_nodes@ + fresh_branch(keys, key),
            final(self).leaves == old(self).leaves,
            final(self).buckets == old(self).buckets,
            final(self).root_hash == old(self).root_hash,
            final(self).dirty_leaves == old(self).dirty_leaves,
            final(self).empties == old(self).empties,
    {
        broadcast use vstd::std_specs::hash::group_hash_axioms;

        proof {
            lemma_prefix(key, e);
            lemma_slot(keys, e, prefix(key, e));
            if div < e {
                lemma_agree_above(slot_depth(repr), slot_prefix(repr), key, div + 1, e);
                assert(false);
            }
            assert(joins_at(keys, key, e, div as int));
            lemma_fresh_branch(keys, key, e, div as int);
            lemma_shift(key, 40 - div);
            lemma_shift(key, 39 - div);
            lemma_low_bit(key >> ((39 - div) as u64));
            lemma_prefix(key, div as int);
            lemma_packed(div as int, prefix(key, div as int));
        }
        let bit: u64 = (key >> (39 - div)) & 1;
        let np = pack(div, key >> (40 - div));
        let hash = empty_leaf();
        let node = if bit == 0 {
            BranchNode { hash, left: chain(key), right: repr }
        } else {
            BranchNode { hash, left: repr, right: chain(key) }
        };
        proof {
            lemma_attach(self.nodes@, self.root_child, keys, key, e, div as int, node);
            if e > 0 {
                let par = packed(e - 1, prefix(key, e - 1));
                lemma_prefix(key, e - 1);
                lemma_packed(e - 1, prefix(key, e - 1));
                assert(branch_id(keys, par));
                assert(self.nodes@.contains_key(par));
            }
        }
        self.nodes.insert(np, node);
        self.dirty_nodes.push(np);
        self.write_slot(at, node_ref(np), Ghost(key), Ghost(e));
    }
}


impl Smt {
    /// Takes a leaf out of the leaf and bucket maps: whether anything
    /// changed, and whether the key lost its last leaf.
    fn take_leaf(&mut self, key: u64, leaf: &Digest) -> (r: (bool, bool))
        requires
            old(self).leaves_ok(),
        ensures
            final(self).leaves_ok(),
            final(self)@ == without_leaf(old(self)@, key, *leaf),
            r.0 == (old(self)@.contains_key(key) && old(self)@[key].contains(*leaf)),
            r.1 == (old(self)@.contains_key(key) && !final(self)@.contains_key(key)),
            r.1 ==> r.0,
            !r.0 ==> *final(self) == *old(self),
            final(self).nodes == old(self).nodes,
            final(self).root_child == old(self).root_child,
            final(self).root_hash == old(self).root_hash,
            final(self).dirty_nodes == old(self).dirty_nodes,
            final(self).dirty_leaves == old(self).dirty_leaves,
            final(self).empties == old(self).empties,
    {
        broadcast use vstd::std_specs::hash::group_hash_axioms;

        let ghost m = self@;
        let ghost l0 = self.leaves@;
        let ghost b0 = self.buckets@;
        let mut hit: Option<usize> = None;
        match self.buckets.get(&key) {
            Some(v) => {
                let (found, pos) = bucket_search(v, leaf);
                if !found {
                    return (false, false);
                }
                proof {
                    lemma_bucket_remove(v@, pos as int);
                }
                hit = Some(pos);
            },
            None => {},
        }
        match hit {
            Some(pos) => {
                let taken = self.buckets.remove(&key);
                match taken {
                    Some(bucket) => {
                        let mut v: Vec<Digest> = bucket;
                        v.remove(pos);
                        let ghost q = v@;
                        proof {
                            assert(q.to_set() == m[key].remove(*leaf));
                            assert(q[0] == q[0] && q.contains(q[0]));
                            assert(q.to_set().contains(q[0]));
                            assert(m[key].remove(*leaf) != Set::<Digest>::empty());
                        }
                        if v.len() == 1 {
                            let rest: Digest = v[0];
                            proof {
                                assert(q =~= seq![rest]);
                                assert(q.to_set() =~= set![rest]);
                            }
                            self.leaves.insert(key, rest);
                        } else {
                            self.buckets.insert(key, v);
                            assert(self.buckets@ =~= b0.insert(key, v));
                        }
                        proof {
                            assert(self@ =~= without_leaf(m, key, *leaf));
                        }
                    },
                    None => {
                        assert(false);
                    },
                }
                return (true, false);
            },
            None => {},
        }
        let same: bool = match self.leaves.get(&key) {
            Some(h) => same_id(h, leaf),
            None => false,
        };
        if same {
            self.leaves.remove(&key);
            proof {
                assert(m[key].remove(*leaf) =~= Set::empty());
                assert(self@ =~= without_leaf(m, key, *leaf));
            }
            (true, true)
        } else {
            (false, false)
        }
    }

    /// Takes an entry leaf away from `key`; a key that loses its last leaf
    /// leaves the tree. Taking away a leaf that is not there changes nothing.
    #[verifier::rlimit(40)]
    pub fn remove(&mut self, key: u64, leaf: &Digest)
        requires
            old(self).wf(),
            key < 0x100_0000_0000,
        ensures
            final(self).wf(),
            final(self)@ == without_leaf(old(self)@, key, *leaf),
            !(old(self)@.contains_key(key) && old(self)@[key].contains(*leaf)) ==> *final(self) == *old(
                self,
            ),
            old(self)@.contains_key(key) && old(self)@[key].contains(*leaf) ==> {
                &&& final(self).touched_leaves() == old(self).touched_leaves().push(key)
                &&& final(self).touched_nodes() == old(self).touched_nodes() + path_branches(
                    final(self)@.dom(),
                    key,
                    40,
                )
            },
    {
        broadcast use vstd::std_specs::hash::group_hash_axioms;

        let ghost m0 = self@;
        let ghost keys = self@.dom();
        let ghost nodes0 = self.nodes@;
        let (touched, emptied) = self.take_leaf(key, leaf);
        if !touched {
            return;
        }
        let ghost m = self@;
        self.dirty_leaves.push(key);
        proof {
            assert(m0.remove(key) =~= m.remove(key));
            assert forall|id: u64| #[trigger]
                nodes0.contains_key(id) && id_prefix(id) != prefix(key, id_depth(id)) implies nodes0[id].hash
                == subtree(m, id_depth(id), id_prefix(id)) by {
                assert(branch_id(keys, id));
                lemma_value_frame(m0, m, key, id_depth(id), id_prefix(id));
            }
        }
        if emptied {
            proof {
                assert(m.dom() =~= keys.remove(key));
            }
            self.detach(key, Ghost(keys));
            proof {
                assert(self@ == m);
                assert(m.dom().len() == keys.len() - 1);
                if m == Leaves::empty() {
                    assert(m.dom() =~= Set::empty());
                }
            }
        } else {
            proof {
                assert(m.dom() =~= keys);
            }
            self.recompute(key);
            assert(self@ == m);
            assert(m0 != Leaves::empty());
        }
    }

    /// Takes the chain of a key that lost its last leaf out of the trie: the
    /// branch point above it gives way to what hangs on its other side.
    #[verifier::rlimit(40)]
    fn detach(&mut self, key: u64, Ghost(keys): Ghost<Set<u64>>)
        requires
            key < 0x100_0000_0000,
            old(self).leaves_ok(),
            keys.contains(key),
            keys.finite(),
            forall|k: u64| #[trigger] keys.contains(k) ==> k < 0x100_0000_0000,
            old(self)@.dom() == keys.remove(key),
            shape_ok(old(self).nodes@, old(self).root_child, keys),
            hashes_from(old(self).nodes@, old(self)@, key, 40),
            old(self).nodes@.dom().finite(),
            keys.len() == old(self).nodes@.dom().len() + 1,
        ensures
            final(self).leaves == old(self).leaves,
            final(self).buckets == old(self).buckets,
            final(self).empties == old(self).empties,
            final(self).dirty_leaves == old(self).dirty_leaves,
            shape_ok(final(self).nodes@, final(self).root_child, final(self)@.dom()),
            hashes_ok(final(self).nodes@, final(self)@),
            final(self).nodes@.dom().finite(),
            match final(self).root_hash {
                Some(h) => h == smt_root(final(self)@) && keys.len() == final(self).nodes@.dom().len() + 2,
                None => final(self)@ == Leaves::empty() && final(self).nodes@ == Map::<
                    u64,
                    BranchNode,
                >::empty(),
            },
            final(self).dirty_nodes@ == old(self).dirty_nodes@ + path_branches(
                final(self)@.dom(),
                key,
                40,
            ),
    {
        broadcast use vstd::std_specs::hash::group_hash_axioms;

        let ghost m = self@;
        let ghost less = keys.remove(key);
        let ghost nodes0 = self.nodes@;
        let (stack, _at, repr, Ghost(e)) = self.locate_full(key, Ghost(keys));
        proof {
            lemma_own_slot(keys, key, e);
        }
        if stack.len() == 0 {
            proof {
                if e > 0 {
                    assert(path_branches(keys, key, e).len() > 0);
                }
                lemma_root_prefix(key);
                lemma_alone_gone(keys, key, 0);
                assert forall|k: u64| !less.contains(k) by {
                    if less.contains(k) {
                        lemma_empty_tree(less, k);
                    }
                }
                assert(less =~= Set::empty());
                assert(m =~= Leaves::empty());
                assert(less.len() == keys.len() - 1);
                assert(nodes0.dom().len() == 0);
                assert(nodes0.dom() =~= Set::empty());
                assert(nodes0 =~= Map::<u64, BranchNode>::empty());
                assert forall|id: u64| branch_id(less, id) implies false by {
                    lemma_children(id_depth(id), id_prefix(id));
                    lemma_no_keys(id_depth(id) + 1, 2 * id_prefix(id));
                }
                lemma_no_branches(less, key, 40);
                assert(self.dirty_nodes@ =~= self.dirty_nodes@ + Seq::<u64>::empty());
            }
            self.root_child = EMPTY;
            self.root_hash = None;
            return;
        }
        let last: (u64, u64) = stack[stack.len() - 1];
        let ghost div = e - 1;
        let ghost f = lemma_deepest_branch(keys, key, e - 1);
        let ghost up_to = f + 1;
        let ghost above_path = path_branches(keys, key, div);
        proof {
            if e == 0 {
                assert(path_branches(keys, key, 0).len() == 0);
            }
            assert(path_branches(keys, key, e) =~= seq![packed(div, prefix(key, div))] + above_path);
            assert(last.0 == packed(div, prefix(key, div)));
            lemma_prefix(key, div);
            lemma_packed(div, prefix(key, div));
            assert(branch_id(keys, last.0));
            assert(self.nodes@.contains_key(last.0));
            lemma_path_step(keys, key, div);
            lemma_detach(self.nodes@, self.root_child, keys, key, up_to, div);
        }
        let other: u64 = match self.nodes.get(&last.0) {
            Some(n) => if last.1 == 0 {
                n.right
            } else {
                n.left
            },
            None => {
                assert(false);
                EMPTY
            },
        };
        assert(other == slot(keys, div + 1, sibling(prefix(key, div + 1))));
        self.nodes.remove(&last.0);
        let at = if stack.len() >= 2 {
            let parent: (u64, u64) = stack[stack.len() - 2];
            proof {
                assert(parent.0 == path_branches(keys, key, e)[1]);
                assert(above_path[0] == packed(f, prefix(key, f)));
                lemma_prefix(key, f);
                lemma_packed(f, prefix(key, f));
                assert(branch_id(keys, parent.0));
                assert(nodes0.contains_key(parent.0));
                assert(parent.0 != last.0);
            }
            SlotRef::Child { parent: parent.0, bit: parent.1 }
        } else {
            SlotRef::Root
        };
        self.write_slot(at, other, Ghost(key), Ghost(up_to));
        proof {
            assert(self@ == m);
            assert(self.nodes@.dom() == nodes0.dom().remove(last.0));
            lemma_prefix(key, up_to);
            lemma_slot(less, up_to, prefix(key, up_to));
            lemma_slot(keys, div + 1, sibling(prefix(key, div + 1)));
            let d = slot_depth(other);
            let q = slot_prefix(other);
            if d < 40 {
                lemma_packed(d, q);
                assert(branch_id(less, packed(d, q)));
                assert(self.nodes@.contains_key(packed(d, q)));
                if q == prefix(key, d) {
                    lemma_agree_above(d, q, key, div + 1, d);
                    assert(false);
                }
            }
            assert forall|id: u64| #[trigger]
                self.nodes@.contains_key(id) && (id_prefix(id) != prefix(key, id_depth(id)) || id_depth(id)
                    >= up_to) implies self.nodes@[id].hash == subtree(m, id_depth(id), id_prefix(id)) by {
                assert(branch_id(less, id));
                if id_prefix(id) == prefix(key, id_depth(id)) {
                    assert(!is_branch(less, id_depth(id), prefix(key, id_depth(id))));
                } else {
                    assert(nodes0.contains_key(id));
                }
            }
            lemma_path_stretch(less, key, up_to, 40);
        }
        match at {
            SlotRef::Child { parent, bit: _ } => {
                let d_p: u64 = unpack(parent).0;
                let v0 = self.slot_value(other, d_p + 1);
                self.recompute_from(key, v0, d_p + 1);
            },
            SlotRef::Root => {
                let v0 = self.slot_value(other, 0);
                self.root_hash = Some(v0);
                proof {
                    lemma_root_prefix(key);
                    assert(path_branches(less, key, 0) =~= Seq::<u64>::empty());
                    assert(self.dirty_nodes@ =~= self.dirty_nodes@ + Seq::<u64>::empty());
                }
            },
        }
    }
}


/// The entries of a content, as (key, leaf) pairs.
pub open spec fn entries(m: Leaves) -> Set<(u64, Digest)> {
    Set::new(|e: (u64, Digest)| m.contains_key(e.0) && m[e.0].contains(e.1))
}

/// The pairs under one key.
pub(crate) closed spec fn pairs_of(k: u64, s: Set<Digest>) -> Set<(u64, Digest)> {
    Set::new(|e: (u64, Digest)| e.0 == k && s.contains(e.1))
}

pub(crate) proof fn lemma_pairs_of(k: u64, s: Set<Digest>)
    requires
        s.finite(),
    ensures
        pairs_of(k, s).finite(),
        pairs_of(k, s).len() == s.len(),
    decreases s.len(),
{
    if s =~= Set::empty() {
        assert(pairs_of(k, s) =~= Set::empty());
    } else {
        let x = s.choose();
        lemma_pairs_of(k, s.remove(x));
        assert(pairs_of(k, s) =~= pairs_of(k, s.remove(x)).insert((k, x)));
    }
}

/// An ascending sequence has as many members as positions.
proof fn lemma_ascending_len(q: Seq<Digest>)
    requires
        ascending(q),
    ensures
        q.to_set().finite(),
        q.to_set().len() == q.len(),
{
    assert(q.no_duplicates()) by {
        assert forall|i: int, j: int| 0 <= i < q.len() && 0 <= j < q.len() && i != j implies q[i] != q[j] by {
            if i < j {
                assert(ordinal(q[i]) < ordinal(q[j]));
            } else {
                assert(ordinal(q[j]) < ordinal(q[i]));
            }
        }
    }
    q.unique_seq_to_set();
    vstd::seq_lib::seq_to_set_is_finite(q);
}


/// The keys of a map, each once, in no particular order.
pub(crate) fn map_keys<T>(m: &HashMap<u64, T>) -> (keys: Vec<u64>)
    ensures
        keys@.no_duplicates(),
        keys@.to_set() == m@.dom(),
        keys@.len() == m@.dom().len(),
        m@.dom().finite(),
{
    broadcast use vstd::std_specs::hash::group_hash_axioms;

    let mut keys: Vec<u64> = Vec::new();
    let ghost all = vstd::std_specs::hash::spec_keys_iter(m).remaining();
    for k in it: m.keys()
        invariant
            it.seq() == all,
            keys@.len() == it.index(),
            forall|i: int| 0 <= i < keys@.len() ==> keys@[i] == *all[i],
    {
        keys.push(*k);
    }
    proof {
        assert(keys@ =~= all.unref());
        vstd::seq_lib::seq_to_set_is_finite(keys@);
        assert forall|i: int, j: int| 0 <= i < keys@.len() && 0 <= j < keys@.len() && i != j implies keys@[i]
            != keys@[j] by {
            assert(all[i] != all[j]);
        }
    }
    keys
}

impl Smt {
    /// The keys that hold a leaf, each once, in no particular order.
    pub fn iter_leaf_keys(&self) -> (keys: Vec<u64>)
        requires
            self.wf(),
        ensures
            keys@.no_duplicates(),
            keys@.to_set() == self@.dom(),
    {
        let mut keys: Vec<u64> = map_keys(&self.leaves);
        let mut more: Vec<u64> = map_keys(&self.buckets);
        let ghost a = keys@;
        let ghost b = more@;
        keys.append(&mut more);
        proof {
            assert forall|i: int, j: int| 0 <= i < a.len() && 0 <= j < b.len() implies a[i] != b[j] by {
                assert(a.to_set().contains(a[i]));
                assert(b.to_set().contains(b[j]));
                assert(self.leaves@.contains_key(a[i]));
                assert(self.buckets@.contains_key(b[j]));
            }
            assert(keys@ =~= a + b);
            assert forall|k: u64| (a + b).contains(k) == self@.dom().contains(k) by {
                if a.contains(k) {
                    let i = choose|i: int| 0 <= i < a.len() && a[i] == k;
                    assert((a + b)[i] == k);
                    assert(a.to_set().contains(k));
                }
                if b.contains(k) {
                    let i = choose|i: int| 0 <= i < b.len() && b[i] == k;
                    assert((a + b)[a.len() + i] == k);
                    assert(b.to_set().contains(k));
                }
                if (a + b).contains(k) {
                    let i = choose|i: int| 0 <= i < (a + b).len() && (a + b)[i] == k;
                    if i < a.len() {
                        assert(a[i] == k);
                        assert(a.to_set().contains(k));
                    } else {
                        assert(b[i - a.len()] == k);
                        assert(b.to_set().contains(k));
                    }
                }
                if self.leaves@.contains_key(k) {
                    assert(a.to_set().contains(k));
                }
                if self.buckets@.contains_key(k) {
                    assert(b.to_set().contains(k));
                }
            }
            assert(keys@.to_set() =~= self@.dom());
        }
        keys
    }

    /// Number of entry leaves.
    pub fn len(&self) -> (n: usize)
        requires
            self.wf(),
            entries(self@).len() <= usize::MAX,
        ensures
            n == entries(self@).len(),
            entries(self@).finite(),
    {
        broadcast use vstd::std_specs::hash::group_hash_axioms;

        let keys = self.iter_leaf_keys();
        let mut n: usize = 0;
        let mut i: usize = 0;
        let ghost mut seen: Set<(u64, Digest)> = Set::empty();
        proof {
            lemma_entries_finite(*self, keys@);
            assert(seen =~= entries_upto(self@, keys@, 0));
        }
        while i < keys.len()
            invariant
                self.wf(),
                i <= keys@.len(),
                keys@.no_duplicates(),
                keys@.to_set() == self@.dom(),
                entries(self@).finite(),
                entries(self@).len() <= usize::MAX,
                seen == entries_upto(self@, keys@, i as int),
                seen.finite(),
                n == seen.len(),
            decreases keys@.len() - i,
        {
            let k: u64 = keys[i];
            assert(self@.contains_key(k)) by {
                assert(keys@.to_set().contains(k));
            }
            let more: usize = match self.buckets.get(&k) {
                Some(v) => {
                    proof {
                        lemma_ascending_len(v@);
                    }
                    v.len()
                },
                None => 1,
            };
            proof {
                assert(self@[k].finite() && self@[k].len() == more);
                lemma_pairs_of(k, self@[k]);
                let fresh = pairs_of(k, self@[k]);
                let next = entries_upto(self@, keys@, i + 1);
                assert(next =~= seen.union(fresh)) by {
                    assert forall|e: (u64, Digest)| next.contains(e) == (seen.contains(e) || fresh.contains(e)) by {
                        if next.contains(e) {
                            let j = choose|j: int| 0 <= j < i + 1 && #[trigger] keys@[j] == e.0;
                            if j < i {
                                assert(keys@[j] == e.0);
                            }
                        }
                        if seen.contains(e) {
                            let j = choose|j: int| 0 <= j < i && #[trigger] keys@[j] == e.0;
                            assert(keys@[j] == e.0);
                        }
                        if fresh.contains(e) {
                            assert(keys@[i as int] == e.0);
                        }
                    }
                }
                assert(seen.disjoint(fresh)) by {
                    assert forall|e: (u64, Digest)| !(seen.contains(e) && fresh.contains(e)) by {
                        if seen.contains(e) && fresh.contains(e) {
                            let j = choose|j: int| 0 <= j < i && #[trigger] keys@[j] == e.0;
                            assert(keys@[j] != keys@[i as int]);
                        }
                    }
                }
                vstd::set_lib::lemma_set_disjoint_lens(seen, fresh);
                assert(next.subset_of(entries(self@)));
                vstd::set_lib::lemma_len_subset(next, entries(self@));
                seen = next;
            }
            n += more;
            i += 1;
        }
        proof {
            assert(seen =~= entries(self@)) by {
                assert forall|e: (u64, Digest)| entries(self@).contains(e) implies seen.contains(e) by {
                    assert(keys@.to_set().contains(e.0));
                    assert(keys@.contains(e.0));
                    let j = choose|j: int| 0 <= j < keys@.len() && keys@[j] == e.0;
                    assert(keys@[j] == e.0);
                }
            }
        }
        n
    }

    /// Whether the tree holds no leaf.
    pub fn is_empty(&self) -> (r: bool)
        requires
            self.wf(),
        ensures
            r == (self@ == Leaves::empty()),
    {
        broadcast use vstd::std_specs::hash::group_hash_axioms;

        let r = self.leaves.is_empty() && self.buckets.is_empty();
        proof {
            if self@ == Leaves::empty() {
                assert forall|k: u64| !self.leaves@.contains_key(k) && !self.buckets@.contains_key(k) by {
                    assert(!self@.contains_key(k));
                }
                assert(self.leaves@.dom() =~= Set::empty());
                assert(self.buckets@.dom() =~= Set::empty());
            } else if r {
                assert(self.leaves@.dom() =~= Set::empty());
                assert(self.buckets@.dom() =~= Set::empty());
                assert(self@ =~= Leaves::empty());
            }
        }
        r
    }

    /// Tree root: the commitment of the content, from the cache.
    pub fn root(&self) -> (h: Digest)
        requires
            self.wf(),
        ensures
            h == smt_root(self@),
    {
        match self.root_hash {
            Some(h) => h,
            None => {
                proof {
                    lemma_empty_root();
                }
                self.empties[40]
            },
        }
    }

    /// Hands out the positions and leaf keys touched since the last call, in
    /// order, and forgets them.
    pub fn take_dirty(&mut self) -> (r: (Vec<u64>, Vec<u64>))
        requires
            old(self).wf(),
        ensures
            r.0@ == old(self).touched_nodes(),
            r.1@ == old(self).touched_leaves(),
            final(self).touched_nodes() == Seq::<u64>::empty(),
            final(self).touched_leaves() == Seq::<u64>::empty(),
            final(self)@ == old(self)@,
            final(self).wf(),
    {
        let mut nodes: Vec<u64> = Vec::new();
        let mut leaves: Vec<u64> = Vec::new();
        nodes.append(&mut self.dirty_nodes);
        leaves.append(&mut self.dirty_leaves);
        (nodes, leaves)
    }

    /// Number of stored branch points: one less than the keys.
    pub fn node_count(&self) -> (n: usize)
        requires
            self.wf(),
        ensures
            n == self.stored_nodes().len(),
            self@ == Leaves::empty() ==> n == 0,
            self@ != Leaves::empty() ==> n + 1 == self@.dom().len(),
    {
        broadcast use vstd::std_specs::hash::group_hash_axioms;

        proof {
            if self@ == Leaves::empty() {
                assert(self@.dom() =~= Set::empty());
            }
        }
        self.nodes.len()
    }

    /// The stored branch point at a packed position.
    pub fn branch_node(&self, id: u64) -> (n: Option<BranchNode>)
        ensures
            n == (if self.stored_nodes().contains_key(id) {
                Some(self.stored_nodes()[id])
            } else {
                None
            }),
    {
        broadcast use vstd::std_specs::hash::group_hash_axioms;

        match self.nodes.get(&id) {
            Some(n) => Some(*n),
            None => None,
        }
    }

    /// The stored branch points with their packed positions, each once, in
    /// no particular order.
    pub fn iter_branch_nodes(&self) -> (all: Vec<(u64, BranchNode)>)
        ensures
            forall|i: int|
                0 <= i < all@.len() ==> self.stored_nodes().contains_key((#[trigger] all@[i]).0)
                    && self.stored_nodes()[all@[i].0] == all@[i].1,
            forall|id: u64| #[trigger]
                self.stored_nodes().contains_key(id) ==> exists|i: int|
                    0 <= i < all@.len() && (#[trigger] all@[i]).0 == id,
            forall|i: int, j: int| 0 <= i < j < all@.len() ==> (#[trigger] all@[i]).0 != (#[trigger] all@[j]).0,
            all@.len() == self.stored_nodes().len(),
    {
        broadcast use vstd::std_specs::hash::group_hash_axioms;

        let keys = map_keys(&self.nodes);
        let mut all: Vec<(u64, BranchNode)> = Vec::new();
        let mut i: usize = 0;
        while i < keys.len()
            invariant
                i <= keys@.len(),
                keys@.no_duplicates(),
                keys@.to_set() == self.nodes@.dom(),
                all@.len() == i,
                forall|j: int| 0 <= j < i ==> (#[trigger] all@[j]).0 == keys@[j],
                forall|j: int|
                    0 <= j < i ==> self.nodes@.contains_key((#[trigger] all@[j]).0)
                        && self.nodes@[all@[j].0] == all@[j].1,
            decreases keys@.len() - i,
        {
            let k: u64 = keys[i];
            assert(keys@.to_set().contains(k));
            match self.nodes.get(&k) {
                Some(n) => {
                    all.push((k, *n));
                },
                None => {
                    assert(false);
                },
            }
            i += 1;
        }
        proof {
            assert forall|id: u64| #[trigger] self.stored_nodes().contains_key(id) implies exists|j: int|
                0 <= j < all@.len() && (#[trigger] all@[j]).0 == id by {
                assert(keys@.to_set().contains(id));
                let j = choose|j: int| 0 <= j < keys@.len() && keys@[j] == id;
                assert(all@[j].0 == id);
            }
        }
        all
    }

    /// The stored leaf of a key: its single hash, or the first hash and the
    /// sorted bucket.
    pub fn leaf_entry(&self, key: u64) -> (entry: Option<LeafEntry>)
        requires
            self.wf(),
        ensures
            match entry {
                Some((h, None)) => self@.contains_key(key) && self@[key] == set![h] && self@[key].len() == 1,
                Some((h, Some(v))) => {
                    &&& self@.contains_key(key)
                    &&& v@ == sorted_members(self@[key])
                    &&& v@.len() == self@[key].len()
                    &&& v@.len() >= 2
                    &&& h == v@[0]
                },
                None => !self@.contains_key(key),
            },
            match entry {
                Some((h, None)) => self.stored_leaves().contains_key(key) && self.stored_leaves()[key] == h
                    && !self.stored_buckets().contains_key(key),
                Some((h, Some(v))) => self.stored_buckets().contains_key(key) && self.stored_buckets()[key]
                    == v@ && !self.stored_leaves().contains_key(key),
                None => !self.stored_leaves().contains_key(key) && !self.stored_buckets().contains_key(key),
            },
    {
        broadcast use vstd::std_specs::hash::group_hash_axioms;

        match self.buckets.get(&key) {
            Some(v) => {
                proof {
                    lemma_sorted_members(v@);
                    lemma_ascending_len(v@);
                }
                let copy = copy_digests(v);
                return Some((v[0], Some(copy)));
            },
            None => {},
        }
        match self.leaves.get(&key) {
            Some(h) => Some((*h, None)),
            None => None,
        }
    }

    /// Root state for persistence: root slot and cached root.
    pub fn root_state(&self) -> (r: (u64, Option<Digest>))
        ensures
            r == self.stored_root(),
    {
        (self.root_child, self.root_hash)
    }

    /// The default chain is in place; every other field may be mid-import.
    pub closed spec fn importing(&self) -> bool {
        defaults_ok(self.empties@)
    }

    /// Import: stores a branch point as it is.
    pub fn restore_branch_node(&mut self, id: u64, n: BranchNode)
        requires
            old(self).importing(),
        ensures
            final(self).importing(),
            final(self).stored_nodes() == old(self).stored_nodes().insert(id, n),
            final(self).stored_leaves() == old(self).stored_leaves(),
            final(self).stored_buckets() == old(self).stored_buckets(),
            final(self).stored_root() == old(self).stored_root(),
            final(self).touched_nodes() == old(self).touched_nodes(),
            final(self).touched_leaves() == old(self).touched_leaves(),
    {
        broadcast use vstd::std_specs::hash::group_hash_axioms;

        self.nodes.insert(id, n);
    }

    /// Import: stores a single leaf or a bucket as it is.
    pub fn restore_leaf(&mut self, key: u64, h: Digest, bucket: Option<Vec<Digest>>)
        requires
            old(self).importing(),
        ensures
            final(self).importing(),
            final(self).stored_nodes() == old(self).stored_nodes(),
            final(self).stored_leaves() == (match bucket {
                None => old(self).stored_leaves().insert(key, h),
                Some(_) => old(self).stored_leaves(),
            }),
            final(self).stored_buckets() == (match bucket {
                None => old(self).stored_buckets(),
                Some(v) => old(self).stored_buckets().insert(key, v@),
            }),
            final(self).stored_root() == old(self).stored_root(),
            final(self).touched_nodes() == old(self).touched_nodes(),
            final(self).touched_leaves() == old(self).touched_leaves(),
    {
        broadcast use vstd::std_specs::hash::group_hash_axioms;

        match bucket {
            None => {
                self.leaves.insert(key, h);
            },
            Some(v) => {
                self.buckets.insert(key, v);
                assert(self.stored_buckets() =~= old(self).stored_buckets().insert(key, v@));
            },
        }
    }

    /// Import: sets the root slot and the cached root as they are.
    pub fn restore_root(&mut self, root_child: u64, root_hash: Option<Digest>)
        requires
            old(self).importing(),
        ensures
            final(self).importing(),
            final(self).stored_nodes() == old(self).stored_nodes(),
            final(self).stored_leaves() == old(self).stored_leaves(),
            final(self).stored_buckets() == old(self).stored_buckets(),
            final(self).stored_root() == (root_child, root_hash),
            final(self).touched_nodes() == old(self).touched_nodes(),
            final(self).touched_leaves() == old(self).touched_leaves(),
    {
        self.root_child = root_child;
        self.root_hash = root_hash;
    }

    /// A tree in order can take an import.
    pub proof fn lemma_importing(&self)
        requires
            self.wf(),
        ensures
            self.importing(),
    {
    }
}

/// The entries under the first `n` of some keys.
pub(crate) closed spec fn entries_upto(m: Leaves, keys: Seq<u64>, n: int) -> Set<(u64, Digest)> {
    Set::new(
        |e: (u64, Digest)|
            m.contains_key(e.0) && m[e.0].contains(e.1) && exists|j: int| 0 <= j < n && #[trigger] keys[j] == e.0,
    )
}

proof fn lemma_entries_upto_finite(tree: Smt, keys: Seq<u64>, n: int)
    requires
        tree.wf(),
        0 <= n <= keys.len(),
    ensures
        entries_upto(tree@, keys, n).finite(),
    decreases n,
{
    let m = tree@;
    if n == 0 {
        assert(entries_upto(m, keys, 0) =~= Set::empty());
    } else {
        lemma_entries_upto_finite(tree, keys, n - 1);
        let k = keys[n - 1];
        let before = entries_upto(m, keys, n - 1);
        let now = entries_upto(m, keys, n);
        if m.contains_key(k) {
            if tree.buckets@.contains_key(k) {
                lemma_ascending_len(tree.buckets@[k]@);
            }
            lemma_pairs_of(k, m[k]);
            assert(now.subset_of(before.union(pairs_of(k, m[k])))) by {
                assert forall|e: (u64, Digest)| now.contains(e) implies before.contains(e) || pairs_of(
                    k,
                    m[k],
                ).contains(e) by {
                    let j = choose|j: int| 0 <= j < n && #[trigger] keys[j] == e.0;
                    if j < n - 1 {
                        assert(keys[j] == e.0);
                    }
                }
            }
            vstd::set_lib::lemma_set_subset_finite(before.union(pairs_of(k, m[k])), now);
        } else {
            assert(now.subset_of(before)) by {
                assert forall|e: (u64, Digest)| now.contains(e) implies before.contains(e) by {
                    let j = choose|j: int| 0 <= j < n && #[trigger] keys[j] == e.0;
                    assert(j < n - 1);
                    assert(keys[j] == e.0);
                }
            }
            vstd::set_lib::lemma_set_subset_finite(before, now);
        }
    }
}

proof fn lemma_entries_finite(tree: Smt, keys: Seq<u64>)
    requires
        tree.wf(),
        keys.to_set() == tree@.dom(),
    ensures
        entries(tree@).finite(),
{
    lemma_entries_upto_finite(tree, keys, keys.len() as int);
    assert(entries_upto(tree@, keys, keys.len() as int) =~= entries(tree@)) by {
        assert forall|e: (u64, Digest)| entries(tree@).contains(e) implies entries_upto(
            tree@,
            keys,
            keys.len() as int,
        ).contains(e) by {
            assert(keys.to_set().contains(e.0));
            let j = choose|j: int| 0 <= j < keys.len() && keys[j] == e.0;
            assert(keys[j] == e.0);
        }
    }
}

/// Key of a 32-byte identifier in the tree: its first 40 bits.
pub fn smt_key(id: &Digest) -> (key: u64)
    ensures
        key == key_of(*id),
        key < 0x100_0000_0000,
{
    let mut key: u64 = 0;
    let mut i: usize = 0;
    proof {
        assert(id@.subrange(0, 0) =~= Seq::<u8>::empty());
        lemma_width();
    }
    while i < 5
        invariant
            i <= 5,
            key == big_endian(id@.subrange(0, i as int)),
            i == 0 ==> key < 1,
            i == 1 ==> key < 0x100,
            i == 2 ==> key < 0x1_0000,
            i == 3 ==> key < 0x100_0000,
            i == 4 ==> key < 0x1_0000_0000,
            i == 5 ==> key < 0x100_0000_0000,
        decreases 5 - i,
    {
        proof {
            let next = id@.subrange(0, i + 1);
            assert(next.drop_last() =~= id@.subrange(0, i as int));
            assert(next.last() == id@[i as int]);
        }
        key = key * 256 + id[i] as u64;
        i += 1;
    }
    key
}

/// The first 40 bits of an identifier, as a number.
pub open spec fn key_of(id: Digest) -> u64 {
    big_endian(id@.subrange(0, 5)) as u64
}


/// Two maps of one size, of which the first lies inside the second, are one.
proof fn lemma_same_map<T>(a: Map<u64, T>, b: Map<u64, T>)
    requires
        a.dom().finite(),
        b.dom().finite(),
        a.dom().len() == b.dom().len(),
        forall|k: u64| #[trigger] a.contains_key(k) ==> b.contains_key(k) && b[k] == a[k],
    ensures
        a == b,
{
    assert(a.dom().subset_of(b.dom()));
    vstd::set_lib::lemma_subset_equality(a.dom(), b.dom());
    assert(a =~= b);
}

/// Whether two leaf maps are equal.
fn same_leaves(a: &HashMap<u64, Digest>, b: &HashMap<u64, Digest>) -> (same: bool)
    ensures
        same == (a@ == b@),
{
    broadcast use vstd::std_specs::hash::group_hash_axioms;

    let keys = map_keys(a);
    let others = map_keys(b);
    if keys.len() != others.len() {
        return false;
    }
    let mut i: usize = 0;
    while i < keys.len()
        invariant
            i <= keys@.len(),
            keys@.to_set() == a@.dom(),
            forall|j: int|
                0 <= j < i ==> b@.contains_key(#[trigger] keys@[j]) && b@[keys@[j]] == a@[keys@[j]],
        decreases keys@.len() - i,
    {
        let k: u64 = keys[i];
        assert(keys@.to_set().contains(k));
        match (a.get(&k), b.get(&k)) {
            (Some(x), Some(y)) => {
                if !same_id(x, y) {
                    return false;
                }
            },
            _ => {
                return false;
            },
        }
        i += 1;
    }
    proof {
        assert forall|k: u64| #[trigger] a@.contains_key(k) implies b@.contains_key(k) && b@[k] == a@[k] by {
            assert(keys@.to_set().contains(k));
            let j = choose|j: int| 0 <= j < keys@.len() && keys@[j] == k;
            assert(b@.contains_key(keys@[j]));
        }
        lemma_same_map(a@, b@);
    }
    true
}

/// Whether two node maps are equal.
fn same_nodes(a: &HashMap<u64, BranchNode>, b: &HashMap<u64, BranchNode>) -> (same: bool)
    ensures
        same == (a@ == b@),
{
    broadcast use vstd::std_specs::hash::group_hash_axioms;

    let keys = map_keys(a);
    let others = map_keys(b);
    if keys.len() != others.len() {
        return false;
    }
    let mut i: usize = 0;
    while i < keys.len()
        invariant
            i <= keys@.len(),
            keys@.to_set() == a@.dom(),
            forall|j: int|
                0 <= j < i ==> b@.contains_key(#[trigger] keys@[j]) && b@[keys@[j]] == a@[keys@[j]],
        decreases keys@.len() - i,
    {
        let k: u64 = keys[i];
        assert(keys@.to_set().contains(k));
        match (a.get(&k), b.get(&k)) {
            (Some(x), Some(y)) => {
                if x.left != y.left || x.right != y.right || !same_id(&x.hash, &y.hash) {
                    return false;
                }
            },
            _ => {
                return false;
            },
        }
        i += 1;
    }
    proof {
        assert forall|k: u64| #[trigger] a@.contains_key(k) implies b@.contains_key(k) && b@[k] == a@[k] by {
            assert(keys@.to_set().contains(k));
            let j = choose|j: int| 0 <= j < keys@.len() && keys@[j] == k;
            assert(b@.contains_key(keys@[j]));
        }
        lemma_same_map(a@, b@);
    }
    true
}

/// Whether two lists of digests are equal.
pub fn same_digests(a: &Vec<Digest>, b: &Vec<Digest>) -> (same: bool)
    ensures
        same == (a@ == b@),
{
    if a.len() != b.len() {
        return false;
    }
    let mut i: usize = 0;
    while i < a.len()
        invariant
            i <= a@.len(),
            a@.len() == b@.len(),
            forall|j: int| 0 <= j < i ==> a@[j] == b@[j],
        decreases a@.len() - i,
    {
        if !same_id(&a[i], &b[i]) {
            return false;
        }
        i += 1;
    }
    assert(a@ =~= b@);
    true
}

/// Whether two bucket maps hold the same buckets.
fn same_buckets(a: &HashMap<u64, Vec<Digest>>, b: &HashMap<u64, Vec<Digest>>) -> (same: bool)
    ensures
        same == (a@.map_values(|v: Vec<Digest>| v@) == b@.map_values(|v: Vec<Digest>| v@)),
{
    broadcast use vstd::std_specs::hash::group_hash_axioms;

    let ghost am = a@.map_values(|v: Vec<Digest>| v@);
    let ghost bm = b@.map_values(|v: Vec<Digest>| v@);
    proof {
        assert(am.dom() =~= a@.dom());
        assert(bm.dom() =~= b@.dom());
    }
    let keys = map_keys(a);
    let others = map_keys(b);
    if keys.len() != others.len() {
        return false;
    }
    let mut i: usize = 0;
    while i < keys.len()
        invariant
            i <= keys@.len(),
            keys@.to_set() == a@.dom(),
            am == a@.map_values(|v: Vec<Digest>| v@),
            bm == b@.map_values(|v: Vec<Digest>| v@),
            forall|j: int|
                0 <= j < i ==> bm.contains_key(#[trigger] keys@[j]) && bm[keys@[j]] == am[keys@[j]],
        decreases keys@.len() - i,
    {
        let k: u64 = keys[i];
        assert(keys@.to_set().contains(k));
        assert(am.contains_key(k));
        match (a.get(&k), b.get(&k)) {
            (Some(x), Some(y)) => {
                assert(am[k] == x@ && bm[k] == y@);
                if !same_digests(x, y) {
                    return false;
                }
            },
            _ => {
                assert(!bm.contains_key(k));
                return false;
            },
        }
        i += 1;
    }
    proof {
        assert forall|k: u64| #[trigger] am.contains_key(k) implies bm.contains_key(k) && bm[k] == am[k] by {
            assert(keys@.to_set().contains(k));
            let j = choose|j: int| 0 <= j < keys@.len() && keys@[j] == k;
            assert(bm.contains_key(keys@[j]));
        }
        lemma_same_map(am, bm);
    }
    true
}

impl Clone for Smt {
    fn clone(&self) -> (copy: Self)
        ensures
            copy@ == self@,
            self.wf() ==> copy.wf(),
            copy.touched_nodes() == self.touched_nodes(),
            copy.touched_leaves() == self.touched_leaves(),
    {
        let copy = Smt {
            leaves: self.leaves.clone(),
            buckets: self.buckets.clone(),
            nodes: self.nodes.clone(),
            root_child: self.root_child,
            root_hash: self.root_hash,
            dirty_nodes: self.dirty_nodes.clone(),
            dirty_leaves: self.dirty_leaves.clone(),
            empties: copy_digests(&self.empties),
        };
        proof {
            assert(copy.dirty_nodes@ =~= self.dirty_nodes@);
            assert(copy.dirty_leaves@ =~= self.dirty_leaves@);
        }
        copy
    }
}

/// Content equality: the touched positions and keys do not count.
impl PartialEq for Smt {
    fn eq(&self, other: &Self) -> (same: bool) {
        let same_root: bool = match (self.root_hash, other.root_hash) {
            (Some(a), Some(b)) => same_id(&a, &b),
            (None, None) => true,
            _ => false,
        };
        self.root_child == other.root_child && same_root && same_leaves(&self.leaves, &other.leaves)
            && same_buckets(&self.buckets, &other.buckets) && same_nodes(&self.nodes, &other.nodes)
    }
}

impl vstd::std_specs::cmp::PartialEqSpecImpl for Smt {
    open spec fn obeys_eq_spec() -> bool {
        true
    }

    open spec fn eq_spec(&self, other: &Self) -> bool {
        &&& self.stored_root() == other.stored_root()
        &&& self.stored_leaves() == other.stored_leaves()
        &&& self.stored_buckets() == other.stored_buckets()
        &&& self.stored_nodes() == other.stored_nodes()
    }
}

// ---- Laws -------------------------------------------------------------

/// Adding entries commutes: the content, and with it every hash, does not
/// depend on the order.
pub proof fn law_insert_order_independent(m: Leaves, k1: u64, l1: Digest, k2: u64, l2: Digest)
    ensures
        with_leaf(with_leaf(m, k1, l1), k2, l2) == with_leaf(with_leaf(m, k2, l2), k1, l1),
        smt_root(with_leaf(with_leaf(m, k1, l1), k2, l2)) == smt_root(
            with_leaf(with_leaf(m, k2, l2), k1, l1),
        ),
{
    let a = with_leaf(with_leaf(m, k1, l1), k2, l2);
    let b = with_leaf(with_leaf(m, k2, l2), k1, l1);
    assert forall|k: u64| a.contains_key(k) implies b.contains_key(k) && a[k] == b[k] by {
        assert(a[k] =~= b[k]);
    }
    assert(a =~= b);
}

/// Adding a leaf that is there changes nothing.
pub proof fn law_insert_idempotent(m: Leaves, key: u64, leaf: Digest)
    ensures
        with_leaf(with_leaf(m, key, leaf), key, leaf) == with_leaf(m, key, leaf),
{
    let a = with_leaf(m, key, leaf);
    assert(a[key].insert(leaf) =~= a[key]);
    assert(with_leaf(a, key, leaf) =~= a);
}

/// Taking away what was just added gives the old content and root back.
pub proof fn law_remove_undoes_insert(m: Leaves, key: u64, leaf: Digest)
    requires
        leaves_wf(m),
        !(m.contains_key(key) && m[key].contains(leaf)),
    ensures
        without_leaf(with_leaf(m, key, leaf), key, leaf) == m,
        smt_root(without_leaf(with_leaf(m, key, leaf), key, leaf)) == smt_root(m),
{
    let a = with_leaf(m, key, leaf);
    if m.contains_key(key) {
        assert(a[key].remove(leaf) =~= m[key]);
        assert(m[key] != Set::<Digest>::empty());
    } else {
        assert(a[key].remove(leaf) =~= Set::empty());
    }
    assert(without_leaf(a, key, leaf) =~= m);
}

/// Adding back what was just taken away gives the old content and root back.
pub proof fn law_insert_undoes_remove(m: Leaves, key: u64, leaf: Digest)
    requires
        m.contains_key(key) && m[key].contains(leaf),
    ensures
        with_leaf(without_leaf(m, key, leaf), key, leaf) == m,
        smt_root(with_leaf(without_leaf(m, key, leaf), key, leaf)) == smt_root(m),
{
    let a = without_leaf(m, key, leaf);
    let b = with_leaf(a, key, leaf);
    if m[key].remove(leaf) =~= Set::empty() {
        assert(set![leaf] =~= m[key]) by {
            assert forall|x: Digest| m[key].contains(x) implies x == leaf by {
                if x != leaf {
                    assert(m[key].remove(leaf).contains(x));
                }
            }
        }
    } else {
        assert(m[key].remove(leaf).insert(leaf) =~= m[key]);
    }
    assert(b =~= m);
}

/// Two trees with the same content store the same thing: leaves, buckets,
/// branch points and root are functions of the content alone.
pub proof fn law_shape_is_a_function_of_content(a: Smt, b: Smt)
    requires
        a.wf(),
        b.wf(),
        a@ == b@,
    ensures
        a.stored_nodes() == b.stored_nodes(),
        a.stored_root() == b.stored_root(),
        a.stored_leaves() == b.stored_leaves(),
        a.stored_buckets() == b.stored_buckets(),
{
    let keys = a@.dom();
    assert forall|id: u64| a.nodes@.contains_key(id) == b.nodes@.contains_key(id) by {
        assert(a.nodes@.contains_key(id) <==> branch_id(keys, id));
        assert(b.nodes@.contains_key(id) <==> branch_id(keys, id));
    }
    assert(a.nodes@ =~= b.nodes@);
    if a@ == Leaves::empty() {
        assert(keys =~= Set::empty());
    }
    assert forall|k: u64| #[trigger] a.leaves@.contains_key(k) implies b.leaves@.contains_key(k) && a.leaves@[k]
        == b.leaves@[k] by {
        lemma_single_or_bucket(a, b, k);
    }
    assert forall|k: u64| #[trigger] b.leaves@.contains_key(k) implies a.leaves@.contains_key(k) && a.leaves@[k]
        == b.leaves@[k] by {
        lemma_single_or_bucket(b, a, k);
    }
    assert(a.leaves@ =~= b.leaves@);
    assert forall|k: u64| #[trigger] a.stored_buckets().contains_key(k) implies b.stored_buckets().contains_key(k)
        && a.stored_buckets()[k] == b.stored_buckets()[k] by {
        assert(a@.contains_key(k));
        assert(b@.contains_key(k));
        assert(!a.leaves@.contains_key(k));
        if b.leaves@.contains_key(k) {
            lemma_single_or_bucket(b, a, k);
        }
        assert(a@[k] == a.buckets@[k]@.to_set());
        assert(b@[k] == b.buckets@[k]@.to_set());
        lemma_ascending_unique(a.buckets@[k]@, b.buckets@[k]@);
    }
    assert forall|k: u64| #[trigger] b.stored_buckets().contains_key(k) implies a.stored_buckets().contains_key(k) by {
        assert(b@.contains_key(k));
        assert(a@.contains_key(k));
        assert(!b.leaves@.contains_key(k));
    }
    assert(a.stored_buckets() =~= b.stored_buckets());
}

proof fn lemma_single_or_bucket(a: Smt, b: Smt, k: u64)
    requires
        a.wf(),
        b.wf(),
        a@ == b@,
        a.leaves@.contains_key(k),
    ensures
        b.leaves@.contains_key(k),
        a.leaves@[k] == b.leaves@[k],
{
    let h = a.leaves@[k];
    assert(a@.contains_key(k) && a@[k] == set![h]);
    assert(b@.contains_key(k));
    if b.buckets@.contains_key(k) {
        let q = b.buckets@[k]@;
        assert(q.to_set() == set![h]);
        assert(q.to_set().contains(q[0]) && q.to_set().contains(q[1])) by {
            assert(q.contains(q[0]) && q.contains(q[1]));
        }
        assert(ordinal(q[0]) < ordinal(q[1]));
        assert(false);
    }
    assert(set![b.leaves@[k]].contains(b.leaves@[k]));
}

/// A tree into which everything that another one stores was imported is in
/// order and has the same content.
pub proof fn law_restored_tree_is_the_tree(source: Smt, restored: Smt)
    requires
        source.wf(),
        restored.importing(),
        restored.stored_nodes() == source.stored_nodes(),
        restored.stored_root() == source.stored_root(),
        restored.stored_leaves() == source.stored_leaves(),
        restored.stored_buckets() == source.stored_buckets(),
    ensures
        restored.wf(),
        restored@ == source@,
{
    let a = source.stored_buckets();
    let b = restored.stored_buckets();
    assert forall|k: u64| restored.buckets@.contains_key(k) == source.buckets@.contains_key(k) by {
        assert(a.contains_key(k) == source.buckets@.contains_key(k));
        assert(b.contains_key(k) == restored.buckets@.contains_key(k));
    }
    assert forall|k: u64| restored.buckets@.contains_key(k) implies restored.buckets@[k]@
        == source.buckets@[k]@ by {
        assert(a[k] == source.buckets@[k]@);
        assert(b[k] == restored.buckets@[k]@);
    }
    assert(restored.buckets@.dom() =~= source.buckets@.dom());
    assert(restored@ =~= source@);
}

/// The content of a tree has 40-bit keys with at least one leaf under each.
pub proof fn law_content_wf(tree: Smt)
    requires
        tree.wf(),
    ensures
        leaves_wf(tree@),
        tree@.dom().finite(),
{
    assert forall|k: u64| #[trigger] tree@.contains_key(k) implies k < 0x100_0000_0000 && tree@[k].finite()
        && tree@[k].len() > 0 by {
        if tree.buckets@.contains_key(k) {
            lemma_ascending_len(tree.buckets@[k]@);
        }
    }
}

} // verus!

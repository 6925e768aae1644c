use scone::digest::hash256;
use scone::smt::{
    bucket_merkle_root, chain, chain_key, defaults, divergence_depth, empty_leaf, is_chain, is_node, node_hash,
    node_packed, node_ref, pack, smt_key, unpack, Smt, MAX_DEPTH, SMT_EMPTY_LEAF_TAG, SMT_NODE_TAG,
};
use std::collections::HashMap;

fn h(i: u64) -> [u8; 32] {
    hash256(&i.to_le_bytes().to_vec())
}

/// Determinism: the same leaf set yields the same root regardless of
/// insertion order (and after removals/reinsertions).
#[test]
fn root_is_order_independent() {
    let mut a = Smt::new();
    for k in 0..100u64 {
        a.insert(k * 7919 % 128, h(k));
    }
    let mut b = Smt::new();
    for k in (0..100u64).rev() {
        b.insert(k * 7919 % 128, h(k));
    }
    assert_eq!(a.root(), b.root());
    // removal + reinsertion: same root
    b.remove(0, &h(0));
    assert_ne!(a.root(), b.root());
    b.insert(0, h(0));
    assert_eq!(a.root(), b.root());
}

/// Empty tree: root = max-depth default, len 0.
#[test]
fn empty_root_is_pinned() {
    let s = Smt::new();
    assert!(s.is_empty());
    assert_eq!(s.root(), defaults()[MAX_DEPTH as usize]);
    assert_eq!(s.len(), 0);
}

/// Distinct content, distinct roots (one leaf is enough).
#[test]
fn distinct_content_distinct_roots() {
    let mut a = Smt::new();
    let mut b = Smt::new();
    a.insert(42, h(1));
    b.insert(43, h(1)); // other key
    assert_ne!(a.root(), b.root());
    b.remove(43, &h(1));
    b.insert(42, h(2)); // same key, other leaf
    assert_ne!(a.root(), b.root());
}

/// Collision buckets: two entries under the same key commit both (the
/// root changes for each) and sorting makes them deterministic.
#[test]
fn collision_buckets_commit_all_entries() {
    let mut s = Smt::new();
    s.insert(7, h(1));
    let r1 = s.root();
    s.insert(7, h(2));
    assert_eq!(s.len(), 2);
    assert_ne!(s.root(), r1);
    // reversed order: same root
    let mut t = Smt::new();
    t.insert(7, h(2));
    t.insert(7, h(1));
    assert_eq!(s.root(), t.root());
}

/// In-place update: replacing a leaf = remove + insert.
#[test]
fn update_replaces_leaf() {
    let mut s = Smt::new();
    s.insert(9, h(1));
    let r_before = s.root();
    s.remove(9, &h(1));
    s.insert(9, h(2));
    assert_ne!(s.root(), r_before);
    assert_eq!(s.len(), 1);
    // back to the initial state: same root
    s.remove(9, &h(2));
    s.insert(9, h(1));
    assert_eq!(s.root(), r_before);
}

/// smt_key: top 40 bits, stable.
#[test]
fn smt_key_uses_top_40_bits() {
    let mut id = [0u8; 32];
    id[0] = 0xFF;
    id[4] = 0x01;
    let expected = u64::from_be_bytes([0xFF, 0, 0, 0, 0x01, 0, 0, 0]) >> 24;
    assert_eq!(smt_key(&id), expected);
    // bits beyond the 40th change nothing
    let a = smt_key(&id);
    id[5] = 0xFF;
    id[6] = 0xFF;
    assert_eq!(smt_key(&id), a);
}

/// Root of the full tree, folded from the leaves: partition on the bit at
/// `depth` (0 = left, 1 = right).
fn naive(depth: u64, prefix: u64, keys: &[u64], leaf: &dyn Fn(u64) -> [u8; 32]) -> [u8; 32] {
    if depth == MAX_DEPTH {
        return if keys.contains(&prefix) { leaf(prefix) } else { empty_leaf() };
    }
    let (l, r): (Vec<u64>, Vec<u64>) = keys.iter().partition(|k| (*k >> (MAX_DEPTH - depth - 1)) & 1 == 0);
    let lh = if l.is_empty() {
        defaults()[(MAX_DEPTH - depth - 1) as usize]
    } else {
        naive(depth + 1, prefix << 1, &l, leaf)
    };
    let rh = if r.is_empty() {
        defaults()[(MAX_DEPTH - depth - 1) as usize]
    } else {
        naive(depth + 1, prefix << 1 | 1, &r, leaf)
    };
    node_hash(&lh, &rh)
}

/// Implicit chains: nearby keys (long shared prefix) create only one
/// branch point, and the root is exactly that of a naive computation
/// folding the defaults.
#[test]
fn compact_chains_match_naive_root() {
    // Three keys sharing 38 bits of prefix: 2 branch points.
    let keys = [1u64 << 2, 1u64 << 2 | 1, 1u64 << 1];
    let mut s = Smt::new();
    for (i, k) in keys.iter().enumerate() {
        s.insert(*k, h(i as u64));
    }
    assert_eq!(s.len(), 3);
    let leaf = |k: u64| -> [u8; 32] {
        keys.iter().position(|x| *x == k).map(|i| h(i as u64)).unwrap_or_else(empty_leaf)
    };
    assert_eq!(s.root(), naive(0, 0, &keys, &leaf));
}

/// Compact trie: N leaves give N-1 branch points (only divergence
/// points, never the chain nodes).
#[test]
fn node_count_equals_branch_points() {
    let mut s = Smt::new();
    s.insert(1 << 5, h(1));
    assert_eq!(s.node_count(), 0); // single leaf: chain only
    s.insert((1 << 5) | 1, h(2));
    assert_eq!(s.node_count(), 1);
    s.insert(1 << 6, h(3));
    assert_eq!(s.node_count(), 2);
    for i in 0..64u64 {
        s.insert(1 << 20 | i, h(20 + i));
    }
    // 64 consecutive keys in a subtree: 63 branch points inside, one
    // above (already counted), one attaching that subtree.
    assert_eq!(s.node_count(), 2 + 63 + 1);
}

/// Collapse: removing one of the two leaves of a branch removes the
/// branch point (node_count decreases).
#[test]
fn remove_collapses_branch_points() {
    let mut s = Smt::new();
    s.insert(1 << 5, h(1));
    s.insert((1 << 5) | 1, h(2));
    assert_eq!(s.node_count(), 1);
    s.remove((1 << 5) | 1, &h(2));
    assert_eq!(s.node_count(), 0);
    // the remaining leaf alone: root = folded chain
    let mut t = Smt::new();
    t.insert(1 << 5, h(1));
    assert_eq!(s.root(), t.root());
    // and full removal is back to the empty tree
    s.remove(1 << 5, &h(1));
    assert_eq!(s.root(), defaults()[MAX_DEPTH as usize]);
    assert_eq!(s.node_count(), 0);
}

/// High divergence: an insertion whose key diverges from a referenced
/// subtree before the depth of its node (intermediate chain).
#[test]
fn insertion_above_referenced_node() {
    let near = 1u64 << 39;
    let far = (1u64 << 39) | 12345;
    let mut s = Smt::new();
    s.insert(near, h(1));
    s.insert(far, h(2));
    let mut t = Smt::new();
    t.insert(near, h(1));
    t.insert(far, h(2));
    assert_eq!(s.root(), t.root());
    // canonical structure: 1 single branch point for 2 leaves
    assert_eq!(s.node_count(), 1);
}

/// Persistence: export, fresh import, same root and same later operations.
#[test]
fn snapshot_restore_roundtrip() {
    let mut s = Smt::new();
    for k in 0..500u64 {
        s.insert(k.wrapping_mul(0x9E3779B97F4A7C15) >> 24, h(k));
    }
    s.insert(7, h(1000)); // collision bucket
    let mut t = Smt::new();
    for (packed, n) in s.iter_branch_nodes() {
        t.restore_branch_node(packed, n);
    }
    for k in s.iter_leaf_keys() {
        let (h1, b) = s.leaf_entry(k).expect("leaf");
        t.restore_leaf(k, h1, b);
    }
    let (rc, rh) = s.root_state();
    t.restore_root(rc, rh);
    assert_eq!(s.root(), t.root());
    assert_eq!(s.len(), t.len());
    assert_eq!(s.node_count(), t.node_count());
    // both trees then evolve identically
    s.insert(999_999, h(42));
    t.insert(999_999, h(42));
    assert_eq!(s.root(), t.root());
}

/// Dirty tracking: touched node paths and leaf keys accumulate until
/// `take_dirty` drains them; a no-op insert touches nothing.
#[test]
fn take_dirty_drains_and_resets() {
    let mut s = Smt::new();
    s.insert(1, h(1));
    s.insert(2, h(2));
    let (nodes, leaves) = s.take_dirty();
    assert_eq!(leaves.len(), 2);
    assert!(!nodes.is_empty()); // branch point between keys 1 and 2
    let (nodes2, leaves2) = s.take_dirty();
    assert!(nodes2.is_empty() && leaves2.is_empty());
    // idempotent insert: nothing dirty
    s.insert(1, h(1));
    let (n3, l3) = s.take_dirty();
    assert!(n3.is_empty() && l3.is_empty());
    // removal dirties the leaf key
    s.remove(1, &h(1));
    let (n4, l4) = s.take_dirty();
    assert_eq!(l4, vec![1]);
    assert!(!n4.is_empty() || s.node_count() == 0); // collapse may empty it
}

fn tagged(tag: &[u8], parts: &[&[u8; 32]]) -> [u8; 32] {
    let mut b = tag.to_vec();
    for p in parts {
        b.extend_from_slice(*p);
    }
    hash256(&b)
}

/// Flat tree: every node of every level stored, no compaction.
struct FlatSmt {
    leaves: HashMap<u64, [u8; 32]>,
    buckets: HashMap<u64, Vec<[u8; 32]>>,
    nodes: HashMap<(u64, u64), [u8; 32]>,
    defs: Vec<[u8; 32]>,
}

impl FlatSmt {
    fn new() -> Self {
        let mut defs = vec![tagged(&SMT_EMPTY_LEAF_TAG, &[])];
        for i in 1..=MAX_DEPTH as usize {
            let below = defs[i - 1];
            defs.push(tagged(&SMT_NODE_TAG, &[&below, &below]));
        }
        FlatSmt { leaves: HashMap::new(), buckets: HashMap::new(), nodes: HashMap::new(), defs }
    }
    fn bucket_root(&self, key: u64) -> [u8; 32] {
        if let Some(v) = self.buckets.get(&key) {
            return bucket_merkle_root(v);
        }
        match self.leaves.get(&key) {
            None => self.defs[0],
            Some(h) => *h,
        }
    }
    fn insert(&mut self, key: u64, leaf: [u8; 32]) {
        let touched = if let Some(v) = self.buckets.get_mut(&key) {
            match v.binary_search(&leaf) {
                Ok(_) => false,
                Err(pos) => {
                    v.insert(pos, leaf);
                    true
                }
            }
        } else {
            match self.leaves.get(&key) {
                Some(h) if *h == leaf => false,
                Some(h) => {
                    let mut v = vec![*h, leaf];
                    v.sort_unstable();
                    self.buckets.insert(key, v);
                    self.leaves.remove(&key);
                    true
                }
                None => {
                    self.leaves.insert(key, leaf);
                    true
                }
            }
        };
        if touched {
            self.recompute_path_key(key);
        }
    }
    fn recompute_path_key(&mut self, key: u64) {
        let mut cur = self.bucket_root(key);
        for d in (0..=MAX_DEPTH).rev() {
            let path = key >> (MAX_DEPTH - d);
            if cur == self.defs[(MAX_DEPTH - d) as usize] {
                self.nodes.remove(&(d, path));
            } else {
                self.nodes.insert((d, path), cur);
            }
            if d == 0 {
                break;
            }
            let sib = self.nodes.get(&(d, path ^ 1)).copied().unwrap_or(self.defs[(MAX_DEPTH - d) as usize]);
            let (left, right) = if path & 1 == 0 { (cur, sib) } else { (sib, cur) };
            cur = tagged(&SMT_NODE_TAG, &[&left, &right]);
        }
    }
    fn remove(&mut self, key: u64, leaf: &[u8; 32]) {
        let mut touched = false;
        if let Some(v) = self.buckets.get_mut(&key) {
            if let Ok(pos) = v.binary_search(leaf) {
                v.remove(pos);
                touched = true;
                if v.len() <= 1 {
                    let rest = v.pop();
                    self.buckets.remove(&key);
                    if let Some(h) = rest {
                        self.leaves.insert(key, h);
                    }
                }
            }
        } else if self.leaves.get(&key) == Some(leaf) {
            self.leaves.remove(&key);
            touched = true;
        }
        if touched {
            self.recompute_path_key(key);
        }
    }
    fn len(&self) -> usize {
        self.leaves.len() + self.buckets.values().map(Vec::len).sum::<usize>()
    }
    fn root(&self) -> [u8; 32] {
        self.nodes.get(&(0, 0)).copied().unwrap_or(self.defs[MAX_DEPTH as usize])
    }
}

struct Rng(u64);

impl Rng {
    fn next(&mut self) -> u64 {
        let mut x = self.0;
        x ^= x << 13;
        x ^= x >> 7;
        x ^= x << 17;
        self.0 = x;
        x
    }
}

/// Differential fuzz: compact `Smt` against the flat tree, seeded random
/// operations: the roots must stay identical after every operation.
#[test]
fn differential_fuzz() {
    for &seed in &[1u64, 2, 3, 7, 42, 1337, 20260910] {
        let mut rng = Rng(seed);
        let universe: u64 = 1 << 32;
        let mut new = Smt::new();
        let mut old = FlatSmt::new();
        let mut live: Vec<(u64, u64)> = vec![];
        for step in 0..20000 {
            let key = rng.next() % universe;
            let (ins, k, l) = if rng.next() % 3 == 0 || live.is_empty() {
                let leaf = rng.next() % 8;
                live.push((key, leaf));
                (true, key, leaf)
            } else {
                let i = (rng.next() as usize) % live.len();
                let (k, l) = live[i];
                live.remove(i);
                (false, k, l)
            };
            if ins {
                new.insert(k, h(l));
                old.insert(k, h(l));
            } else {
                new.remove(k, &h(l));
                old.remove(k, &h(l));
            }
            assert_eq!(new.root(), old.root(), "divergence seed={seed} step={step} insert={ins} key={k} leaf={l}");
            assert_eq!(new.len(), old.len());
        }
    }
}

/// Two trees of the same content are equal, whatever their history.
#[test]
fn equality_is_by_content() {
    let mut a = Smt::new();
    let mut b = Smt::new();
    for k in 0..20u64 {
        a.insert(k, h(k));
    }
    for k in (0..25u64).rev() {
        b.insert(k, h(k));
    }
    assert!(a != b);
    for k in 20..25u64 {
        b.remove(k, &h(k));
    }
    assert!(a == b);
}

/// Removing an absent leaf changes nothing.
#[test]
fn removing_an_absent_leaf_is_a_no_op() {
    let mut s = Smt::new();
    s.insert(5, h(1));
    let before = s.root();
    s.remove(5, &h(2));
    s.remove(6, &h(1));
    assert_eq!(s.root(), before);
    assert_eq!(s.len(), 1);
}

/// Exact values of the slot encodings.
#[test]
fn slot_encodings() {
    assert!(is_chain(chain(77)) && !is_node(chain(77)));
    assert_eq!(chain_key(chain(77)), 77);
    let id = pack(12, 0xabc);
    assert_eq!(unpack(id), (12, 0xabc));
    assert!(is_node(node_ref(id)) && !is_chain(node_ref(id)));
    assert_eq!(node_packed(node_ref(id)), id);
    assert_eq!(divergence_depth(0, 1), 39);
    assert_eq!(divergence_depth(0, 1 << 39), 0);
}

/// The documented hashes, from the bytes.
#[test]
fn node_and_empty_leaf_formulas() {
    assert_eq!(SMT_NODE_TAG.to_vec(), b"SCONE-SMT-NODE".to_vec());
    assert_eq!(SMT_EMPTY_LEAF_TAG.to_vec(), b"SCONE-SMT-LEAF-EMPTY".to_vec());
    assert_eq!(empty_leaf(), tagged(b"SCONE-SMT-LEAF-EMPTY", &[]));
    assert_eq!(node_hash(&h(1), &h(2)), tagged(b"SCONE-SMT-NODE", &[&h(1), &h(2)]));
    assert_eq!(defaults().len(), 41);
    assert_eq!(defaults()[0], empty_leaf());
    assert_eq!(defaults()[1], node_hash(&empty_leaf(), &empty_leaf()));
}

/// A branch point stands where two held keys part, and nowhere else; the
/// length is the sum over the keys.
#[test]
fn branch_points_and_length_follow_the_keys() {
    let mut s = Smt::new();
    let keys = [0b0001u64, 0b0011, 0b1000, 1 << 39, (1 << 39) | 5];
    for (i, k) in keys.iter().enumerate() {
        s.insert(*k, h(i as u64));
    }
    s.insert(0b1000, h(77)); // a second leaf under one key
    for d in 0..40u64 {
        let prefixes: Vec<u64> = keys.iter().map(|k| k >> (40 - d)).collect();
        for &q in &prefixes {
            let below: Vec<u64> =
                keys.iter().filter(|k| *k >> (40 - d) == q).map(|k| (k >> (39 - d)) & 1).collect();
            let parts = below.contains(&0) && below.contains(&1);
            let stored = s.branch_node(d << 40 | q);
            assert_eq!(stored.is_some(), parts, "depth {d}, prefix {q}");
            if let Some(n) = stored {
                assert!(n.left != 0 && n.right != 0);
            }
        }
    }
    let listed = s.iter_branch_nodes();
    assert_eq!(listed.len(), s.node_count());
    assert_eq!(listed.len(), keys.len() - 1);
    let total: usize =
        s.iter_leaf_keys().iter().map(|k| s.leaf_entry(*k).unwrap().1.map_or(1, |v| v.len())).sum();
    assert_eq!(s.len(), total);
    assert_eq!(s.len(), 6);
}

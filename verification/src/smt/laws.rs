//! What a tree stores, in terms of its content: branch points, leaves, their
//! number, and the way through an export and an import.
use vstd::prelude::*;
use crate::ids::Digest;
use crate::smt::BranchNode;
use crate::smt::LeafEntry;
use crate::smt::Smt;
use crate::smt::entries;
use crate::smt::entries_upto;
use crate::smt::law_content_wf;
use crate::smt::law_restored_tree_is_the_tree;
use crate::smt::law_shape_is_a_function_of_content;
use crate::smt::lemma_pairs_of;
use crate::smt::pairs_of;
use crate::smt_model::Leaves;
use crate::smt_model::id_depth;
use crate::smt_model::id_prefix;
use crate::smt_model::is_branch;
use crate::smt_model::lemma_children;
use crate::smt_model::lemma_key_fills;
use crate::smt_model::lemma_low_bit;
use crate::smt_model::lemma_position_range;
use crate::smt_model::lemma_prefix;
use crate::smt_model::lemma_shift;
use crate::smt_model::lemma_sorted_members;
use crate::smt_model::packed;
use crate::smt_model::position;
use crate::smt_model::prefix;
use crate::smt_model::slot;
use crate::smt_model::sorted_members;
use crate::smt_model::subtree;
use crate::smt_model::with_leaf;
use crate::smt_model::without_leaf;

verus! {

/// Whether two held keys part below the `d`-bit prefix `q`: one goes on with
/// a zero bit, the other with a one.
pub open spec fn parts_at(keys: Set<u64>, d: u64, q: u64) -> bool {
    d < 40 && exists|a: u64, b: u64|
        {
            &&& #[trigger] keys.contains(a)
            &&& #[trigger] keys.contains(b)
            &&& a >> ((40 - d) as u64) == q
            &&& b >> ((40 - d) as u64) == q
            &&& (a >> ((39 - d) as u64)) & 1 == 0
            &&& (b >> ((39 - d) as u64)) & 1 == 1
        }
}

/// A filled slot stands over a key.
proof fn lemma_slot_has_key(keys: Set<u64>, d: int, p: int) -> (key: u64)
    requires
        position(d, p),
        slot(keys, d, p) != 0,
    ensures
        keys.contains(key),
        key < 0x100_0000_0000,
        prefix(key, d) == p,
    decreases 40 - d,
{
    lemma_position_range(d, p);
    if d >= 40 {
        let key = p as u64;
        lemma_prefix(key, 40);
        key
    } else {
        lemma_children(d, p);
        let key = if slot(keys, d + 1, 2 * p) != 0 {
            lemma_slot_has_key(keys, d + 1, 2 * p)
        } else {
            lemma_slot_has_key(keys, d + 1, 2 * p + 1)
        };
        lemma_prefix(key, d);
        key
    }
}

/// A branch point stands exactly where two held keys part, whatever the
/// packed position, and each of its two sides is filled. Its hash is that of
/// the subtree.
pub proof fn law_branch_points_are_where_keys_part(tree: Smt, id: u64)
    requires
        tree.wf(),
    ensures
        tree.stored_nodes().contains_key(id) <==> parts_at(tree@.dom(), id >> 40, id & 0xff_ffff_ffff),
        tree.stored_nodes().contains_key(id) ==> {
            let n = tree.stored_nodes()[id];
            &&& n.left != 0
            &&& n.right != 0
            &&& n.hash == subtree(tree@, id_depth(id), id_prefix(id))
        },
{
    let keys = tree@.dom();
    let d = id >> 40;
    let q = id & 0xff_ffff_ffff;
    assert(id == ((id >> 40) << 40) | (id & 0xff_ffff_ffff)) by (bit_vector);
    assert(id == packed(id_depth(id), id_prefix(id)));
    if is_branch(keys, d as int, q as int) {
        lemma_children(d as int, q as int);
        let a = lemma_slot_has_key(keys, d + 1, 2 * q);
        let b = lemma_slot_has_key(keys, d + 1, 2 * q + 1);
        lemma_prefix(a, d as int);
        lemma_prefix(b, d as int);
        lemma_shift(a, 40 - d);
        lemma_shift(b, 40 - d);
        lemma_shift(a, 39 - d);
        lemma_shift(b, 39 - d);
        lemma_low_bit(a >> ((39 - d) as u64));
        lemma_low_bit(b >> ((39 - d) as u64));
        assert(keys.contains(a) && keys.contains(b));
    }
    if parts_at(keys, d, q) {
        let (a, b) = choose|a: u64, b: u64|
            {
                &&& #[trigger] keys.contains(a)
                &&& #[trigger] keys.contains(b)
                &&& a >> ((40 - d) as u64) == q
                &&& b >> ((40 - d) as u64) == q
                &&& (a >> ((39 - d) as u64)) & 1 == 0
                &&& (b >> ((39 - d) as u64)) & 1 == 1
            };
        assert(tree@.contains_key(a) && tree@.contains_key(b));
        lemma_prefix(a, d as int);
        lemma_prefix(b, d as int);
        lemma_shift(a, 40 - d);
        lemma_shift(b, 40 - d);
        lemma_shift(a, 39 - d);
        lemma_shift(b, 39 - d);
        lemma_low_bit(a >> ((39 - d) as u64));
        lemma_low_bit(b >> ((39 - d) as u64));
        lemma_key_fills(keys, a, d + 1);
        lemma_key_fills(keys, b, d + 1);
    }
}

/// A leaf or a bucket is stored under a key exactly if the content holds the
/// key, and never both; what is stored there is what the content holds.
pub proof fn law_stored_keys_are_the_held_keys(tree: Smt, key: u64)
    requires
        tree.wf(),
    ensures
        tree@.contains_key(key) <==> tree.stored_leaves().contains_key(key) || tree.stored_buckets().contains_key(key),
        !(tree.stored_leaves().contains_key(key) && tree.stored_buckets().contains_key(key)),
        tree.stored_leaves().contains_key(key) ==> tree@[key] == set![tree.stored_leaves()[key]],
        tree.stored_buckets().contains_key(key) ==> {
            let b = tree.stored_buckets()[key];
            b == sorted_members(tree@[key]) && b.len() >= 2 && tree@[key] == b.to_set()
        },
{
    if tree.buckets@.contains_key(key) {
        lemma_sorted_members(tree.buckets@[key]@);
    }
}

/// Number of leaves under some keys.
pub open spec fn leaves_under(m: Leaves, keys: Seq<u64>) -> nat
    decreases keys.len(),
{
    if keys.len() == 0 {
        0
    } else {
        leaves_under(m, keys.drop_last()) + m[keys.last()].len()
    }
}

/// The length of a tree is the sum of the leaf counts over its keys, however
/// these are listed; it is zero exactly for the empty tree.
pub proof fn law_len_is_the_sum_over_the_keys(tree: Smt, keys: Seq<u64>)
    requires
        tree.wf(),
        keys.no_duplicates(),
        keys.to_set() == tree@.dom(),
    ensures
        entries(tree@).finite(),
        entries(tree@).len() == leaves_under(tree@, keys),
        entries(tree@).len() == 0 <==> tree@ == Leaves::empty(),
{
    let m = tree@;
    law_content_wf(tree);
    assert forall|i: int| 0 <= i < keys.len() implies m.contains_key(#[trigger] keys[i]) by {
        assert(keys.to_set().contains(keys[i]));
    }
    lemma_sum_upto(m, keys);
    let all = entries_upto(m, keys, keys.len() as int);
    assert(all =~= entries(m)) by {
        assert forall|e: (u64, Digest)| entries(m).contains(e) implies all.contains(e) by {
            assert(keys.to_set().contains(e.0));
            let j = choose|j: int| 0 <= j < keys.len() && keys[j] == e.0;
            assert(keys[j] == e.0);
        }
    }
    if m == Leaves::empty() {
        assert(entries(m) =~= Set::empty());
    } else if entries(m).len() == 0 {
        assert forall|k: u64| !m.contains_key(k) by {
            if m.contains_key(k) {
                let l = m[k].choose();
                assert(entries(m).contains((k, l)));
            }
        }
        assert(m =~= Leaves::empty());
    }
}

/// The entries under listed keys number as many as their leaf counts sum to.
proof fn lemma_sum_upto(m: Leaves, keys: Seq<u64>)
    requires
        keys.no_duplicates(),
        forall|i: int| 0 <= i < keys.len() ==> m.contains_key(#[trigger] keys[i]) && m[keys[i]].finite(),
    ensures
        entries_upto(m, keys, keys.len() as int).finite(),
        entries_upto(m, keys, keys.len() as int).len() == leaves_under(m, keys),
    decreases keys.len(),
{
    let all = entries_upto(m, keys, keys.len() as int);
    if keys.len() == 0 {
        assert(all =~= Set::empty());
    } else {
        let rest = keys.drop_last();
        let k = keys.last();
        assert forall|i: int| 0 <= i < rest.len() implies m.contains_key(#[trigger] rest[i]) && m[rest[i]].finite() by {
            assert(rest[i] == keys[i]);
        }
        assert(m.contains_key(keys[keys.len() - 1]));
        lemma_sum_upto(m, rest);
        lemma_pairs_of(k, m[k]);
        let before = entries_upto(m, rest, rest.len() as int);
        let fresh = pairs_of(k, m[k]);
        assert forall|e: (u64, Digest)| all.contains(e) == (before.contains(e) || fresh.contains(e)) by {
            if all.contains(e) {
                let j = choose|j: int| 0 <= j < keys.len() && #[trigger] keys[j] == e.0;
                if j < rest.len() {
                    assert(rest[j] == e.0);
                }
            }
            if before.contains(e) {
                let j = choose|j: int| 0 <= j < rest.len() && #[trigger] rest[j] == e.0;
                assert(keys[j] == e.0);
            }
            if fresh.contains(e) {
                assert(keys[keys.len() - 1] == e.0);
            }
        }
        assert(all =~= before.union(fresh));
        assert forall|e: (u64, Digest)| !(before.contains(e) && fresh.contains(e)) by {
            if before.contains(e) && fresh.contains(e) {
                let j = choose|j: int| 0 <= j < rest.len() && #[trigger] rest[j] == e.0;
                assert(keys[j] != keys[keys.len() - 1]);
            }
        }
        assert(before.disjoint(fresh));
        vstd::set_lib::lemma_set_disjoint_lens(before, fresh);
    }
}

// ---- Export and import --------------------------------------------------

/// Branch points after an import of a list.
pub open spec fn imported_nodes(list: Seq<(u64, BranchNode)>) -> Map<u64, BranchNode>
    decreases list.len(),
{
    if list.len() == 0 {
        Map::empty()
    } else {
        imported_nodes(list.drop_last()).insert(list.last().0, list.last().1)
    }
}

/// Single leaves after an import of a list.
pub open spec fn imported_leaves(list: Seq<(u64, LeafEntry)>) -> Map<u64, Digest>
    decreases list.len(),
{
    if list.len() == 0 {
        Map::empty()
    } else {
        let rest = imported_leaves(list.drop_last());
        match list.last().1 {
            (h, None) => rest.insert(list.last().0, h),
            (_, Some(_)) => rest,
        }
    }
}

/// Buckets after an import of a list.
pub open spec fn imported_buckets(list: Seq<(u64, LeafEntry)>) -> Map<u64, Seq<Digest>>
    decreases list.len(),
{
    if list.len() == 0 {
        Map::empty()
    } else {
        let rest = imported_buckets(list.drop_last());
        match list.last().1 {
            (_, None) => rest,
            (_, Some(v)) => rest.insert(list.last().0, v@),
        }
    }
}

/// Whether an entry is what a tree stores under a key, as `leaf_entry` hands
/// it out.
pub open spec fn entry_of(tree: Smt, key: u64, entry: LeafEntry) -> bool {
    match entry {
        (h, None) => tree.stored_leaves().contains_key(key) && tree.stored_leaves()[key] == h,
        (_, Some(v)) => tree.stored_buckets().contains_key(key) && tree.stored_buckets()[key] == v@,
    }
}

/// Whether two lists are an export of a tree: its branch points, as
/// `iter_branch_nodes` hands them out, and the entry of each of its keys.
pub open spec fn is_export(tree: Smt, nodes: Seq<(u64, BranchNode)>, rows: Seq<(u64, LeafEntry)>) -> bool {
    &&& forall|i: int|
        0 <= i < nodes.len() ==> tree.stored_nodes().contains_key((#[trigger] nodes[i]).0)
            && tree.stored_nodes()[nodes[i].0] == nodes[i].1
    &&& forall|id: u64| #[trigger]
        tree.stored_nodes().contains_key(id) ==> exists|i: int| 0 <= i < nodes.len() && (#[trigger] nodes[i]).0 == id
    &&& forall|i: int| 0 <= i < rows.len() ==> entry_of(tree, (#[trigger] rows[i]).0, rows[i].1)
    &&& forall|k: u64| #[trigger]
        tree@.contains_key(k) ==> exists|i: int| 0 <= i < rows.len() && (#[trigger] rows[i]).0 == k
}

/// What is imported from a list of branch points is what it lists.
proof fn lemma_imported_nodes(tree: Smt, list: Seq<(u64, BranchNode)>)
    requires
        forall|i: int|
            0 <= i < list.len() ==> tree.stored_nodes().contains_key((#[trigger] list[i]).0)
                && tree.stored_nodes()[list[i].0] == list[i].1,
    ensures
        imported_nodes(list).submap_of(tree.stored_nodes()),
        forall|i: int| 0 <= i < list.len() ==> imported_nodes(list).contains_key((#[trigger] list[i]).0),
    decreases list.len(),
{
    if list.len() > 0 {
        let rest = list.drop_last();
        assert forall|i: int| 0 <= i < rest.len() implies tree.stored_nodes().contains_key((#[trigger] rest[i]).0)
            && tree.stored_nodes()[rest[i].0] == rest[i].1 by {
            assert(rest[i] == list[i]);
        }
        lemma_imported_nodes(tree, rest);
        assert(list[list.len() - 1] == list.last());
        assert forall|i: int| 0 <= i < list.len() implies imported_nodes(list).contains_key((#[trigger] list[i]).0) by {
            if i < rest.len() {
                assert(rest[i] == list[i]);
            }
        }
    }
}

/// What is imported from a list of entries is what it lists.
proof fn lemma_imported_entries(tree: Smt, list: Seq<(u64, LeafEntry)>)
    requires
        forall|i: int| 0 <= i < list.len() ==> entry_of(tree, (#[trigger] list[i]).0, list[i].1),
    ensures
        imported_leaves(list).submap_of(tree.stored_leaves()),
        imported_buckets(list).submap_of(tree.stored_buckets()),
        forall|i: int|
            0 <= i < list.len() ==> imported_leaves(list).contains_key((#[trigger] list[i]).0)
                || imported_buckets(list).contains_key(list[i].0),
    decreases list.len(),
{
    if list.len() > 0 {
        let rest = list.drop_last();
        assert forall|i: int| 0 <= i < rest.len() implies entry_of(tree, (#[trigger] rest[i]).0, rest[i].1) by {
            assert(rest[i] == list[i]);
        }
        lemma_imported_entries(tree, rest);
        assert(entry_of(tree, list[list.len() - 1].0, list[list.len() - 1].1));
        assert forall|i: int| 0 <= i < list.len() implies imported_leaves(list).contains_key((#[trigger] list[i]).0)
            || imported_buckets(list).contains_key(list[i].0) by {
            if i < rest.len() {
                assert(rest[i] == list[i]);
            }
        }
    }
}

/// Importing an export gives the tree back: a fresh tree into which the
/// exported branch points, entries and root were restored stores the same
/// thing, is in order and has the same content.
pub proof fn law_import_of_an_export_is_the_tree(
    source: Smt,
    nodes: Seq<(u64, BranchNode)>,
    rows: Seq<(u64, LeafEntry)>,
    restored: Smt,
)
    requires
        source.wf(),
        is_export(source, nodes, rows),
        restored.importing(),
        restored.stored_nodes() == imported_nodes(nodes),
        restored.stored_leaves() == imported_leaves(rows),
        restored.stored_buckets() == imported_buckets(rows),
        restored.stored_root() == source.stored_root(),
    ensures
        restored.wf(),
        restored@ == source@,
        restored.stored_nodes() == source.stored_nodes(),
        restored.stored_leaves() == source.stored_leaves(),
        restored.stored_buckets() == source.stored_buckets(),
{
    lemma_imported_nodes(source, nodes);
    lemma_imported_entries(source, rows);
    assert forall|id: u64| #[trigger] source.stored_nodes().contains_key(id) implies imported_nodes(
        nodes,
    ).contains_key(id) by {
        let i = choose|i: int| 0 <= i < nodes.len() && (#[trigger] nodes[i]).0 == id;
        assert(imported_nodes(nodes).contains_key(nodes[i].0));
    }
    assert(imported_nodes(nodes).dom() =~= source.stored_nodes().dom());
    assert(imported_nodes(nodes) =~= source.stored_nodes());
    assert forall|k: u64| #[trigger] source.stored_leaves().contains_key(k) implies imported_leaves(rows).contains_key(
        k,
    ) by {
        law_stored_keys_are_the_held_keys(source, k);
        let i = choose|i: int| 0 <= i < rows.len() && (#[trigger] rows[i]).0 == k;
        assert(imported_leaves(rows).contains_key(rows[i].0) || imported_buckets(rows).contains_key(rows[i].0));
    }
    assert forall|k: u64| #[trigger] source.stored_buckets().contains_key(k) implies imported_buckets(
        rows,
    ).contains_key(k) by {
        law_stored_keys_are_the_held_keys(source, k);
        let i = choose|i: int| 0 <= i < rows.len() && (#[trigger] rows[i]).0 == k;
        assert(imported_leaves(rows).contains_key(rows[i].0) || imported_buckets(rows).contains_key(rows[i].0));
    }
    assert(imported_leaves(rows) =~= source.stored_leaves());
    assert(imported_buckets(rows) =~= source.stored_buckets());
    law_restored_tree_is_the_tree(source, restored);
}

/// Trees with one content stay equal in all that they store when the same
/// leaf is added to both or taken from both.
pub proof fn law_equal_trees_stay_equal(a: Smt, b: Smt, key: u64, leaf: Digest, next_a: Smt, next_b: Smt)
    requires
        a@ == b@,
        next_a.wf(),
        next_b.wf(),
        (next_a@ == with_leaf(a@, key, leaf) && next_b@ == with_leaf(b@, key, leaf)) || (next_a@ == without_leaf(
            a@,
            key,
            leaf,
        ) && next_b@ == without_leaf(b@, key, leaf)),
    ensures
        next_a@ == next_b@,
        next_a.stored_nodes() == next_b.stored_nodes(),
        next_a.stored_root() == next_b.stored_root(),
        next_a.stored_leaves() == next_b.stored_leaves(),
        next_a.stored_buckets() == next_b.stored_buckets(),
{
    law_shape_is_a_function_of_content(next_a, next_b);
}

} // verus!

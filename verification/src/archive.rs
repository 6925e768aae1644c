//! The archive root: folds over the domains, the namespaces, the owners and
//! the bans.
use vstd::prelude::*;
use crate::digest::append_bytes;
use crate::digest::blake3_digest;
use crate::digest::hash256;
use crate::entry::Entry;
use crate::entry::entry_leaf;
use crate::fold::fold_hashes;
use crate::fold::fold_root;
use crate::ids::Digest;
use crate::ids::ascending;
use crate::smt_model::lemma_sorted_members;
use crate::smt_model::sorted_members;
use crate::state_laws::domains_in;
use crate::state_laws::tlds_in;
use crate::state_model::StateModel;

verus! {

/// Tag of a fold node: `SCONE-FOLD-V1`.
pub const FOLD_TAG: [u8; 13] = [83, 67, 79, 78, 69, 45, 70, 79, 76, 68, 45, 86, 49];

/// Tag of the archive root: `SCONE-STATE-V2`.
pub const STATE_V2_TAG: [u8; 14] = [83, 67, 79, 78, 69, 45, 83, 84, 65, 84, 69, 45, 86, 50];

/// Tag of an owner leaf: `SCONE-LEAF-OWN-V2`.
pub const OWNER_LEAF_TAG: [u8; 17] = [83, 67, 79, 78, 69, 45, 76, 69, 65, 70, 45, 79, 87, 78, 45, 86, 50];

/// Tag of a ban leaf: `SCONE-LEAF-BAN-V1`.
pub const BAN_LEAF_TAG: [u8; 17] = [83, 67, 79, 78, 69, 45, 76, 69, 65, 70, 45, 66, 65, 78, 45, 86, 49];

/// Leaf of one digest under a tag.
pub open spec fn tagged_leaf(tag: Seq<u8>, d: Digest) -> Digest {
    blake3_digest(tag + d@)
}

/// Leaves of the entries at some keys.
pub open spec fn leaves_at(keys: Seq<Digest>, entries: Map<Digest, Entry>) -> Seq<Digest> {
    keys.map_values(|k: Digest| entry_leaf(k, entries[k]))
}

/// Leaves of a list of digests under a tag.
pub open spec fn tagged_leaves(tag: Seq<u8>, list: Seq<Digest>) -> Seq<Digest> {
    list.map_values(|d: Digest| tagged_leaf(tag, d))
}

/// Root over a set of digests under a leaf tag, in ascending order.
pub open spec fn set_root(tag: Seq<u8>, s: Set<Digest>) -> Digest {
    fold_root(FOLD_TAG@, tagged_leaves(tag, sorted_members(s)))
}

/// Root over the entries at some ids, in ascending order of the ids.
pub open spec fn entries_root(keys: Set<Digest>, entries: Map<Digest, Entry>) -> Digest {
    fold_root(FOLD_TAG@, leaves_at(sorted_members(keys), entries))
}

/// The archive root of a state: the root of its domains, that of its
/// namespaces, that of the owners of live registrations and that of the
/// banned keys.
pub open spec fn archive_root(s: StateModel) -> Digest {
    blake3_digest(
        STATE_V2_TAG@ + entries_root(domains_in(s.entries), s.entries)@ + entries_root(
            tlds_in(s.entries),
            s.entries,
        )@ + set_root(OWNER_LEAF_TAG@, s.owner_refs.dom())@ + set_root(BAN_LEAF_TAG@, s.banned)@,
    )
}

/// Equal states have equal archive roots, and what the root depends on is
/// the entries, the owners and the bans alone.
pub proof fn law_archive_root_is_of_entries_owners_and_bans(a: StateModel, b: StateModel)
    requires
        a.entries == b.entries,
        a.owner_refs.dom() == b.owner_refs.dom(),
        a.banned == b.banned,
    ensures
        archive_root(a) == archive_root(b),
{
}

/// Bytes of the fold tag.
pub(crate) fn fold_tag() -> (tag: Vec<u8>)
    ensures
        tag@ == FOLD_TAG@,
{
    let t: [u8; 13] = FOLD_TAG;
    let mut tag: Vec<u8> = Vec::new();
    append_bytes(&mut tag, t.as_slice());
    assert(tag@ =~= FOLD_TAG@);
    tag
}

/// Root over an ascending list of digests under a leaf tag.
pub(crate) fn list_root(tag: &[u8], list: &Vec<Digest>) -> (root: Digest)
    requires
        ascending(list@),
    ensures
        root == set_root(tag@, list@.to_set()),
{
    let mut leaves: Vec<Digest> = Vec::new();
    let mut i: usize = 0;
    while i < list.len()
        invariant
            i <= list@.len(),
            leaves@ =~= tagged_leaves(tag@, list@.subrange(0, i as int)),
        decreases list@.len() - i,
    {
        let mut b: Vec<u8> = Vec::new();
        append_bytes(&mut b, tag);
        append_bytes(&mut b, list[i].as_slice());
        assert(b@ =~= tag@ + list@[i as int]@);
        leaves.push(hash256(&b));
        i += 1;
    }
    proof {
        assert(list@.subrange(0, i as int) =~= list@);
        lemma_sorted_members(list@);
    }
    fold_hashes(&fold_tag(), &leaves)
}

} // verus!

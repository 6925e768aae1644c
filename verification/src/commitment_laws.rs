//! What the commitments bind: the bytes under each hash determine what they
//! stand for, so that equal roots mean equal content as long as no two of the
//! hashed byte strings have one digest.
use vstd::prelude::*;
use crate::archive::BAN_LEAF_TAG;
use crate::archive::FOLD_TAG;
use crate::archive::OWNER_LEAF_TAG;
use crate::archive::STATE_V2_TAG;
use crate::archive::archive_root;
use crate::archive::entries_root;
use crate::archive::leaves_at;
use crate::archive::set_root;
use crate::archive::tagged_leaves;
use crate::block_hash::BLOCK_HASH_VERSION;
use crate::block_hash::hash_of_header;
use crate::bytes::be8;
use crate::bytes::le8;
use crate::bytes::lemma_le8;
use crate::chain_model::genesis_chain;
use crate::digest::blake3_digest;
use crate::entry::DOMAIN_LEAF_TAG;
use crate::entry::DomainState;
use crate::entry::Entry;
use crate::entry::TLD_LEAF_TAG;
use crate::entry::TldState;
use crate::entry::domain_leaf;
use crate::entry::entry_leaf;
use crate::entry::normal;
use crate::entry::record_or_zero;
use crate::entry::tld_leaf;
use crate::error::BlockchainError;
use crate::fold::fold_root;
use crate::fold::level_up;
use crate::fold::pair_value;
use crate::ids::BlockHash;
use crate::ids::Digest;
use crate::ids::DomainId;
use crate::ids::MerkleRoot;
use crate::ids::PublicKey;
use crate::ids::TldId;
use crate::ids::ascending;
use crate::ids::big_endian;
use crate::ids::lemma_same_bytes;
use crate::ids::ordinal;
use crate::ids::zero_digest;
use crate::merkle::EMPTY_ROOT_LABEL;
use crate::merkle::LEAF_TAG;
use crate::merkle::MERKLE_VERSION;
use crate::merkle::NODE_TAG;
use crate::merkle::first_encoding_error;
use crate::merkle::merkle_leaf;
use crate::merkle::merkle_root_of;
use crate::merkle::tx_ids;
use crate::merkle::tx_root_of;
use crate::smt::SMT_EMPTY_LEAF_TAG;
use crate::smt::SMT_NODE_TAG;
use crate::smt::key_of;
use crate::smt_model::Leaves;
use crate::smt_model::empty_leaf_value;
use crate::smt_model::leaf_value;
use crate::smt_model::lemma_prefix;
use crate::smt_model::lemma_sorted_list;
use crate::smt_model::prefix;
use crate::smt_model::smt_root;
use crate::smt_model::sorted_members;
use crate::smt_model::subtree;
use crate::smt_model::width;
use crate::state::STATE_SMT_TAG;
use crate::state::smt_state_root;
use crate::state_laws::coherent;
use crate::state_laws::commitment;
use crate::state_laws::domains_in;
use crate::state_laws::has_leaf;
use crate::state_laws::tlds_in;
use crate::state_model::StateModel;
use crate::txid::TX_ID_VERSION;
use crate::txid::tx_id;
use crate::types::HeaderModel;
use crate::types::NetworkModel;
use crate::types::ProtocolError;
use crate::types::TxModel;

verus! {

/// Whether no two of some byte strings have one digest.
pub open spec fn apart(inputs: Set<Seq<u8>>) -> bool {
    forall|x: Seq<u8>, y: Seq<u8>|
        #![trigger inputs.contains(x), inputs.contains(y)]
        inputs.contains(x) && inputs.contains(y) && blake3_digest(x) == blake3_digest(y) ==> x == y
}

// ---- Entries -------------------------------------------------------------

/// The bytes under the hash of an entry's commitment leaf.
pub open spec fn leaf_bytes(id: Digest, e: Entry) -> Seq<u8> {
    match e {
        Entry::Domain(st) => DOMAIN_LEAF_TAG@ + id@ + st.owner@ + be8(st.sequence) + be8(st.registered_at) + be8(
            st.valid_until,
        ) + record_or_zero(st.record_hash)@,
        Entry::Tld(st) => (TLD_LEAF_TAG@ + id@ + st.owner@).push(
            if st.open {
                1u8
            } else {
                0u8
            },
        ),
    }
}

/// Numbers with the same eight bytes are equal.
proof fn lemma_same_number(a: u64, b: u64)
    requires
        be8(a) == be8(b),
    ensures
        a == b,
{
    lemma_le8(a);
    lemma_le8(b);
    assert(le8(a) =~= be8(a).reverse());
    assert(le8(b) =~= be8(b).reverse());
}

/// The lengths of the bytes under a leaf.
proof fn lemma_leaf_length(id: Digest, e: Entry)
    ensures
        leaf_bytes(id, e).len() == (if e is Domain {
            137int
        } else {
            82int
        }),
{
    if let Entry::Domain(st) = e {
        lemma_le8(st.sequence);
        lemma_le8(st.registered_at);
        lemma_le8(st.valid_until);
    }
}

/// The bytes under the leaf of a domain determine its id and its whole state:
/// owner, sequence, both times and record hash, where no record hash is the
/// same as an all-zero one.
pub proof fn law_domain_leaf_binds_the_domain(a: DomainId, x: DomainState, b: DomainId, y: DomainState)
    requires
        leaf_bytes(a, Entry::Domain(x)) == leaf_bytes(b, Entry::Domain(y)),
    ensures
        a == b,
        x.owner == y.owner,
        x.sequence == y.sequence,
        x.registered_at == y.registered_at,
        x.valid_until == y.valid_until,
        x.record_hash == y.record_hash || (x.record_hash is None && y.record_hash == Some(zero_digest())) || (
        y.record_hash is None && x.record_hash == Some(zero_digest())),
        domain_leaf(a, x) == blake3_digest(leaf_bytes(a, Entry::Domain(x))),
{
    let p = leaf_bytes(a, Entry::Domain(x));
    let q = leaf_bytes(b, Entry::Domain(y));
    lemma_le8(x.sequence);
    lemma_le8(x.registered_at);
    lemma_le8(x.valid_until);
    lemma_le8(y.sequence);
    lemma_le8(y.registered_at);
    lemma_le8(y.valid_until);
    assert(p.subrange(17, 49) =~= a@);
    assert(q.subrange(17, 49) =~= b@);
    assert(p.subrange(49, 81) =~= x.owner@);
    assert(q.subrange(49, 81) =~= y.owner@);
    assert(p.subrange(81, 89) =~= be8(x.sequence));
    assert(q.subrange(81, 89) =~= be8(y.sequence));
    assert(p.subrange(89, 97) =~= be8(x.registered_at));
    assert(q.subrange(89, 97) =~= be8(y.registered_at));
    assert(p.subrange(97, 105) =~= be8(x.valid_until));
    assert(q.subrange(97, 105) =~= be8(y.valid_until));
    assert(p.subrange(105, 137) =~= record_or_zero(x.record_hash)@);
    assert(q.subrange(105, 137) =~= record_or_zero(y.record_hash)@);
    lemma_same_bytes(a, b);
    lemma_same_bytes(x.owner, y.owner);
    lemma_same_bytes(record_or_zero(x.record_hash), record_or_zero(y.record_hash));
    lemma_same_number(x.sequence, y.sequence);
    lemma_same_number(x.registered_at, y.registered_at);
    lemma_same_number(x.valid_until, y.valid_until);
}

/// The bytes under the leaf of a namespace determine its id, its owner and
/// whether it is open.
pub proof fn law_tld_leaf_binds_the_namespace(a: TldId, x: TldState, b: TldId, y: TldState)
    requires
        leaf_bytes(a, Entry::Tld(x)) == leaf_bytes(b, Entry::Tld(y)),
    ensures
        a == b,
        x == y,
        tld_leaf(a, x) == blake3_digest(leaf_bytes(a, Entry::Tld(x))),
{
    let p = leaf_bytes(a, Entry::Tld(x));
    let q = leaf_bytes(b, Entry::Tld(y));
    assert(p.subrange(17, 49) =~= a@);
    assert(q.subrange(17, 49) =~= b@);
    assert(p.subrange(49, 81) =~= x.owner@);
    assert(q.subrange(49, 81) =~= y.owner@);
    assert(p[81] == q[81]);
    lemma_same_bytes(a, b);
    lemma_same_bytes(x.owner, y.owner);
}

/// Every leaf of an entry is the hash of bytes that determine the id and the
/// entry; a domain and a namespace never share them.
pub proof fn law_leaf_binds_the_entry(a: Digest, x: Entry, b: Digest, y: Entry)
    requires
        x matches Entry::Domain(st) ==> st.record_hash != Some(zero_digest()),
        y matches Entry::Domain(st) ==> st.record_hash != Some(zero_digest()),
    ensures
        entry_leaf(a, x) == blake3_digest(leaf_bytes(a, x)),
        leaf_bytes(a, x) == leaf_bytes(b, y) ==> a == b && x == y,
{
    lemma_leaf_length(a, x);
    lemma_leaf_length(b, y);
    if leaf_bytes(a, x) == leaf_bytes(b, y) {
        match (x, y) {
            (Entry::Domain(s), Entry::Domain(t)) => law_domain_leaf_binds_the_domain(a, s, b, t),
            (Entry::Tld(s), Entry::Tld(t)) => law_tld_leaf_binds_the_namespace(a, s, b, t),
            _ => {},
        }
    }
}

// ---- Merkle folds ----------------------------------------------------------

/// The bytes under the hash of two neighbours.
pub open spec fn pair_bytes(tag: Seq<u8>, left: Digest, right: Digest) -> Seq<u8> {
    tag + left@ + right@
}

/// The neighbour of a digest in a level: the next one, or itself if it is an
/// odd last one.
pub open spec fn partner(level: Seq<Digest>, i: int) -> Digest {
    if 2 * i + 1 < level.len() {
        level[2 * i + 1]
    } else {
        level[2 * i]
    }
}

/// The byte strings that folding a level hashes.
pub open spec fn fold_inputs(tag: Seq<u8>, level: Seq<Digest>) -> Set<Seq<u8>>
    decreases level.len(),
{
    if level.len() <= 1 {
        Set::empty()
    } else {
        Set::new(
            |x: Seq<u8>|
                exists|i: int|
                    0 <= i < (level.len() + 1) / 2 && x == #[trigger] pair_bytes(tag, level[2 * i], partner(level, i)),
        ).union(fold_inputs(tag, level_up(tag, level)))
    }
}

/// Whether a digest stands `r` hashes of pairs above digests of byte strings
/// that are no pairs.
pub open spec fn stands_at(tag: Seq<u8>, inputs: Set<Seq<u8>>, d: Digest, r: nat) -> bool
    decreases r,
{
    if r == 0 {
        exists|x: Seq<u8>| #[trigger] inputs.contains(x) && x.len() != tag.len() + 64 && blake3_digest(x) == d
    } else {
        exists|left: Digest, right: Digest|
            inputs.contains(#[trigger] pair_bytes(tag, left, right)) && blake3_digest(pair_bytes(tag, left, right))
                == d && stands_at(tag, inputs, left, (r - 1) as nat)
    }
}

/// The bytes of a pair determine both digests.
pub proof fn law_pair_binds_both(tag: Seq<u8>, a: Digest, b: Digest, c: Digest, d: Digest)
    requires
        pair_bytes(tag, a, b) == pair_bytes(tag, c, d),
    ensures
        a == c,
        b == d,
        pair_value(tag, a, b) == blake3_digest(pair_bytes(tag, a, b)),
{
    let p = pair_bytes(tag, a, b);
    let q = pair_bytes(tag, c, d);
    let n = tag.len() as int;
    assert(p.subrange(n, n + 32) =~= a@);
    assert(q.subrange(n, n + 32) =~= c@);
    assert(p.subrange(n + 32, n + 64) =~= b@);
    assert(q.subrange(n + 32, n + 64) =~= d@);
    lemma_same_bytes(a, c);
    lemma_same_bytes(b, d);
}

/// A digest stands at one height only.
proof fn lemma_one_height(tag: Seq<u8>, inputs: Set<Seq<u8>>, d: Digest, r: nat, s: nat)
    requires
        apart(inputs),
        stands_at(tag, inputs, d, r),
        stands_at(tag, inputs, d, s),
    ensures
        r == s,
    decreases r,
{
    if r == 0 && s > 0 {
        let x = choose|x: Seq<u8>| #[trigger]
            inputs.contains(x) && x.len() != tag.len() + 64 && blake3_digest(x) == d;
        let (l, o) = choose|left: Digest, right: Digest|
            inputs.contains(#[trigger] pair_bytes(tag, left, right)) && blake3_digest(pair_bytes(tag, left, right))
                == d && stands_at(tag, inputs, left, (s - 1) as nat);
        assert(x == pair_bytes(tag, l, o));
    } else if r > 0 && s == 0 {
        let x = choose|x: Seq<u8>| #[trigger]
            inputs.contains(x) && x.len() != tag.len() + 64 && blake3_digest(x) == d;
        let (l, o) = choose|left: Digest, right: Digest|
            inputs.contains(#[trigger] pair_bytes(tag, left, right)) && blake3_digest(pair_bytes(tag, left, right))
                == d && stands_at(tag, inputs, left, (r - 1) as nat);
        assert(x == pair_bytes(tag, l, o));
    } else if r > 0 && s > 0 {
        let (l, o) = choose|left: Digest, right: Digest|
            inputs.contains(#[trigger] pair_bytes(tag, left, right)) && blake3_digest(pair_bytes(tag, left, right))
                == d && stands_at(tag, inputs, left, (r - 1) as nat);
        let (k, n) = choose|left: Digest, right: Digest|
            inputs.contains(#[trigger] pair_bytes(tag, left, right)) && blake3_digest(pair_bytes(tag, left, right))
                == d && stands_at(tag, inputs, left, (s - 1) as nat);
        law_pair_binds_both(tag, l, o, k, n);
        lemma_one_height(tag, inputs, l, (r - 1) as nat, (s - 1) as nat);
    }
}

/// All digests of a level stand at one height.
pub open spec fn level_at(tag: Seq<u8>, inputs: Set<Seq<u8>>, level: Seq<Digest>, r: nat) -> bool {
    forall|i: int| 0 <= i < level.len() ==> stands_at(tag, inputs, #[trigger] level[i], r)
}

/// One level up, the digests are still different, and stand one higher.
proof fn lemma_level_up(tag: Seq<u8>, inputs: Set<Seq<u8>>, level: Seq<Digest>, r: nat)
    requires
        apart(inputs),
        level.len() > 1,
        level.no_duplicates(),
        level_at(tag, inputs, level, r),
        fold_inputs(tag, level).subset_of(inputs),
    ensures
        level_up(tag, level).no_duplicates(),
        level_at(tag, inputs, level_up(tag, level), r + 1),
        fold_inputs(tag, level_up(tag, level)).subset_of(inputs),
        forall|i: int|
            0 <= i < (level.len() + 1) / 2 ==> inputs.contains(
                #[trigger] pair_bytes(tag, level[2 * i], partner(level, i)),
            ),
{
    let next = level_up(tag, level);
    assert forall|i: int| 0 <= i < (level.len() + 1) / 2 implies inputs.contains(
        #[trigger] pair_bytes(tag, level[2 * i], partner(level, i)),
    ) by {
        assert(fold_inputs(tag, level).contains(pair_bytes(tag, level[2 * i], partner(level, i))));
    }
    assert forall|i: int| 0 <= i < next.len() implies stands_at(tag, inputs, #[trigger] next[i], r + 1) by {
        let x = pair_bytes(tag, level[2 * i], partner(level, i));
        assert(inputs.contains(x));
        assert(blake3_digest(x) == next[i]);
        assert(stands_at(tag, inputs, level[2 * i], r));
    }
    assert forall|i: int, j: int| 0 <= i < next.len() && 0 <= j < next.len() && i != j implies next[i] != next[j] by {
        if next[i] == next[j] {
            let x = pair_bytes(tag, level[2 * i], partner(level, i));
            let y = pair_bytes(tag, level[2 * j], partner(level, j));
            assert(inputs.contains(x) && inputs.contains(y));
            law_pair_binds_both(tag, level[2 * i], partner(level, i), level[2 * j], partner(level, j));
            assert(level[2 * i] != level[2 * j]);
        }
    }
    assert forall|x: Seq<u8>| fold_inputs(tag, next).contains(x) implies inputs.contains(x) by {
        assert(fold_inputs(tag, level).contains(x));
    }
}

/// The root over a level stands at least as high as the level, and higher if
/// there is more than one digest.
proof fn lemma_root_height(tag: Seq<u8>, inputs: Set<Seq<u8>>, level: Seq<Digest>, r: nat) -> (s: nat)
    requires
        apart(inputs),
        level.len() >= 1,
        level.no_duplicates(),
        level_at(tag, inputs, level, r),
        fold_inputs(tag, level).subset_of(inputs),
    ensures
        s >= r,
        level.len() > 1 ==> s > r,
        stands_at(tag, inputs, fold_root(tag, level), s),
    decreases level.len(),
{
    if level.len() == 1 {
        assert(stands_at(tag, inputs, level[0], r));
        r
    } else {
        lemma_level_up(tag, inputs, level, r);
        lemma_root_height(tag, inputs, level_up(tag, level), r + 1)
    }
}

/// A root binds its level: two levels of different digests, at one height,
/// with one root are one level.
proof fn lemma_root_binds_the_level(
    tag: Seq<u8>,
    inputs: Set<Seq<u8>>,
    a: Seq<Digest>,
    b: Seq<Digest>,
    r: nat,
)
    requires
        apart(inputs),
        a.len() >= 1,
        b.len() >= 1,
        a.no_duplicates(),
        b.no_duplicates(),
        level_at(tag, inputs, a, r),
        level_at(tag, inputs, b, r),
        fold_inputs(tag, a).subset_of(inputs),
        fold_inputs(tag, b).subset_of(inputs),
        fold_root(tag, a) == fold_root(tag, b),
    ensures
        a == b,
    decreases a.len() + b.len(),
{
    let s = lemma_root_height(tag, inputs, a, r);
    let t = lemma_root_height(tag, inputs, b, r);
    lemma_one_height(tag, inputs, fold_root(tag, a), s, t);
    if a.len() == 1 && b.len() == 1 {
        assert(a =~= b);
    } else if a.len() == 1 {
        assert(stands_at(tag, inputs, a[0], r));
        lemma_one_height(tag, inputs, fold_root(tag, a), r, t);
    } else if b.len() == 1 {
        assert(stands_at(tag, inputs, b[0], r));
        lemma_one_height(tag, inputs, fold_root(tag, b), r, s);
    } else {
        lemma_level_up(tag, inputs, a, r);
        lemma_level_up(tag, inputs, b, r);
        let u = level_up(tag, a);
        let v = level_up(tag, b);
        lemma_root_binds_the_level(tag, inputs, u, v, r + 1);
        assert(u.len() == v.len());
        assert forall|i: int| 0 <= i < u.len() implies a[2 * i] == b[2 * i] && #[trigger] partner(
            a,
            i,
        ) == partner(b, i) by {
            assert(u[i] == v[i]);
            let x = pair_bytes(tag, a[2 * i], partner(a, i));
            let y = pair_bytes(tag, b[2 * i], partner(b, i));
            assert(inputs.contains(x) && inputs.contains(y));
            assert(u[i] == blake3_digest(x));
            assert(v[i] == blake3_digest(y));
            law_pair_binds_both(tag, a[2 * i], partner(a, i), b[2 * i], partner(b, i));
        }
        let n = u.len() - 1;
        if a.len() != b.len() {
            assert(partner(a, n) == partner(b, n));
            assert(a[2 * n] == b[2 * n]);
            if a.len() < b.len() {
                assert(a.len() == 2 * n + 1 && b.len() == 2 * n + 2);
                assert(b[2 * n] == b[2 * n + 1]);
            } else {
                assert(b.len() == 2 * n + 1 && a.len() == 2 * n + 2);
                assert(a[2 * n] == a[2 * n + 1]);
            }
            assert(false);
        }
        assert forall|j: int| 0 <= j < a.len() implies a[j] == b[j] by {
            let i = j / 2;
            assert(partner(a, i) == partner(b, i));
            assert(a[2 * i] == b[2 * i]);
            if j % 2 == 1 {
                assert(j == 2 * i + 1);
            } else {
                assert(j == 2 * i);
            }
        }
        assert(a =~= b);
    }
}

// ---- Transactions ------------------------------------------------------------

/// The bytes under the leaf of a transaction id.
pub open spec fn id_bytes(id: Digest) -> Seq<u8> {
    MERKLE_VERSION@.push(LEAF_TAG) + id@
}

/// The byte strings that the root over some transaction ids hashes.
pub open spec fn root_inputs(ids: Seq<Digest>) -> Set<Seq<u8>> {
    Set::new(
        |x: Seq<u8>|
            x == MERKLE_VERSION@ + EMPTY_ROOT_LABEL@ || exists|i: int|
                0 <= i < ids.len() && x == #[trigger] id_bytes(ids[i]),
    ).union(fold_inputs(MERKLE_VERSION@.push(NODE_TAG), ids.map_values(|id: Digest| merkle_leaf(id))))
}

/// The leaves over different ids are different, and digests of no pairs.
proof fn lemma_id_leaves(ids: Seq<Digest>, inputs: Set<Seq<u8>>)
    requires
        ids.no_duplicates(),
        apart(inputs),
        root_inputs(ids).subset_of(inputs),
    ensures
        ids.map_values(|id: Digest| merkle_leaf(id)).no_duplicates(),
        level_at(MERKLE_VERSION@.push(NODE_TAG), inputs, ids.map_values(|id: Digest| merkle_leaf(id)), 0),
        forall|i: int| 0 <= i < ids.len() ==> inputs.contains(#[trigger] id_bytes(ids[i])),
{
    let tag = MERKLE_VERSION@.push(NODE_TAG);
    let leaves = ids.map_values(|id: Digest| merkle_leaf(id));
    assert forall|i: int| 0 <= i < ids.len() implies inputs.contains(#[trigger] id_bytes(ids[i])) by {
        assert(root_inputs(ids).contains(id_bytes(ids[i])));
    }
    assert forall|i: int| 0 <= i < leaves.len() implies stands_at(tag, inputs, #[trigger] leaves[i], 0) by {
        assert(inputs.contains(id_bytes(ids[i])));
        assert(blake3_digest(id_bytes(ids[i])) == leaves[i]);
    }
    assert forall|i: int, j: int| 0 <= i < leaves.len() && 0 <= j < leaves.len() && i != j implies leaves[i]
        != leaves[j] by {
        assert(inputs.contains(id_bytes(ids[i])) && inputs.contains(id_bytes(ids[j])));
        if leaves[i] == leaves[j] {
            assert(id_bytes(ids[i]).subrange(16, 48) =~= ids[i]@);
            assert(id_bytes(ids[j]).subrange(16, 48) =~= ids[j]@);
            lemma_same_bytes(ids[i], ids[j]);
        }
    }
}

/// The root of a block's transactions binds them: two lists of different ids
/// with one root are the same ids in the same order.
pub proof fn law_transaction_root_binds_the_ids(a: Seq<Digest>, b: Seq<Digest>)
    requires
        a.no_duplicates(),
        b.no_duplicates(),
        apart(root_inputs(a).union(root_inputs(b))),
        merkle_root_of(a) == merkle_root_of(b),
    ensures
        a == b,
{
    let inputs = root_inputs(a).union(root_inputs(b));
    let tag = MERKLE_VERSION@.push(NODE_TAG);
    let none = MERKLE_VERSION@ + EMPTY_ROOT_LABEL@;
    let x = a.map_values(|id: Digest| merkle_leaf(id));
    let y = b.map_values(|id: Digest| merkle_leaf(id));
    lemma_id_leaves(a, inputs);
    lemma_id_leaves(b, inputs);
    assert(root_inputs(a).contains(none));
    assert(inputs.contains(none));
    assert(none.len() == 20);
    assert forall|z: Seq<u8>| fold_inputs(tag, x).contains(z) implies inputs.contains(z) by {
        assert(root_inputs(a).contains(z));
    }
    assert forall|z: Seq<u8>| fold_inputs(tag, y).contains(z) implies inputs.contains(z) by {
        assert(root_inputs(b).contains(z));
    }
    if a.len() > 0 && b.len() > 0 {
        lemma_root_binds_the_level(tag, inputs, x, y, 0);
        assert forall|i: int| 0 <= i < a.len() implies a[i] == b[i] by {
            assert(x[i] == y[i]);
            assert(inputs.contains(id_bytes(a[i])) && inputs.contains(id_bytes(b[i])));
            assert(blake3_digest(id_bytes(a[i])) == x[i]);
            assert(blake3_digest(id_bytes(b[i])) == y[i]);
            assert(id_bytes(a[i]).subrange(16, 48) =~= a[i]@);
            assert(id_bytes(b[i]).subrange(16, 48) =~= b[i]@);
            lemma_same_bytes(a[i], b[i]);
        }
        assert(a =~= b);
    } else if a.len() > 0 {
        lemma_no_empty_root(a, inputs);
    } else if b.len() > 0 {
        lemma_no_empty_root(b, inputs);
    } else {
        assert(a =~= b);
    }
}

/// The root over some ids is not the root over none.
proof fn lemma_no_empty_root(ids: Seq<Digest>, inputs: Set<Seq<u8>>)
    requires
        ids.len() > 0,
        ids.no_duplicates(),
        apart(inputs),
        root_inputs(ids).subset_of(inputs),
    ensures
        merkle_root_of(ids) != merkle_root_of(Seq::empty()),
{
    let tag = MERKLE_VERSION@.push(NODE_TAG);
    let none = MERKLE_VERSION@ + EMPTY_ROOT_LABEL@;
    let leaves = ids.map_values(|id: Digest| merkle_leaf(id));
    lemma_id_leaves(ids, inputs);
    assert(root_inputs(ids).contains(none));
    assert(none.len() == 20);
    assert forall|z: Seq<u8>| fold_inputs(tag, leaves).contains(z) implies inputs.contains(z) by {
        assert(root_inputs(ids).contains(z));
    }
    if merkle_root_of(ids) == blake3_digest(none) {
        let s = lemma_root_height(tag, inputs, leaves, 0);
        assert(stands_at(tag, inputs, blake3_digest(none), 0)) by {
            assert(inputs.contains(none));
        }
        lemma_one_height(tag, inputs, blake3_digest(none), s, 0);
        assert(leaves.len() == 1);
        assert(leaves[0] == blake3_digest(id_bytes(ids[0])));
        assert(inputs.contains(id_bytes(ids[0])));
        assert(id_bytes(ids[0]).len() == 48);
    }
}

/// A transaction id and a block hash are hashes of bytes that determine the
/// whole encoding, and the prefixes keep the two apart.
pub proof fn law_ids_bind_the_encoding(t: TxModel, u: TxModel, h: HeaderModel, g: HeaderModel)
    ensures
        match (t.encoding, u.encoding) {
            (Ok(x), Ok(y)) => {
                &&& tx_id(t) == Ok::<Digest, ProtocolError>(blake3_digest(TX_ID_VERSION@ + x))
                &&& TX_ID_VERSION@ + x == TX_ID_VERSION@ + y ==> x == y
            },
            (Err(e), _) => tx_id(t) == Err::<Digest, ProtocolError>(e),
            _ => true,
        },
        match (h.encoding, g.encoding) {
            (Ok(x), Ok(y)) => {
                &&& hash_of_header(h) == Ok::<BlockHash, BlockchainError>(blake3_digest(BLOCK_HASH_VERSION@ + x))
                &&& BLOCK_HASH_VERSION@ + x == BLOCK_HASH_VERSION@ + y ==> x == y
            },
            (Err(e), _) => hash_of_header(h) == Err::<BlockHash, BlockchainError>(BlockchainError::Protocol(e)),
            _ => true,
        },
{
    if t.encoding is Ok && u.encoding is Ok {
        let (x, y) = (t.encoding->Ok_0, u.encoding->Ok_0);
        let n = TX_ID_VERSION@.len() as int;
        let (p, q) = (TX_ID_VERSION@ + x, TX_ID_VERSION@ + y);
        assert(p.subrange(n, p.len() as int) =~= x);
        assert(q.subrange(n, q.len() as int) =~= y);
    }
    if h.encoding is Ok && g.encoding is Ok {
        let (x, y) = (h.encoding->Ok_0, g.encoding->Ok_0);
        let n = BLOCK_HASH_VERSION@.len() as int;
        let (p, q) = (BLOCK_HASH_VERSION@ + x, BLOCK_HASH_VERSION@ + y);
        assert(p.subrange(n, p.len() as int) =~= x);
        assert(q.subrange(n, q.len() as int) =~= y);
    }
}

// ---- The state ------------------------------------------------------------

/// The byte strings that the state root over some entries hashes.
pub open spec fn state_inputs(entries: Map<Digest, Entry>) -> Set<Seq<u8>> {
    let m = commitment(entries);
    Set::new(
        |x: Seq<u8>|
            {
                ||| x == STATE_SMT_TAG@ + smt_root(m)@
                ||| x == SMT_EMPTY_LEAF_TAG@
                ||| exists|d: int, p: int| 0 <= d < 40 && x == #[trigger] node_bytes(m, d, p)
                ||| exists|id: Digest| #[trigger] entries.contains_key(id) && x == leaf_bytes(id, entries[id])
                ||| exists|k: u64| #[trigger]
                    m.contains_key(k) && fold_inputs(Seq::empty(), sorted_members(m[k])).contains(x)
            },
    )
}

/// The bytes under the hash of the inner node at a position.
pub open spec fn node_bytes(m: Leaves, d: int, p: int) -> Seq<u8> {
    pair_bytes(SMT_NODE_TAG@, subtree(m, d + 1, 2 * p), subtree(m, d + 1, 2 * p + 1))
}

/// Number of strings of `n` bytes.
spec fn strings(n: nat) -> nat
    decreases n,
{
    if n == 0 {
        1
    } else {
        strings((n - 1) as nat) * 256
    }
}

/// A number in `n` bytes is below the number of such strings.
proof fn lemma_big_endian_fits(s: Seq<u8>)
    ensures
        big_endian(s) < strings(s.len()),
    decreases s.len(),
{
    if s.len() > 0 {
        lemma_big_endian_fits(s.drop_last());
    }
}

/// Tree keys have 40 bits.
proof fn lemma_key_fits(id: Digest)
    ensures
        key_of(id) < 0x100_0000_0000,
{
    lemma_big_endian_fits(id@.subrange(0, 5));
    reveal_with_fuel(strings, 6);
    assert(strings(5) == 0x100_0000_0000);
}

/// Equal subtrees have equal leaves.
proof fn lemma_equal_leaves(a: Map<Digest, Entry>, b: Map<Digest, Entry>, inputs: Set<Seq<u8>>, k: u64, d: int)
    requires
        apart(inputs),
        state_inputs(a).subset_of(inputs),
        state_inputs(b).subset_of(inputs),
        k < 0x100_0000_0000,
        0 <= d <= 40,
        subtree(commitment(a), d, prefix(k, d)) == subtree(commitment(b), d, prefix(k, d)),
    ensures
        leaf_value(commitment(a), k) == leaf_value(commitment(b), k),
    decreases 40 - d,
{
    lemma_prefix(k, d);
    if d < 40 {
        let (x, y) = (commitment(a), commitment(b));
        let p = prefix(k, d);
        assert(state_inputs(a).contains(node_bytes(x, d, p)));
        assert(state_inputs(b).contains(node_bytes(y, d, p)));
        assert(inputs.contains(node_bytes(x, d, p)) && inputs.contains(node_bytes(y, d, p)));
        assert(subtree(x, d, p) == blake3_digest(node_bytes(x, d, p)));
        assert(subtree(y, d, p) == blake3_digest(node_bytes(y, d, p)));
        law_pair_binds_both(
            SMT_NODE_TAG@,
            subtree(x, d + 1, 2 * p),
            subtree(x, d + 1, 2 * p + 1),
            subtree(y, d + 1, 2 * p),
            subtree(y, d + 1, 2 * p + 1),
        );
        lemma_prefix(k, d + 1);
        let q = prefix(k, d + 1);
        assert(q == 2 * p || q == 2 * p + 1);
        lemma_equal_leaves(a, b, inputs, k, d + 1);
    }
}

/// The leaves under a key, in order, are different digests of no pairs.
proof fn lemma_bucket(entries: Map<Digest, Entry>, inputs: Set<Seq<u8>>, k: u64)
    requires
        entries.dom().finite(),
        apart(inputs),
        state_inputs(entries).subset_of(inputs),
        commitment(entries).contains_key(k),
    ensures
        ({
            let level = sorted_members(commitment(entries)[k]);
            &&& level.to_set() == commitment(entries)[k]
            &&& level.len() >= 1
            &&& level.no_duplicates()
            &&& level_at(Seq::empty(), inputs, level, 0)
            &&& fold_inputs(Seq::empty(), level).subset_of(inputs)
            &&& leaf_value(commitment(entries), k) == fold_root(Seq::empty(), level)
        }),
{
    let m = commitment(entries);
    let held = m[k];
    let f = |id: Digest| entry_leaf(id, entries[id]);
    entries.dom().lemma_map_finite(f);
    assert(held.subset_of(entries.dom().map(f))) by {
        assert forall|leaf: Digest| held.contains(leaf) implies entries.dom().map(f).contains(leaf) by {
            let id = choose|id: Digest| #[trigger]
                entries.contains_key(id) && key_of(id) == k && entry_leaf(id, entries[id]) == leaf;
            assert(entries.dom().contains(id) && f(id) == leaf);
        }
    }
    vstd::set_lib::lemma_set_subset_finite(entries.dom().map(f), held);
    lemma_sorted_list(held);
    let level = sorted_members(held);
    let id = choose|id: Digest| #[trigger] entries.contains_key(id) && key_of(id) == k;
    assert(has_leaf(entries, k, entry_leaf(id, entries[id])));
    assert(held.contains(entry_leaf(id, entries[id])));
    assert(level.to_set().contains(entry_leaf(id, entries[id])));
    assert forall|i: int, j: int| 0 <= i < level.len() && 0 <= j < level.len() && i != j implies level[i]
        != level[j] by {
        if i < j {
            assert(ordinal(level[i]) < ordinal(level[j]));
        } else {
            assert(ordinal(level[j]) < ordinal(level[i]));
        }
    }
    let none = Seq::<u8>::empty();
    assert forall|i: int| 0 <= i < level.len() implies stands_at(none, inputs, #[trigger] level[i], 0) by {
        assert(level.to_set().contains(level[i]));
        assert(held.contains(level[i]));
        let at = choose|at: Digest| #[trigger]
            entries.contains_key(at) && key_of(at) == k && entry_leaf(at, entries[at]) == level[i];
        let x = leaf_bytes(at, entries[at]);
        assert(state_inputs(entries).contains(x));
        assert(inputs.contains(x));
        lemma_leaf_length(at, entries[at]);
        assert(blake3_digest(x) == level[i]);
    }
    assert forall|x: Seq<u8>| fold_inputs(none, level).contains(x) implies inputs.contains(x) by {
        assert(m.contains_key(k));
        assert(state_inputs(entries).contains(x));
    }
}

/// A key with leaves has another value than a key without.
proof fn lemma_bucket_is_not_empty(entries: Map<Digest, Entry>, inputs: Set<Seq<u8>>, k: u64)
    requires
        entries.dom().finite(),
        apart(inputs),
        state_inputs(entries).subset_of(inputs),
        commitment(entries).contains_key(k),
    ensures
        leaf_value(commitment(entries), k) != empty_leaf_value(),
{
    lemma_bucket(entries, inputs, k);
    let none = Seq::<u8>::empty();
    let level = sorted_members(commitment(entries)[k]);
    let blank = SMT_EMPTY_LEAF_TAG@;
    assert(state_inputs(entries).contains(blank));
    assert(inputs.contains(blank));
    assert(blank.len() == 20);
    if fold_root(none, level) == empty_leaf_value() {
        let s = lemma_root_height(none, inputs, level, 0);
        assert(stands_at(none, inputs, blake3_digest(blank), 0));
        lemma_one_height(none, inputs, blake3_digest(blank), s, 0);
        assert(level.len() == 1);
        assert(level.to_set().contains(level[0]));
        let at = choose|at: Digest| #[trigger]
            entries.contains_key(at) && key_of(at) == k && entry_leaf(at, entries[at]) == level[0];
        let x = leaf_bytes(at, entries[at]);
        assert(state_inputs(entries).contains(x));
        assert(inputs.contains(x));
        lemma_leaf_length(at, entries[at]);
        assert(blake3_digest(x) == level[0]);
    }
}

/// What one state holds, another with the same commitment holds too.
proof fn lemma_entries_carry_over(
    a: Map<Digest, Entry>,
    b: Map<Digest, Entry>,
    inputs: Set<Seq<u8>>,
    id: Digest,
)
    requires
        a.dom().finite(),
        b.dom().finite(),
        apart(inputs),
        state_inputs(a).subset_of(inputs),
        state_inputs(b).subset_of(inputs),
        smt_root(commitment(a)) == smt_root(commitment(b)),
        forall|i: Digest| #[trigger] a.contains_key(i) ==> (a[i] matches Entry::Domain(st) ==> normal(st) == st),
        forall|i: Digest| #[trigger] b.contains_key(i) ==> (b[i] matches Entry::Domain(st) ==> normal(st) == st),
        a.contains_key(id),
    ensures
        b.contains_key(id),
        b[id] == a[id],
{
    let k = key_of(id);
    let (x, y) = (commitment(a), commitment(b));
    lemma_key_fits(id);
    lemma_prefix(k, 0);
    assert(width(0) == 1);
    lemma_equal_leaves(a, b, inputs, k, 0);
    assert(x.contains_key(k));
    if !y.contains_key(k) {
        lemma_bucket_is_not_empty(a, inputs, k);
    }
    lemma_bucket(a, inputs, k);
    lemma_bucket(b, inputs, k);
    lemma_root_binds_the_level(Seq::empty(), inputs, sorted_members(x[k]), sorted_members(y[k]), 0);
    assert(x[k] == y[k]);
    let leaf = entry_leaf(id, a[id]);
    assert(has_leaf(a, k, leaf));
    assert(y[k].contains(leaf));
    let at = choose|at: Digest| #[trigger] b.contains_key(at) && key_of(at) == k && entry_leaf(at, b[at]) == leaf;
    assert(state_inputs(a).contains(leaf_bytes(id, a[id])));
    assert(state_inputs(b).contains(leaf_bytes(at, b[at])));
    assert(inputs.contains(leaf_bytes(id, a[id])) && inputs.contains(leaf_bytes(at, b[at])));
    law_leaf_binds_the_entry(id, a[id], at, b[at]);
    law_leaf_binds_the_entry(at, b[at], id, a[id]);
}

/// The state root binds the whole registry: two coherent states with one root
/// hold the same entries, as long as no two of the byte strings hashed for
/// the two roots have one digest.
pub proof fn law_state_root_binds_the_entries(a: StateModel, b: StateModel)
    requires
        coherent(a),
        coherent(b),
        apart(state_inputs(a.entries).union(state_inputs(b.entries))),
        smt_state_root(a.leaves) == smt_state_root(b.leaves),
    ensures
        a.entries == b.entries,
{
    let inputs = state_inputs(a.entries).union(state_inputs(b.entries));
    let (x, y) = (smt_root(a.leaves), smt_root(b.leaves));
    let (p, q) = (STATE_SMT_TAG@ + x@, STATE_SMT_TAG@ + y@);
    assert(state_inputs(a.entries).contains(p));
    assert(state_inputs(b.entries).contains(q));
    assert(inputs.contains(p) && inputs.contains(q));
    assert(p.subrange(18, 50) =~= x@);
    assert(q.subrange(18, 50) =~= y@);
    lemma_same_bytes(x, y);
    assert forall|id: Digest| #[trigger] a.entries.contains_key(id) implies b.entries.contains_key(id)
        && b.entries[id] == a.entries[id] by {
        lemma_entries_carry_over(a.entries, b.entries, inputs, id);
    }
    assert forall|id: Digest| #[trigger] b.entries.contains_key(id) implies a.entries.contains_key(id) by {
        lemma_entries_carry_over(b.entries, a.entries, inputs, id);
    }
    assert(a.entries =~= b.entries);
}

// ---- The archive root --------------------------------------------------------

/// The byte strings hashed for a list of digests under a leaf tag.
pub open spec fn tagged_inputs(tag: Seq<u8>, list: Seq<Digest>) -> Set<Seq<u8>> {
    Set::new(|x: Seq<u8>| exists|i: int| 0 <= i < list.len() && x == tag + (#[trigger] list[i])@).union(
        fold_inputs(FOLD_TAG@, tagged_leaves(tag, list)),
    )
}

/// The byte strings hashed for the entries at some ids.
pub open spec fn entry_inputs(ids: Seq<Digest>, entries: Map<Digest, Entry>) -> Set<Seq<u8>> {
    Set::new(
        |x: Seq<u8>| exists|i: int| 0 <= i < ids.len() && x == leaf_bytes(#[trigger] ids[i], entries[ids[i]]),
    ).union(fold_inputs(FOLD_TAG@, leaves_at(ids, entries)))
}

/// The bytes under the archive root of a state.
pub open spec fn archive_bytes(s: StateModel) -> Seq<u8> {
    STATE_V2_TAG@ + entries_root(domains_in(s.entries), s.entries)@ + entries_root(tlds_in(s.entries), s.entries)@
        + set_root(OWNER_LEAF_TAG@, s.owner_refs.dom())@ + set_root(BAN_LEAF_TAG@, s.banned)@
}

/// The byte strings that the archive root of a state hashes.
pub open spec fn archive_inputs(s: StateModel) -> Set<Seq<u8>> {
    Set::new(|x: Seq<u8>| x == archive_bytes(s)).union(
        entry_inputs(sorted_members(domains_in(s.entries)), s.entries),
    ).union(entry_inputs(sorted_members(tlds_in(s.entries)), s.entries)).union(
        tagged_inputs(OWNER_LEAF_TAG@, sorted_members(s.owner_refs.dom())),
    ).union(tagged_inputs(BAN_LEAF_TAG@, sorted_members(s.banned)))
}

/// Whether no byte string has the all-zero digest, which stands for an empty
/// list.
pub open spec fn never_zero(inputs: Set<Seq<u8>>) -> bool {
    forall|x: Seq<u8>| #[trigger] inputs.contains(x) ==> blake3_digest(x) != zero_digest()
}

/// What stands at some height is the digest of one of the byte strings.
proof fn lemma_stands_on_input(tag: Seq<u8>, inputs: Set<Seq<u8>>, d: Digest, r: nat)
    requires
        never_zero(inputs),
        stands_at(tag, inputs, d, r),
    ensures
        d != zero_digest(),
{
    if r == 0 {
        let x = choose|x: Seq<u8>| #[trigger]
            inputs.contains(x) && x.len() != tag.len() + 64 && blake3_digest(x) == d;
        assert(inputs.contains(x));
    } else {
        let (l, o) = choose|left: Digest, right: Digest|
            inputs.contains(#[trigger] pair_bytes(tag, left, right)) && blake3_digest(pair_bytes(tag, left, right))
                == d && stands_at(tag, inputs, left, (r - 1) as nat);
        assert(inputs.contains(pair_bytes(tag, l, o)));
    }
}

/// Roots over lists of different leaves, empty ones among them, bind them.
proof fn lemma_root_binds_the_list(inputs: Set<Seq<u8>>, a: Seq<Digest>, b: Seq<Digest>)
    requires
        apart(inputs),
        never_zero(inputs),
        a.no_duplicates(),
        b.no_duplicates(),
        level_at(FOLD_TAG@, inputs, a, 0),
        level_at(FOLD_TAG@, inputs, b, 0),
        fold_inputs(FOLD_TAG@, a).subset_of(inputs),
        fold_inputs(FOLD_TAG@, b).subset_of(inputs),
        fold_root(FOLD_TAG@, a) == fold_root(FOLD_TAG@, b),
    ensures
        a == b,
{
    if a.len() > 0 && b.len() > 0 {
        lemma_root_binds_the_level(FOLD_TAG@, inputs, a, b, 0);
    } else if a.len() > 0 {
        let s = lemma_root_height(FOLD_TAG@, inputs, a, 0);
        lemma_stands_on_input(FOLD_TAG@, inputs, fold_root(FOLD_TAG@, a), s);
    } else if b.len() > 0 {
        let s = lemma_root_height(FOLD_TAG@, inputs, b, 0);
        lemma_stands_on_input(FOLD_TAG@, inputs, fold_root(FOLD_TAG@, b), s);
    } else {
        assert(a =~= b);
    }
}

/// Ascending digests are different.
proof fn lemma_ascending_apart(q: Seq<Digest>)
    requires
        ascending(q),
    ensures
        q.no_duplicates(),
{
    assert forall|i: int, j: int| 0 <= i < q.len() && 0 <= j < q.len() && i != j implies q[i] != q[j] by {
        if i < j {
            assert(ordinal(q[i]) < ordinal(q[j]));
        } else {
            assert(ordinal(q[j]) < ordinal(q[i]));
        }
    }
}

/// The leaves of a sorted set under a tag are different digests of no pairs.
proof fn lemma_tagged_level(inputs: Set<Seq<u8>>, tag: Seq<u8>, s: Set<Digest>)
    requires
        s.finite(),
        tag.len() == 17,
        apart(inputs),
        tagged_inputs(tag, sorted_members(s)).subset_of(inputs),
    ensures
        ({
            let list = sorted_members(s);
            &&& list.to_set() == s
            &&& tagged_leaves(tag, list).no_duplicates()
            &&& level_at(FOLD_TAG@, inputs, tagged_leaves(tag, list), 0)
            &&& fold_inputs(FOLD_TAG@, tagged_leaves(tag, list)).subset_of(inputs)
            &&& forall|i: int| 0 <= i < list.len() ==> inputs.contains(tag + (#[trigger] list[i])@)
        }),
{
    let list = sorted_members(s);
    let leaves = tagged_leaves(tag, list);
    lemma_sorted_list(s);
    lemma_ascending_apart(list);
    assert forall|i: int| 0 <= i < list.len() implies inputs.contains(tag + (#[trigger] list[i])@) by {
        assert(tagged_inputs(tag, list).contains(tag + list[i]@));
    }
    assert forall|i: int| 0 <= i < leaves.len() implies stands_at(FOLD_TAG@, inputs, #[trigger] leaves[i], 0) by {
        assert(inputs.contains(tag + list[i]@));
        assert(blake3_digest(tag + list[i]@) == leaves[i]);
    }
    assert forall|i: int, j: int| 0 <= i < leaves.len() && 0 <= j < leaves.len() && i != j implies leaves[i]
        != leaves[j] by {
        let (x, y) = (tag + list[i]@, tag + list[j]@);
        assert(inputs.contains(x) && inputs.contains(y));
        if leaves[i] == leaves[j] {
            assert(x.subrange(17, 49) =~= list[i]@);
            assert(y.subrange(17, 49) =~= list[j]@);
            lemma_same_bytes(list[i], list[j]);
        }
    }
    assert forall|x: Seq<u8>| fold_inputs(FOLD_TAG@, leaves).contains(x) implies inputs.contains(x) by {
        assert(tagged_inputs(tag, list).contains(x));
    }
}

/// Equal roots over sets under one tag mean equal sets.
proof fn lemma_set_root_binds(inputs: Set<Seq<u8>>, tag: Seq<u8>, a: Set<Digest>, b: Set<Digest>)
    requires
        a.finite(),
        b.finite(),
        tag.len() == 17,
        apart(inputs),
        never_zero(inputs),
        tagged_inputs(tag, sorted_members(a)).subset_of(inputs),
        tagged_inputs(tag, sorted_members(b)).subset_of(inputs),
        set_root(tag, a) == set_root(tag, b),
    ensures
        a == b,
{
    let (x, y) = (sorted_members(a), sorted_members(b));
    lemma_tagged_level(inputs, tag, a);
    lemma_tagged_level(inputs, tag, b);
    let (u, v) = (tagged_leaves(tag, x), tagged_leaves(tag, y));
    lemma_root_binds_the_list(inputs, u, v);
    assert(x.len() == u.len() && y.len() == v.len());
    assert forall|i: int| 0 <= i < x.len() implies x[i] == y[i] by {
        let (p, q) = (tag + x[i]@, tag + y[i]@);
        assert(inputs.contains(p) && inputs.contains(q));
        assert(u[i] == blake3_digest(p) && v[i] == blake3_digest(q));
        assert(p.subrange(17, 49) =~= x[i]@);
        assert(q.subrange(17, 49) =~= y[i]@);
        lemma_same_bytes(x[i], y[i]);
    }
    assert(x =~= y);
}

/// The leaves of entries at sorted ids are different digests of no pairs.
proof fn lemma_entry_level(inputs: Set<Seq<u8>>, ids: Set<Digest>, entries: Map<Digest, Entry>)
    requires
        ids.finite(),
        apart(inputs),
        entry_inputs(sorted_members(ids), entries).subset_of(inputs),
        forall|i: Digest| #[trigger]
            ids.contains(i) ==> (entries[i] matches Entry::Domain(st) ==> normal(st) == st),
    ensures
        ({
            let list = sorted_members(ids);
            &&& list.to_set() == ids
            &&& leaves_at(list, entries).no_duplicates()
            &&& level_at(FOLD_TAG@, inputs, leaves_at(list, entries), 0)
            &&& fold_inputs(FOLD_TAG@, leaves_at(list, entries)).subset_of(inputs)
            &&& forall|i: int|
                0 <= i < list.len() ==> inputs.contains(leaf_bytes(#[trigger] list[i], entries[list[i]]))
        }),
{
    let list = sorted_members(ids);
    let leaves = leaves_at(list, entries);
    lemma_sorted_list(ids);
    lemma_ascending_apart(list);
    assert forall|i: int| 0 <= i < list.len() implies inputs.contains(
        leaf_bytes(#[trigger] list[i], entries[list[i]]),
    ) by {
        assert(entry_inputs(list, entries).contains(leaf_bytes(list[i], entries[list[i]])));
    }
    assert forall|i: int| 0 <= i < leaves.len() implies stands_at(FOLD_TAG@, inputs, #[trigger] leaves[i], 0) by {
        let x = leaf_bytes(list[i], entries[list[i]]);
        assert(inputs.contains(x));
        lemma_leaf_length(list[i], entries[list[i]]);
        assert(blake3_digest(x) == leaves[i]);
    }
    assert forall|i: int, j: int| 0 <= i < leaves.len() && 0 <= j < leaves.len() && i != j implies leaves[i]
        != leaves[j] by {
        let (x, y) = (leaf_bytes(list[i], entries[list[i]]), leaf_bytes(list[j], entries[list[j]]));
        assert(inputs.contains(x) && inputs.contains(y));
        assert(list.to_set().contains(list[i]) && list.to_set().contains(list[j]));
        law_leaf_binds_the_entry(list[i], entries[list[i]], list[j], entries[list[j]]);
        law_leaf_binds_the_entry(list[j], entries[list[j]], list[i], entries[list[i]]);
    }
    assert forall|x: Seq<u8>| fold_inputs(FOLD_TAG@, leaves).contains(x) implies inputs.contains(x) by {
        assert(entry_inputs(list, entries).contains(x));
    }
}

/// Equal roots over entries mean equal ids and entries.
proof fn lemma_entries_root_binds(
    inputs: Set<Seq<u8>>,
    a: Set<Digest>,
    x: Map<Digest, Entry>,
    b: Set<Digest>,
    y: Map<Digest, Entry>,
)
    requires
        a.finite(),
        b.finite(),
        apart(inputs),
        never_zero(inputs),
        entry_inputs(sorted_members(a), x).subset_of(inputs),
        entry_inputs(sorted_members(b), y).subset_of(inputs),
        forall|i: Digest| #[trigger] a.contains(i) ==> (x[i] matches Entry::Domain(st) ==> normal(st) == st),
        forall|i: Digest| #[trigger] b.contains(i) ==> (y[i] matches Entry::Domain(st) ==> normal(st) == st),
        entries_root(a, x) == entries_root(b, y),
    ensures
        a == b,
        forall|i: Digest| #[trigger] a.contains(i) ==> x[i] == y[i],
{
    let (p, q) = (sorted_members(a), sorted_members(b));
    lemma_entry_level(inputs, a, x);
    lemma_entry_level(inputs, b, y);
    let (u, v) = (leaves_at(p, x), leaves_at(q, y));
    lemma_root_binds_the_list(inputs, u, v);
    assert(p.len() == u.len() && q.len() == v.len());
    assert forall|i: int| 0 <= i < p.len() implies #[trigger] p[i] == q[i] && x[p[i]] == y[p[i]] by {
        let (f, g) = (leaf_bytes(p[i], x[p[i]]), leaf_bytes(q[i], y[q[i]]));
        assert(inputs.contains(f) && inputs.contains(g));
        assert(p.to_set().contains(p[i]) && q.to_set().contains(q[i]));
        assert(u[i] == v[i]);
        law_leaf_binds_the_entry(p[i], x[p[i]], q[i], y[q[i]]);
        law_leaf_binds_the_entry(q[i], y[q[i]], p[i], x[p[i]]);
    }
    assert(p =~= q);
    assert forall|i: Digest| #[trigger] a.contains(i) implies x[i] == y[i] by {
        assert(p.to_set().contains(i));
        let k = choose|k: int| 0 <= k < p.len() && p[k] == i;
        assert(p[k] == q[k]);
    }
}

/// The archive root binds the registry, the owners and the bans: two states
/// with one archive root agree on them, as long as no two of the byte strings
/// hashed for the two roots have one digest, and none the all-zero one.
pub proof fn law_archive_root_binds_the_state(a: StateModel, b: StateModel)
    requires
        coherent(a),
        coherent(b),
        a.owner_refs.dom().finite(),
        b.owner_refs.dom().finite(),
        a.banned.finite(),
        b.banned.finite(),
        apart(archive_inputs(a).union(archive_inputs(b))),
        never_zero(archive_inputs(a).union(archive_inputs(b))),
        archive_root(a) == archive_root(b),
    ensures
        a.entries == b.entries,
        a.owner_refs.dom() == b.owner_refs.dom(),
        a.banned == b.banned,
{
    let inputs = archive_inputs(a).union(archive_inputs(b));
    let (x, y) = (archive_bytes(a), archive_bytes(b));
    assert(archive_inputs(a).contains(x) && archive_inputs(b).contains(y));
    assert(inputs.contains(x) && inputs.contains(y));
    let (da, db) = (domains_in(a.entries), domains_in(b.entries));
    let (ta, tb) = (tlds_in(a.entries), tlds_in(b.entries));
    let (r1, s1) = (entries_root(da, a.entries), entries_root(db, b.entries));
    let (r2, s2) = (entries_root(ta, a.entries), entries_root(tb, b.entries));
    let (r3, s3) = (set_root(OWNER_LEAF_TAG@, a.owner_refs.dom()), set_root(OWNER_LEAF_TAG@, b.owner_refs.dom()));
    let (r4, s4) = (set_root(BAN_LEAF_TAG@, a.banned), set_root(BAN_LEAF_TAG@, b.banned));
    assert(x.subrange(14, 46) =~= r1@ && y.subrange(14, 46) =~= s1@);
    assert(x.subrange(46, 78) =~= r2@ && y.subrange(46, 78) =~= s2@);
    assert(x.subrange(78, 110) =~= r3@ && y.subrange(78, 110) =~= s3@);
    assert(x.subrange(110, 142) =~= r4@ && y.subrange(110, 142) =~= s4@);
    lemma_same_bytes(r1, s1);
    lemma_same_bytes(r2, s2);
    lemma_same_bytes(r3, s3);
    lemma_same_bytes(r4, s4);
    lemma_entries_root_binds(inputs, da, a.entries, db, b.entries);
    lemma_entries_root_binds(inputs, ta, a.entries, tb, b.entries);
    lemma_set_root_binds(inputs, OWNER_LEAF_TAG@, a.owner_refs.dom(), b.owner_refs.dom());
    lemma_set_root_binds(inputs, BAN_LEAF_TAG@, a.banned, b.banned);
    assert forall|id: Digest| #[trigger] a.entries.contains_key(id) implies b.entries.contains_key(id)
        && a.entries[id] == b.entries[id] by {
        assert(da.contains(id) || ta.contains(id));
    }
    assert forall|id: Digest| #[trigger] b.entries.contains_key(id) implies a.entries.contains_key(id) by {
        assert(db.contains(id) || tb.contains(id));
    }
    assert(a.entries =~= b.entries);
}

// ---- Roots of lists, keys, genesis ----------------------------------------------

/// What the first encoding error of some transactions is.
proof fn lemma_unencodable(txs: Seq<TxModel>)
    ensures
        first_encoding_error(txs) is None <==> forall|i: int| 0 <= i < txs.len() ==> tx_id(#[trigger] txs[i]) is Ok,
        first_encoding_error(txs) matches Some(e) ==> exists|i: int|
            0 <= i < txs.len() && tx_id(#[trigger] txs[i]) == Err::<Digest, ProtocolError>(e) && forall|j: int|
                0 <= j < i ==> tx_id(#[trigger] txs[j]) is Ok,
    decreases txs.len(),
{
    if txs.len() > 0 {
        let front = txs.drop_last();
        let n = front.len() as int;
        lemma_unencodable(front);
        assert(txs[n] == txs.last());
        assert forall|i: int| 0 <= i < n implies #[trigger] front[i] == txs[i] by {}
        if first_encoding_error(front) is Some {
            let e = first_encoding_error(front)->0;
            let i = choose|i: int|
                0 <= i < front.len() && tx_id(#[trigger] front[i]) == Err::<Digest, ProtocolError>(e) && forall|j: int|
                    0 <= j < i ==> tx_id(#[trigger] front[j]) is Ok;
            assert(tx_id(txs[i]) == Err::<Digest, ProtocolError>(e));
            assert forall|j: int| 0 <= j < i implies tx_id(#[trigger] txs[j]) is Ok by {
                assert(tx_id(front[j]) is Ok);
            }
        } else {
            assert forall|j: int| 0 <= j < n implies tx_id(#[trigger] txs[j]) is Ok by {
                assert(tx_id(front[j]) is Ok);
            }
        }
    }
}

/// A list of transactions has a root exactly if each of them has an id; the
/// root is then over all ids, in order. Otherwise the first of them that has
/// none is to blame.
pub proof fn law_transaction_root(txs: Seq<TxModel>, ids: Seq<Digest>)
    requires
        ids.len() == txs.len(),
        forall|i: int|
            0 <= i < txs.len() && tx_id(#[trigger] txs[i]) is Ok ==> tx_id(txs[i]) == Ok::<Digest, ProtocolError>(
                ids[i],
            ),
    ensures
        tx_root_of(txs) is Ok <==> forall|i: int| 0 <= i < txs.len() ==> tx_id(#[trigger] txs[i]) is Ok,
        tx_root_of(txs) is Ok ==> tx_root_of(txs) == Ok::<MerkleRoot, BlockchainError>(merkle_root_of(ids)),
        tx_root_of(txs) matches Err(e) ==> exists|i: int|
            0 <= i < txs.len() && (tx_id(#[trigger] txs[i]) matches Err(x) && e == BlockchainError::Protocol(x))
                && forall|j: int| 0 <= j < i ==> tx_id(#[trigger] txs[j]) is Ok,
{
    lemma_unencodable(txs);
    if tx_root_of(txs) is Ok {
        assert(tx_ids(txs) =~= ids) by {
            assert forall|i: int| 0 <= i < txs.len() implies tx_ids(txs)[i] == ids[i] by {
                assert(tx_id(txs[i]) is Ok);
            }
        }
    } else {
        let e = first_encoding_error(txs)->0;
        let i = choose|i: int|
            0 <= i < txs.len() && tx_id(#[trigger] txs[i]) == Err::<Digest, ProtocolError>(e) && forall|j: int|
                0 <= j < i ==> tx_id(#[trigger] txs[j]) is Ok;
        assert(tx_id(txs[i]) == Err::<Digest, ProtocolError>(e));
    }
}

/// The tree key of an entry is the number that the first five bytes of its id
/// spell, the first byte most significant.
pub proof fn law_tree_key(id: Digest)
    ensures
        key_of(id) == id@[0] * 0x1_0000_0000 + id@[1] * 0x100_0000 + id@[2] * 0x1_0000 + id@[3] * 0x100 + id@[4],
{
    let s = id@.subrange(0, 5);
    lemma_key_fits(id);
    lemma_big_endian_fits(s);
    reveal_with_fuel(strings, 6);
    reveal_with_fuel(big_endian, 6);
    let s4 = s.drop_last();
    let s3 = s4.drop_last();
    let s2 = s3.drop_last();
    let s1 = s2.drop_last();
    let s0 = s1.drop_last();
    assert(big_endian(s0) == 0);
    assert(big_endian(s1) == s1.last());
    assert(big_endian(s2) == big_endian(s1) * 256 + s2.last());
    assert(big_endian(s3) == big_endian(s2) * 256 + s3.last());
    assert(big_endian(s4) == big_endian(s3) * 256 + s4.last());
    assert(big_endian(s) == big_endian(s4) * 256 + s.last());
    assert(s.last() == id@[4] && s4.last() == id@[3] && s3.last() == id@[2] && s2.last() == id@[1] && s1.last()
        == id@[0]);
}

/// A chain starts with a block at height 0, at time 0, without parent and
/// without transactions, that names its network; nothing is registered,
/// included or finalized.
pub proof fn law_genesis(p: NetworkModel)
    ensures
        ({
            let m = genesis_chain(p);
            let g = m.canonical[0];
            &&& m.canonical.len() == 1
            &&& g.header.height == 0 && g.header.timestamp == 0 && g.header.version == p.protocol.version
            &&& g.header.prev_hash == zero_digest()
            &&& g.txs.len() == 0 && g.header.tx_root == merkle_root_of(Seq::empty())
            &&& hash_of_header(g.header) == Ok::<BlockHash, BlockchainError>(m.tip)
            &&& m.known.dom() == set![0u64] && m.known[0] == m.tip
            &&& m.state.entries.dom() == Set::<Digest>::empty() && m.state.banned == Set::<PublicKey>::empty()
            &&& m.included.dom() == Set::<Digest>::empty()
            &&& m.checkpoints.len() == 0 && m.finalized is None && m.base_height == 0
            &&& m.network == p
        }),
{
    assert(genesis_chain(p).known.dom() =~= set![0u64]);
}

} // verus!

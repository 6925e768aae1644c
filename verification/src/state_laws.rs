//! Laws of the chain state: what every operation keeps, and what the undo
//! journal restores.
use vstd::prelude::*;
use crate::entry::DomainState;
use crate::entry::Entry;
use crate::entry::TldState;
use crate::entry::entry_leaf;
use crate::entry::lemma_leaf_normal;
use crate::entry::normal;
use crate::error::BlockchainError;
use crate::expiry::due_pairs;
use crate::expiry::pair_before;
use crate::expiry::pairs_ascending;
use crate::ids::Digest;
use crate::ids::DomainId;
use crate::ids::OwnerId;
use crate::ids::PublicKey;
use crate::ids::TldId;
use crate::ids::lemma_ordinal_injective;
use crate::ids::ordinal;
use crate::smt::key_of;
use crate::smt_model::Leaves;
use crate::smt_model::with_leaf;
use crate::smt_model::without_leaf;
use crate::state::ChainState;
use crate::state::law_equal_states_store_one_tree;
use crate::state::smt_state_root;
use crate::state_model::StateModel;
use crate::state_model::UndoEntry;
use crate::state_model::acquire;
use crate::state_model::collect_fold;
use crate::state_model::collect_log;
use crate::state_model::collected;
use crate::state_model::dequeued;
use crate::state_model::empty_state;
use crate::state_model::fresh_domain;
use crate::state_model::release;
use crate::state_model::tx_applied;
use crate::state_model::tx_fault;
use crate::state_model::tx_log;
use crate::state_model::undone;
use crate::state_model::undone_one;
use crate::types::NetworkId;
use crate::types::TxBody;
use crate::types::TxModel;

verus! {

/// Owner of an entry.
pub open spec fn entry_owner(e: Entry) -> OwnerId {
    match e {
        Entry::Domain(st) => st.owner,
        Entry::Tld(st) => st.owner,
    }
}

/// Ids that `owner` holds.
pub open spec fn owned(entries: Map<Digest, Entry>, owner: OwnerId) -> Set<Digest> {
    entries.dom().filter(|id: Digest| entry_owner(entries[id]) == owner)
}

/// Whether some entry has the tree key `k` and, if given, the leaf.
pub open spec fn has_leaf(entries: Map<Digest, Entry>, k: u64, leaf: Digest) -> bool {
    exists|id: Digest| #[trigger]
        entries.contains_key(id) && key_of(id) == k && entry_leaf(id, entries[id]) == leaf
}

/// Whether some entry has the tree key `k`.
pub open spec fn has_key(entries: Map<Digest, Entry>, k: u64) -> bool {
    exists|id: Digest| #[trigger] entries.contains_key(id) && key_of(id) == k
}

/// The content of the commitment tree that the entries call for: under each
/// key the leaves of the entries with that key.
pub open spec fn commitment(entries: Map<Digest, Entry>) -> Leaves {
    Map::new(
        |k: u64| has_key(entries, k),
        |k: u64| Set::new(|leaf: Digest| has_leaf(entries, k, leaf)),
    )
}

/// No two entries with one tree key have the same leaf: their encodings
/// have different digests.
pub open spec fn leaves_apart(entries: Map<Digest, Entry>) -> bool {
    forall|a: Digest, b: Digest|
        #![trigger entries.contains_key(a), entries.contains_key(b)]
        entries.contains_key(a) && entries.contains_key(b) && a != b && key_of(a) == key_of(b)
            ==> entry_leaf(a, entries[a]) != entry_leaf(b, entries[b])
}

/// The owner counts are the numbers of entries per owner.
pub open spec fn refs_ok(refs: Map<OwnerId, u64>, entries: Map<Digest, Entry>) -> bool {
    forall|o: OwnerId|
        #![trigger refs.contains_key(o)]
        #![trigger owned(entries, o)]
        (refs.contains_key(o) <==> owned(entries, o).len() > 0) && (refs.contains_key(o) ==> refs[o]
            == owned(entries, o).len())
}

/// Ids of the domain entries.
pub open spec fn domains_in(entries: Map<Digest, Entry>) -> Set<Digest> {
    entries.dom().filter(|id: Digest| entries[id] is Domain)
}

/// Ids of the namespace entries.
pub open spec fn tlds_in(entries: Map<Digest, Entry>) -> Set<Digest> {
    entries.dom().filter(|id: Digest| entries[id] is Tld)
}

/// The indexes beside the entries agree with them: counters, owner counts,
/// commitment tree.
pub open spec fn indexed(s: StateModel) -> bool {
    &&& s.entries.dom().finite()
    &&& s.domain_count == domains_in(s.entries).len()
    &&& s.tld_count == tlds_in(s.entries).len()
    &&& refs_ok(s.owner_refs, s.entries)
    &&& s.leaves == commitment(s.entries)
    &&& forall|id: Digest| #[trigger]
        s.entries.contains_key(id) ==> (s.entries[id] matches Entry::Domain(st) ==> normal(st) == st)
}

/// The pairs that the queue should hold.
pub open spec fn pending(entries: Map<Digest, Entry>) -> Set<(u64, DomainId)> {
    Set::new(
        |p: (u64, DomainId)|
            entries.contains_key(p.1) && (entries[p.1] matches Entry::Domain(st) && st.valid_until == p.0),
    )
}

/// Everything beside the entries agrees with them: the indexes, the
/// expiration queue, and no live domain has a grace entry.
pub open spec fn coherent(s: StateModel) -> bool {
    &&& indexed(s)
    &&& s.queue == pending(s.entries)
    &&& forall|id: DomainId| #[trigger] s.grace.contains_key(id) ==> s.domain(id) is None
}

/// The counters are not at their limits.
pub open spec fn has_room(s: StateModel) -> bool {
    &&& s.domain_count < usize::MAX
    &&& s.tld_count < usize::MAX
    &&& forall|o: OwnerId| #[trigger] s.owner_refs.contains_key(o) ==> s.owner_refs[o] < u64::MAX
}

// ---- Commitment --------------------------------------------------------

/// A new entry adds its leaf to the commitment.
pub proof fn lemma_commit_insert(entries: Map<Digest, Entry>, id: Digest, e: Entry)
    requires
        !entries.contains_key(id),
    ensures
        commitment(entries.insert(id, e)) == with_leaf(commitment(entries), key_of(id), entry_leaf(id, e)),
{
    let more = entries.insert(id, e);
    let a = commitment(more);
    let b = with_leaf(commitment(entries), key_of(id), entry_leaf(id, e));
    assert(more.contains_key(id));
    assert forall|k: u64| a.contains_key(k) == b.contains_key(k) by {
        if has_key(entries, k) {
            let x = choose|x: Digest| #[trigger] entries.contains_key(x) && key_of(x) == k;
            assert(more.contains_key(x));
        }
        if has_key(more, k) {
            let x = choose|x: Digest| #[trigger] more.contains_key(x) && key_of(x) == k;
            if x != id {
                assert(entries.contains_key(x));
            }
        }
    }
    assert forall|k: u64| a.contains_key(k) implies a[k] == b[k] by {
        assert forall|l: Digest| a[k].contains(l) == b[k].contains(l) by {
            if has_leaf(entries, k, l) {
                let x = choose|x: Digest| #[trigger]
                    entries.contains_key(x) && key_of(x) == k && entry_leaf(x, entries[x]) == l;
                assert(more.contains_key(x));
                assert(has_key(entries, k));
            }
            if has_leaf(more, k, l) {
                let x = choose|x: Digest| #[trigger]
                    more.contains_key(x) && key_of(x) == k && entry_leaf(x, more[x]) == l;
                if x != id {
                    assert(entries.contains_key(x));
                    assert(has_key(entries, k));
                    assert(has_leaf(entries, k, l));
                }
            }
            if k == key_of(id) && l == entry_leaf(id, e) {
                assert(has_leaf(more, k, l));
            }
        }
        assert(a[k] =~= b[k]);
    }
    assert(a =~= b);
}

proof fn lemma_commit_remove(entries: Map<Digest, Entry>, id: Digest)
    requires
        entries.contains_key(id),
        leaves_apart(entries),
    ensures
        commitment(entries.remove(id)) == without_leaf(
            commitment(entries),
            key_of(id),
            entry_leaf(id, entries[id]),
        ),
{
    let less = entries.remove(id);
    let k0 = key_of(id);
    let l0 = entry_leaf(id, entries[id]);
    let c = commitment(entries);
    let a = commitment(less);
    let b = without_leaf(c, k0, l0);
    assert(has_key(entries, k0) && has_leaf(entries, k0, l0));
    assert(c[k0].contains(l0));
    assert(has_key(less, k0) <==> c[k0].remove(l0) != Set::<Digest>::empty()) by {
        if has_key(less, k0) {
            let x = choose|x: Digest| #[trigger] less.contains_key(x) && key_of(x) == k0;
            assert(entries.contains_key(x));
            let l = entry_leaf(x, entries[x]);
            assert(has_leaf(entries, k0, l));
            assert(l != l0);
            assert(c[k0].remove(l0).contains(l));
        }
        if c[k0].remove(l0) != Set::<Digest>::empty() {
            assert(exists|l: Digest| c[k0].remove(l0).contains(l)) by {
                if forall|l: Digest| !c[k0].remove(l0).contains(l) {
                    assert(c[k0].remove(l0) =~= Set::empty());
                }
            }
            let l = choose|l: Digest| c[k0].remove(l0).contains(l);
            assert(has_leaf(entries, k0, l));
            let x = choose|x: Digest| #[trigger]
                entries.contains_key(x) && key_of(x) == k0 && entry_leaf(x, entries[x]) == l;
            assert(x != id);
            assert(less.contains_key(x));
        }
    }
    assert forall|k: u64| a.contains_key(k) == b.contains_key(k) by {
        if k != k0 {
            if has_key(entries, k) {
                let x = choose|x: Digest| #[trigger] entries.contains_key(x) && key_of(x) == k;
                assert(less.contains_key(x));
            }
            if has_key(less, k) {
                let x = choose|x: Digest| #[trigger] less.contains_key(x) && key_of(x) == k;
                assert(entries.contains_key(x));
            }
        }
    }
    assert forall|k: u64| a.contains_key(k) implies a[k] == b[k] by {
        assert(has_key(less, k));
        assert forall|l: Digest| a[k].contains(l) == b[k].contains(l) by {
            if has_leaf(less, k, l) {
                let x = choose|x: Digest| #[trigger]
                    less.contains_key(x) && key_of(x) == k && entry_leaf(x, less[x]) == l;
                assert(entries.contains_key(x));
                assert(has_leaf(entries, k, l));
                assert(has_key(entries, k));
            }
            if has_key(entries, k) && has_leaf(entries, k, l) && !(k == k0 && l == l0) {
                let x = choose|x: Digest| #[trigger]
                    entries.contains_key(x) && key_of(x) == k && entry_leaf(x, entries[x]) == l;
                assert(less.contains_key(x));
            }
        }
        assert(a[k] =~= b[k]);
    }
    assert(a =~= b);
}

// ---- Owner counts and counters ------------------------------------------

proof fn lemma_owned_insert(entries: Map<Digest, Entry>, id: Digest, e: Entry)
    requires
        !entries.contains_key(id),
    ensures
        owned(entries.insert(id, e), entry_owner(e)) == owned(entries, entry_owner(e)).insert(id),
        forall|o: OwnerId|
            o != entry_owner(e) ==> #[trigger] owned(entries.insert(id, e), o) == owned(entries, o),
        !owned(entries, entry_owner(e)).contains(id),
        e is Domain ==> domains_in(entries.insert(id, e)) == domains_in(entries).insert(id) && tlds_in(
            entries.insert(id, e),
        ) == tlds_in(entries),
        e is Tld ==> tlds_in(entries.insert(id, e)) == tlds_in(entries).insert(id) && domains_in(
            entries.insert(id, e),
        ) == domains_in(entries),
        !domains_in(entries).contains(id),
        !tlds_in(entries).contains(id),
{
    let more = entries.insert(id, e);
    assert(owned(more, entry_owner(e)) =~= owned(entries, entry_owner(e)).insert(id));
    assert forall|o: OwnerId| o != entry_owner(e) implies #[trigger] owned(more, o) == owned(entries, o) by {
        assert(owned(more, o) =~= owned(entries, o));
    }
    if e is Domain {
        assert(domains_in(more) =~= domains_in(entries).insert(id));
        assert(tlds_in(more) =~= tlds_in(entries));
    } else {
        assert(tlds_in(more) =~= tlds_in(entries).insert(id));
        assert(domains_in(more) =~= domains_in(entries));
    }
}

proof fn lemma_refs_insert(refs: Map<OwnerId, u64>, entries: Map<Digest, Entry>, id: Digest, e: Entry)
    requires
        refs_ok(refs, entries),
        !entries.contains_key(id),
        entries.dom().finite(),
        refs.contains_key(entry_owner(e)) ==> refs[entry_owner(e)] < u64::MAX,
    ensures
        refs_ok(acquire(refs, entry_owner(e)), entries.insert(id, e)),
{
    let more = entries.insert(id, e);
    let owner = entry_owner(e);
    let refs2 = acquire(refs, owner);
    lemma_owned_insert(entries, id, e);
    assert(owned(entries, owner).finite());
    assert forall|o: OwnerId|
        (refs2.contains_key(o) <==> #[trigger] owned(more, o).len() > 0) && (refs2.contains_key(o) ==> refs2[o]
            == owned(more, o).len()) by {
        assert(refs.contains_key(o) <==> owned(entries, o).len() > 0);
        if o != owner {
            assert(owned(more, o) == owned(entries, o));
        }
    }
    assert forall|o: OwnerId|
        (#[trigger] refs2.contains_key(o) <==> owned(more, o).len() > 0) && (refs2.contains_key(o) ==> refs2[o]
            == owned(more, o).len()) by {
        assert(owned(more, o).len() >= 0);
    }
}

proof fn lemma_refs_remove(refs: Map<OwnerId, u64>, entries: Map<Digest, Entry>, id: Digest)
    requires
        refs_ok(refs, entries),
        entries.contains_key(id),
        entries.dom().finite(),
    ensures
        refs_ok(release(refs, entry_owner(entries[id])), entries.remove(id)),
{
    let less = entries.remove(id);
    let e = entries[id];
    let owner = entry_owner(e);
    let refs2 = release(refs, owner);
    lemma_owned_insert(less, id, e);
    assert(less.insert(id, e) =~= entries);
    assert(owned(less, owner).finite());
    assert forall|o: OwnerId|
        (refs2.contains_key(o) <==> #[trigger] owned(less, o).len() > 0) && (refs2.contains_key(o) ==> refs2[o]
            == owned(less, o).len()) by {
        assert(refs.contains_key(o) <==> owned(entries, o).len() > 0);
        if o != owner {
            assert(owned(entries, o) == owned(less, o));
        }
    }
    assert forall|o: OwnerId|
        (#[trigger] refs2.contains_key(o) <==> owned(less, o).len() > 0) && (refs2.contains_key(o) ==> refs2[o]
            == owned(less, o).len()) by {
        assert(owned(less, o).len() >= 0);
    }
}

/// The owner counts are determined by the entries.
proof fn lemma_refs_unique(a: Map<OwnerId, u64>, b: Map<OwnerId, u64>, entries: Map<Digest, Entry>)
    requires
        refs_ok(a, entries),
        refs_ok(b, entries),
    ensures
        a == b,
{
    assert forall|o: OwnerId| a.contains_key(o) == b.contains_key(o) by {
        assert(a.contains_key(o) <==> owned(entries, o).len() > 0);
        assert(b.contains_key(o) <==> owned(entries, o).len() > 0);
    }
    assert forall|o: OwnerId| a.contains_key(o) implies a[o] == b[o] by {
        assert(a[o] == owned(entries, o).len());
        assert(b[o] == owned(entries, o).len());
    }
    assert(a =~= b);
}

// ---- Single changes -----------------------------------------------------

proof fn lemma_add_domain(s: StateModel, id: DomainId, st: DomainState)
    requires
        indexed(s),
        has_room(s),
        !s.entries.contains_key(id),
        normal(st) == st,
    ensures
        indexed(s.with_new_domain(id, st)),
{
    let e = Entry::Domain(st);
    lemma_commit_insert(s.entries, id, e);
    lemma_refs_insert(s.owner_refs, s.entries, id, e);
    lemma_owned_insert(s.entries, id, e);
    assert(domains_in(s.entries).finite());
}

proof fn lemma_add_tld(s: StateModel, id: TldId, st: TldState)
    requires
        indexed(s),
        has_room(s),
        !s.entries.contains_key(id),
    ensures
        indexed(s.with_new_tld(id, st)),
{
    let e = Entry::Tld(st);
    lemma_commit_insert(s.entries, id, e);
    lemma_refs_insert(s.owner_refs, s.entries, id, e);
    lemma_owned_insert(s.entries, id, e);
    assert(tlds_in(s.entries).finite());
}

proof fn lemma_drop_domain(s: StateModel, id: DomainId, st: DomainState)
    requires
        indexed(s),
        leaves_apart(s.entries),
        s.domain(id) == Some(st),
    ensures
        indexed(s.without_domain(id, st)),
        leaves_apart(s.without_domain(id, st).entries),
{
    let less = s.entries.remove(id);
    lemma_commit_remove(s.entries, id);
    lemma_refs_remove(s.owner_refs, s.entries, id);
    lemma_owned_insert(less, id, Entry::Domain(st));
    assert(less.insert(id, Entry::Domain(st)) =~= s.entries);
    assert(domains_in(less).finite());
}

proof fn lemma_drop_tld(s: StateModel, id: TldId, st: TldState)
    requires
        indexed(s),
        leaves_apart(s.entries),
        s.tld(id) == Some(st),
    ensures
        indexed(s.without_tld(id, st)),
        leaves_apart(s.without_tld(id, st).entries),
{
    let less = s.entries.remove(id);
    lemma_commit_remove(s.entries, id);
    lemma_refs_remove(s.owner_refs, s.entries, id);
    lemma_owned_insert(less, id, Entry::Tld(st));
    assert(less.insert(id, Entry::Tld(st)) =~= s.entries);
    assert(tlds_in(less).finite());
}

/// Replacing an entry by one of the same kind: leaf swapped, and the owner
/// counts moved (they stay if the owner stays).
proof fn lemma_replace(s: StateModel, id: Digest, e: Entry)
    requires
        indexed(s),
        has_room(s),
        leaves_apart(s.entries),
        s.entries.contains_key(id),
        s.entries[id] is Domain == e is Domain,
        e matches Entry::Domain(st) ==> normal(st) == st,
    ensures
        indexed(
            StateModel {
                entries: s.entries.insert(id, e),
                leaves: s.releafed(
                    id,
                    Some(entry_leaf(id, s.entries[id])),
                    Some(entry_leaf(id, e)),
                ),
                owner_refs: acquire(release(s.owner_refs, entry_owner(s.entries[id])), entry_owner(e)),
                ..s
            },
        ),
        entry_owner(s.entries[id]) == entry_owner(e) ==> acquire(
            release(s.owner_refs, entry_owner(s.entries[id])),
            entry_owner(e),
        ) == s.owner_refs,
{
    let prior = s.entries[id];
    let less = s.entries.remove(id);
    let more = less.insert(id, e);
    assert(more =~= s.entries.insert(id, e));
    lemma_commit_remove(s.entries, id);
    lemma_commit_insert(less, id, e);
    lemma_refs_remove(s.owner_refs, s.entries, id);
    let refs = release(s.owner_refs, entry_owner(prior));
    assert(refs.contains_key(entry_owner(e)) ==> refs[entry_owner(e)] < u64::MAX) by {
        if refs.contains_key(entry_owner(e)) {
            let o = entry_owner(e);
            assert(s.owner_refs.contains_key(o));
            assert(s.owner_refs[o] < u64::MAX);
            if o == entry_owner(prior) {
                assert(s.owner_refs[o] > 1);
                assert(refs[o] == s.owner_refs[o] - 1);
            } else {
                assert(refs[o] == s.owner_refs[o]);
            }
        }
    }
    lemma_refs_insert(refs, less, id, e);
    lemma_owned_insert(less, id, e);
    lemma_owned_insert(less, id, prior);
    assert(less.insert(id, prior) =~= s.entries);
    assert(domains_in(less).finite());
    assert(tlds_in(less).finite());
    if entry_owner(prior) == entry_owner(e) {
        let o = entry_owner(e);
        assert(owned(s.entries, o) == owned(less, o).insert(id));
        assert(owned(less, o).finite());
        assert(s.owner_refs.contains_key(o));
        assert(acquire(refs, o) =~= s.owner_refs);
    }
}

/// What is determined by the entries: two states that agree with the same
/// entries differ at most in keys, grace and bans.
proof fn lemma_determined(a: StateModel, b: StateModel)
    requires
        indexed(a),
        indexed(b),
        a.entries == b.entries,
        a.queue == b.queue,
        a.owner_keys == b.owner_keys,
        a.grace == b.grace,
        a.banned == b.banned,
    ensures
        a == b,
{
    lemma_refs_unique(a.owner_refs, b.owner_refs, a.entries);
}

// ---- Transactions -------------------------------------------------------

/// A registration does not reuse an id of the other kind: domain and
/// namespace ids have different derivations.
pub open spec fn kinds_apart(s: StateModel, tx: TxModel) -> bool {
    match tx.body {
        TxBody::RegisterDomain { name, domain_id, parent } => s.tld(domain_id) is None,
        TxBody::AssignDomain { name, domain_id, parent, assignee } => s.tld(domain_id) is None,
        TxBody::RegisterTld { name, tld_id } => s.domain(tld_id) is None,
        _ => true,
    }
}

/// Applying `tx` meets no digest collision, no id of the other kind and no
/// counter limit.
pub open spec fn clear_step(s: StateModel, tx: TxModel, now: u64) -> bool {
    &&& leaves_apart(s.entries)
    &&& leaves_apart(tx_applied(s, tx, now).entries)
    &&& kinds_apart(s, tx)
    &&& has_room(s)
    &&& has_room(tx_applied(s, tx, now))
}

/// Every transaction keeps the indexes, the queue and the grace entries in
/// agreement with the registered entries; in particular the maintained tree
/// is the commitment of the entries.
pub proof fn law_apply_keeps_coherence(s: StateModel, net: NetworkId, tx: TxModel, now: u64)
    requires
        coherent(s),
        tx_fault(s, net, tx, now) is None,
        clear_step(s, tx, now),
    ensures
        coherent(tx_applied(s, tx, now)),
{
    let t = tx_applied(s, tx, now);
    match tx.body {
        TxBody::RegisterDomain { name, domain_id, parent } => {
            let l = s.learned(tx.owner, tx.public_key);
            let g = StateModel { grace: l.grace.remove(domain_id), ..l };
            let st = fresh_domain(tx.owner, now);
            assert(!s.entries.contains_key(domain_id));
            lemma_add_domain(g, domain_id, st);
            lemma_registered(g, domain_id, st);
        },
        TxBody::AssignDomain { name, domain_id, parent, assignee } => {
            let g = StateModel { grace: s.grace.remove(domain_id), ..s };
            let st = fresh_domain(assignee, now);
            assert(!s.entries.contains_key(domain_id));
            lemma_add_domain(g, domain_id, st);
            lemma_registered(g, domain_id, st);
        },
        TxBody::UpdateDomain { domain_id, sequence, record_hash } => {
            let prior = s.domain(domain_id)->0;
            let next = DomainState { sequence, record_hash: Some(record_hash), ..prior };
            lemma_leaf_normal(domain_id, next);
            lemma_replace(s, domain_id, Entry::Domain(normal(next)));
            assert(t.owner_refs == s.owner_refs);
            assert(pending(t.entries) =~= pending(s.entries));
        },
        TxBody::RegisterTld { name, tld_id } => {
            let l = s.learned(tx.owner, tx.public_key);
            assert(!s.entries.contains_key(tld_id));
            lemma_add_tld(l, tld_id, TldState { owner: tx.owner, open: false });
            assert(pending(t.entries) =~= pending(s.entries));
        },
        TxBody::TransferTld { tld_id, new_owner } => {
            let prior = s.tld(tld_id)->0;
            lemma_replace(s, tld_id, Entry::Tld(TldState { owner: new_owner, ..prior }));
            assert(pending(t.entries) =~= pending(s.entries));
        },
        TxBody::RevokeTld { tld_id } => {
            lemma_drop_tld(s, tld_id, s.tld(tld_id)->0);
            assert(pending(t.entries) =~= pending(s.entries));
        },
        TxBody::SetTldOpen { tld_id, open } => {
            let prior = s.tld(tld_id)->0;
            lemma_replace(s, tld_id, Entry::Tld(TldState { open, ..prior }));
            assert(pending(t.entries) =~= pending(s.entries));
        },
        TxBody::RenewDomain { domain_id, valid_until } => {
            let prior = s.domain(domain_id)->0;
            let next = DomainState { valid_until, ..prior };
            assert(normal(prior) == prior);
            lemma_replace(s, domain_id, Entry::Domain(next));
            assert(t.queue =~= pending(t.entries));
        },
        TxBody::Slash { offender } => {
            assert(pending(t.entries) =~= pending(s.entries));
        },
    }
}

proof fn lemma_registered(g: StateModel, id: DomainId, st: DomainState)
    requires
        g.queue == pending(g.entries),
        g.domain(id) is None,
        normal(st) == st,
        forall|x: DomainId| #[trigger] g.grace.contains_key(x) ==> g.domain(x) is None && x != id,
    ensures
        ({
            let t = g.with_new_domain(id, st);
            &&& t.queue == pending(t.entries)
            &&& forall|x: DomainId| #[trigger] t.grace.contains_key(x) ==> t.domain(x) is None
        }),
{
    let t = g.with_new_domain(id, st);
    assert(t.queue =~= pending(t.entries));
}

/// Rolling back what a transaction journaled restores the exact state,
/// commitment tree and indexes included.
pub proof fn law_rollback_undoes_apply(s: StateModel, net: NetworkId, tx: TxModel, now: u64)
    requires
        coherent(s),
        tx_fault(s, net, tx, now) is None,
        clear_step(s, tx, now),
    ensures
        undone(tx_applied(s, tx, now), tx_log(s, tx)) == s,
{
    let t = tx_applied(s, tx, now);
    let log = tx_log(s, tx);
    law_apply_keeps_coherence(s, net, tx, now);
    match tx.body {
        TxBody::RegisterDomain { name, domain_id, parent } => {
            lemma_undo_register(s.learned(tx.owner, tx.public_key), t, domain_id, fresh_domain(tx.owner, now));
            assert(log.drop_last() =~= s.learn_log(tx.owner));
            lemma_undo_learn(s, t, log, tx.owner, tx.public_key);
        },
        TxBody::AssignDomain { name, domain_id, parent, assignee } => {
            lemma_undo_register(s, t, domain_id, fresh_domain(assignee, now));
            lemma_undone_single(t, log);
        },
        TxBody::UpdateDomain { domain_id, sequence, record_hash } => {
            let l = s.learned(tx.owner, tx.public_key);
            let prior = s.domain(domain_id)->0;
            assert(normal(prior) == prior);
            let u = undone_one(t, log.last());
            lemma_replace(t, domain_id, Entry::Domain(prior));
            assert(u.entries =~= s.entries);
            lemma_determined(u, l);
            assert(log.drop_last() =~= s.learn_log(tx.owner));
            lemma_undo_learn(s, t, log, tx.owner, tx.public_key);
        },
        TxBody::RegisterTld { name, tld_id } => {
            let l = s.learned(tx.owner, tx.public_key);
            let u = undone_one(t, log.last());
            lemma_drop_tld(t, tld_id, t.tld(tld_id)->0);
            assert(u.entries =~= s.entries);
            lemma_determined(u, l);
            assert(log.drop_last() =~= s.learn_log(tx.owner));
            lemma_undo_learn(s, t, log, tx.owner, tx.public_key);
        },
        TxBody::TransferTld { tld_id, new_owner } => {
            lemma_undo_mutate_tld(s, t, tld_id);
            lemma_undone_single(t, log);
        },
        TxBody::SetTldOpen { tld_id, open } => {
            lemma_undo_mutate_tld(s, t, tld_id);
            lemma_undone_single(t, log);
        },
        TxBody::RevokeTld { tld_id } => {
            let prior = s.tld(tld_id)->0;
            lemma_add_tld(t, tld_id, prior);
            let u = undone_one(t, log.last());
            assert(u.entries =~= s.entries);
            lemma_determined(u, s);
            lemma_undone_single(t, log);
        },
        TxBody::RenewDomain { domain_id, valid_until } => {
            let prior = s.domain(domain_id)->0;
            assert(normal(prior) == prior);
            lemma_replace(t, domain_id, Entry::Domain(prior));
            let u = undone_one(t, log.last());
            assert(u.entries =~= s.entries);
            assert(s.queue.contains((prior.valid_until, domain_id)));
            assert(!s.queue.contains((valid_until, domain_id)));
            assert(u.queue =~= s.queue);
            lemma_determined(u, s);
            lemma_undone_single(t, log);
        },
        TxBody::Slash { offender } => {
            if s.banned.contains(offender) {
                assert(s.banned.insert(offender) =~= s.banned);
                assert(log =~= Seq::<UndoEntry>::empty());
            } else {
                assert(s.banned.insert(offender).remove(offender) =~= s.banned);
                lemma_undone_single(t, log);
            }
        },
    }
}

proof fn lemma_undone_single(t: StateModel, log: Seq<UndoEntry>)
    requires
        log.len() == 1,
    ensures
        undone(t, log) == undone_one(t, log.last()),
{
    assert(log.drop_last() =~= Seq::<UndoEntry>::empty());
    reveal_with_fuel(undone, 2);
}

proof fn lemma_undo_register(l: StateModel, t: StateModel, id: DomainId, st: DomainState)
    requires
        coherent(l),
        has_room(l),
        !l.entries.contains_key(id),
        normal(st) == st,
        t == (StateModel { grace: l.grace.remove(id), ..l }).with_new_domain(id, st),
        leaves_apart(t.entries),
        indexed(t),
    ensures
        undone_one(t, UndoEntry::RegisterDomain { domain: id, consumed_grace: l.grace_of(id) }) == l,
{
    let u = undone_one(t, UndoEntry::RegisterDomain { domain: id, consumed_grace: l.grace_of(id) });
    lemma_drop_domain(t, id, st);
    assert(u.entries =~= l.entries);
    assert(!l.queue.contains((st.valid_until, id)));
    assert(u.queue =~= l.queue);
    assert(u.grace =~= l.grace);
    lemma_determined(u, l);
}

proof fn lemma_undo_learn(s: StateModel, t: StateModel, log: Seq<UndoEntry>, owner: OwnerId, key: PublicKey)
    requires
        log.len() == s.learn_log(owner).len() + 1,
        log.drop_last() == s.learn_log(owner),
        undone_one(t, log.last()) == s.learned(owner, key),
    ensures
        undone(t, log) == s,
{
    let l = s.learned(owner, key);
    let rest = log.drop_last();
    assert(undone(t, log) == undone(l, rest));
    if s.owner_keys.contains_key(owner) {
        assert(rest =~= Seq::<UndoEntry>::empty());
    } else {
        lemma_undone_single(l, rest);
        assert(l.owner_keys.remove(owner) =~= s.owner_keys);
    }
}

proof fn lemma_undo_mutate_tld(s: StateModel, t: StateModel, tld: TldId)
    requires
        coherent(s),
        coherent(t),
        leaves_apart(t.entries),
        has_room(t),
        s.tld(tld) is Some,
        t.tld(tld) is Some,
        t.entries == s.entries.insert(tld, Entry::Tld(t.tld(tld)->0)),
        t.owner_keys == s.owner_keys,
        t.grace == s.grace,
        t.banned == s.banned,
        t.queue == s.queue,
    ensures
        undone_one(t, UndoEntry::MutateTld { tld, prior: s.tld(tld)->0 }) == s,
{
    let prior = s.tld(tld)->0;
    let u = undone_one(t, UndoEntry::MutateTld { tld, prior });
    lemma_replace(t, tld, Entry::Tld(prior));
    assert(u.entries =~= s.entries);
    lemma_determined(u, s);
}

// ---- Expiry collection ----------------------------------------------------

/// Undoing a longer journal undoes its tail first.
proof fn lemma_undone_concat(t: StateModel, a: Seq<UndoEntry>, b: Seq<UndoEntry>)
    ensures
        undone(t, a + b) == undone(undone(t, b), a),
    decreases b.len(),
{
    if b.len() == 0 {
        assert(a + b =~= a);
    } else {
        assert((a + b).drop_last() =~= a + b.drop_last());
        assert((a + b).last() == b.last());
        lemma_undone_concat(undone_one(t, b.last()), a, b.drop_last());
    }
}

/// A journal of expirations only.
spec fn only_expirations(log: Seq<UndoEntry>) -> bool {
    forall|i: int| 0 <= i < log.len() ==> (#[trigger] log[i]) is ExpireDomain
}

/// Undoing expirations leaves other queue pairs alone.
proof fn lemma_undone_queue(t: StateModel, log: Seq<UndoEntry>, x: (u64, DomainId))
    requires
        only_expirations(log),
    ensures
        undone(StateModel { queue: t.queue.insert(x), ..t }, log) == (StateModel {
            queue: undone(t, log).queue.insert(x),
            ..undone(t, log)
        }),
    decreases log.len(),
{
    if log.len() > 0 {
        let e = log.last();
        let a = undone_one(StateModel { queue: t.queue.insert(x), ..t }, e);
        let b = undone_one(t, e);
        assert(log[log.len() - 1] is ExpireDomain);
        assert(a.queue =~= b.queue.insert(x));
        assert(a =~= (StateModel { queue: b.queue.insert(x), ..b }));
        assert(only_expirations(log.drop_last())) by {
            assert forall|i: int| 0 <= i < log.drop_last().len() implies (#[trigger] log.drop_last()[i]) is ExpireDomain by {
                assert(log[i] is ExpireDomain);
            }
        }
        lemma_undone_queue(b, log.drop_last(), x);
    }
}

/// The ids of a list of pairs.
pub open spec fn pair_ids(due: Seq<(u64, DomainId)>) -> Seq<DomainId> {
    due.map_values(|p: (u64, DomainId)| p.1)
}

/// The grace entry of a registered domain once it lapses: when it expired,
/// and whose it was.
pub open spec fn lapse_of(s: StateModel, id: DomainId) -> (u64, OwnerId) {
    (s.domain(id)->0.valid_until, s.domain(id)->0.owner)
}

/// Due pairs name registered domains, each once, with their expiry.
spec fn due_ok(s: StateModel, due: Seq<(u64, DomainId)>, now: u64) -> bool {
    &&& forall|i: int|
        0 <= i < due.len() ==> {
            &&& (#[trigger] due[i]).0 <= now
            &&& s.domain(due[i].1) is Some
            &&& s.domain(due[i].1)->0.valid_until == due[i].0
        }
    &&& forall|i: int, j: int| 0 <= i < j < due.len() ==> (#[trigger] due[i]).1 != (#[trigger] due[j]).1
}

proof fn lemma_collect(s: StateModel, due: Seq<(u64, DomainId)>, now: u64)
    requires
        coherent(s),
        leaves_apart(s.entries),
        has_room(s),
        due_ok(s, due, now),
    ensures
        ({
            let s0 = dequeued(s, now);
            let (t, log, ids) = collect_fold(s0, due, now);
            &&& indexed(t)
            &&& leaves_apart(t.entries)
            &&& has_room(t)
            &&& t.queue == s0.queue
            &&& t.owner_keys == s.owner_keys
            &&& t.banned == s.banned
            &&& ids == pair_ids(due)
            &&& t.entries == s.entries.remove_keys(ids.to_set())
            &&& forall|x: DomainId| #[trigger]
                t.grace.contains_key(x) <==> s.grace.contains_key(x) || ids.contains(x)
            &&& forall|x: DomainId| #[trigger] s.grace.contains_key(x) ==> t.grace[x] == s.grace[x]
            &&& forall|x: DomainId| #[trigger] ids.contains(x) ==> t.grace[x] == lapse_of(s, x)
            &&& only_expirations(log)
            &&& log.len() == due.len()
            &&& undone(t, log) == (StateModel { queue: s0.queue.union(due.to_set()), ..s })
        }),
    decreases due.len(),
{
    let s0 = dequeued(s, now);
    let (t, log, ids) = collect_fold(s0, due, now);
    if due.len() == 0 {
        assert(ids =~= pair_ids(due));
        assert(s.entries.remove_keys(ids.to_set()) =~= s.entries);
        assert(s0.queue.union(due.to_set()) =~= s0.queue);
    } else {
        let rest = due.drop_last();
        assert(due_ok(s, rest, now)) by {
            assert forall|i: int| 0 <= i < rest.len() implies {
                &&& (#[trigger] rest[i]).0 <= now
                &&& s.domain(rest[i].1) is Some
                &&& s.domain(rest[i].1)->0.valid_until == rest[i].0
            } by {
                assert(due[i].0 <= now);
            }
            assert forall|i: int, j: int| 0 <= i < j < rest.len() implies (#[trigger] rest[i]).1 != (
            #[trigger] rest[j]).1 by {
                assert(due[i].1 != due[j].1);
            }
        }
        lemma_collect(s, rest, now);
        let (u, log1, ids1) = collect_fold(s0, rest, now);
        let id = due.last().1;
        let prior = s.domain(id)->0;
        assert(due[due.len() - 1].0 <= now);
        assert(!ids1.contains(id)) by {
            if ids1.contains(id) {
                let j = choose|j: int| 0 <= j < ids1.len() && ids1[j] == id;
                assert(rest[j].1 == id);
                assert(due[j].1 != due[due.len() - 1].1);
            }
        }
        assert(!ids1.to_set().contains(id));
        assert(u.domain(id) == Some(prior));
        assert(prior.valid_until == due.last().0);
        lemma_drop_domain(u, id, prior);
        let e = UndoEntry::ExpireDomain { domain: id, prior };
        assert(collect_log(u, id, now) =~= seq![e]);
        assert(log =~= log1.push(e));
        assert(ids =~= ids1.push(id));
        assert(ids =~= pair_ids(due));
        assert(t.entries =~= s.entries.remove_keys(ids.to_set())) by {
            assert(ids.to_set() =~= ids1.to_set().insert(id)) by {
                assert forall|x: DomainId| ids.contains(x) == (ids1.contains(x) || x == id) by {
                    if ids1.contains(x) {
                        let j = choose|j: int| 0 <= j < ids1.len() && ids1[j] == x;
                        assert(ids[j] == x);
                    }
                    if x == id {
                        assert(ids[ids.len() - 1] == x);
                    }
                    if ids.contains(x) && x != id {
                        let j = choose|j: int| 0 <= j < ids.len() && ids[j] == x;
                        assert(ids1[j] == x);
                    }
                }
            }
        }
        assert forall|x: DomainId| #[trigger] t.grace.contains_key(x) <==> s.grace.contains_key(x) || ids.contains(x) by {
            assert(u.grace.contains_key(x) <==> s.grace.contains_key(x) || ids1.contains(x));
            if ids1.contains(x) {
                let j = choose|j: int| 0 <= j < ids1.len() && ids1[j] == x;
                assert(ids[j] == x);
            }
            if x == id {
                assert(ids[ids.len() - 1] == x);
            }
            if ids.contains(x) && x != id {
                let j = choose|j: int| 0 <= j < ids.len() && ids[j] == x;
                assert(ids1[j] == x);
            }
        }
        assert forall|x: DomainId| #[trigger] s.grace.contains_key(x) implies t.grace[x] == s.grace[x] by {
            assert(s.domain(x) is None);
        }
        assert forall|x: DomainId| #[trigger] ids.contains(x) implies t.grace[x] == lapse_of(s, x) by {
            if x != id {
                let j = choose|j: int| 0 <= j < ids.len() && ids[j] == x;
                assert(ids1[j] == x);
                assert(ids1.contains(x));
            }
        }
        assert(has_room(t)) by {
            assert forall|o: OwnerId| #[trigger] t.owner_refs.contains_key(o) implies t.owner_refs[o] < u64::MAX by {
                assert(u.owner_refs.contains_key(o));
            }
        }
        let back = undone_one(t, e);
        let pair = (prior.valid_until, id);
        assert(normal(prior) == prior);
        let g = StateModel { grace: t.grace.remove(id), ..t };
        lemma_add_domain(g, id, prior);
        let want = StateModel { queue: u.queue.insert(pair), ..u };
        assert(back.entries =~= u.entries);
        assert(back.grace =~= u.grace) by {
            assert(!s.grace.contains_key(id)) by {
                if s.grace.contains_key(id) {
                    assert(s.domain(id) is None);
                }
            }
            assert(!u.grace.contains_key(id));
        }
        lemma_determined(back, want);
        lemma_undone_queue(u, log1, pair);
        assert(log.drop_last() =~= log1);
        assert(undone(t, log) == undone(back, log1));
        assert(due.to_set() =~= rest.to_set().insert(pair)) by {
            assert forall|x: (u64, DomainId)| due.contains(x) == (rest.contains(x) || x == pair) by {
                if rest.contains(x) {
                    let j = choose|j: int| 0 <= j < rest.len() && rest[j] == x;
                    assert(due[j] == x);
                }
                if x == pair {
                    assert(due[due.len() - 1] == x);
                }
                if due.contains(x) && x != pair {
                    let j = choose|j: int| 0 <= j < due.len() && due[j] == x;
                    assert(rest[j] == x);
                }
            }
        }
        assert(s0.queue.union(rest.to_set()).insert(pair) =~= s0.queue.union(due.to_set()));
        assert(only_expirations(log)) by {
            assert forall|i: int| 0 <= i < log.len() implies (#[trigger] log[i]) is ExpireDomain by {
                if i < log1.len() {
                    assert(log1[i] is ExpireDomain);
                }
            }
        }
    }
}

/// Whether a domain is registered and has expired by `now`.
pub open spec fn expired_by(s: StateModel, id: DomainId, now: u64) -> bool {
    s.domain(id) matches Some(st) && st.valid_until <= now
}

/// The expiry collection takes out exactly the domains that expired by
/// `now`, in order of expiry and then of id, keeps everything else in
/// agreement, notes for each of them when it lapsed and whose it was, leaves
/// the other grace entries as they are, and rolling its journal back restores
/// the exact state.
pub proof fn law_collection(s: StateModel, now: u64)
    requires
        coherent(s),
        s.queue.finite(),
        leaves_apart(s.entries),
        has_room(s),
    ensures
        ({
            let (t, log, ids) = collected(s, now);
            &&& coherent(t)
            &&& leaves_apart(t.entries)
            &&& has_room(t)
            &&& undone(t, log) == s
            &&& ids == pair_ids(due_pairs(s.queue, now))
            &&& pairs_ascending(due_pairs(s.queue, now))
            &&& due_pairs(s.queue, now).to_set() == s.queue.filter(|p: (u64, DomainId)| p.0 <= now)
            &&& forall|i: int|
                0 <= i < ids.len() ==> s.domain(#[trigger] ids[i]) is Some && s.domain(ids[i])->0.valid_until
                    == due_pairs(s.queue, now)[i].0
            &&& forall|id: DomainId| #[trigger]
                t.grace.contains_key(id) <==> s.grace.contains_key(id) || ids.contains(id)
            &&& forall|id: DomainId| #[trigger] ids.contains(id) ==> t.grace[id] == lapse_of(s, id)
            &&& forall|id: DomainId| #[trigger] s.grace.contains_key(id) ==> t.grace[id] == s.grace[id]
            &&& forall|id: DomainId| #[trigger] ids.contains(id) <==> expired_by(s, id, now)
            &&& t.entries == s.entries.remove_keys(ids.to_set())
            &&& forall|id: DomainId| #[trigger] t.domain(id) matches Some(st) ==> st.valid_until > now
            &&& t.owner_keys == s.owner_keys
            &&& t.banned == s.banned
        }),
{
    let due = due_pairs(s.queue, now);
    let (t, log, ids) = collected(s, now);
    let s0 = dequeued(s, now);
    lemma_due_exists(s.queue, now);
    let f = s.queue.filter(|p: (u64, DomainId)| p.0 <= now);
    assert(pairs_ascending(due) && due.to_set() == f);
    assert(due_ok(s, due, now)) by {
        assert forall|i: int| 0 <= i < due.len() implies {
            &&& (#[trigger] due[i]).0 <= now
            &&& s.domain(due[i].1) is Some
            &&& s.domain(due[i].1)->0.valid_until == due[i].0
        } by {
            assert(due.to_set().contains(due[i]));
            assert(f.contains(due[i]));
            assert(s.queue.contains(due[i]));
            assert(pending(s.entries).contains(due[i]));
        }
        assert forall|i: int, j: int| 0 <= i < j < due.len() implies (#[trigger] due[i]).1 != (#[trigger] due[j]).1 by {
            assert(pair_before(due[i], due[j]));
            assert(due.to_set().contains(due[i]) && due.to_set().contains(due[j]));
            assert(f.contains(due[i]) && f.contains(due[j]));
            assert(pending(s.entries).contains(due[i]) && pending(s.entries).contains(due[j]));
        }
    }
    lemma_collect(s, due, now);
    assert forall|i: int| 0 <= i < ids.len() implies s.domain(#[trigger] ids[i]) is Some && s.domain(
        ids[i],
    )->0.valid_until == due[i].0 by {
        assert(ids[i] == due[i].1);
    }
    assert forall|id: DomainId| #[trigger] ids.contains(id) <==> expired_by(s, id, now) by {
        if ids.contains(id) {
            let j = choose|j: int| 0 <= j < ids.len() && ids[j] == id;
            assert(due[j].1 == id);
        }
        if expired_by(s, id, now) {
            let p = (s.domain(id)->0.valid_until, id);
            assert(pending(s.entries).contains(p));
            assert(s.queue.contains(p));
            assert(f.contains(p));
            assert(due.to_set().contains(p));
            let j = choose|j: int| 0 <= j < due.len() && due[j] == p;
            assert(ids[j] == id);
        }
    }
    assert(t.queue =~= pending(t.entries)) by {
        assert forall|p: (u64, DomainId)| t.queue.contains(p) == pending(t.entries).contains(p) by {
            assert(s.queue.contains(p) == pending(s.entries).contains(p));
            assert(ids.to_set().contains(p.1) == ids.contains(p.1));
            if pending(t.entries).contains(p) {
                assert(!ids.contains(p.1));
                assert(!expired_by(s, p.1, now));
            }
            if t.queue.contains(p) {
                assert(!expired_by(s, p.1, now));
                assert(!ids.contains(p.1));
            }
        }
    }
    assert forall|id: DomainId| #[trigger] t.grace.contains_key(id) implies t.domain(id) is None by {
        if ids.contains(id) {
            assert(ids.to_set().contains(id));
        } else {
            assert(s.grace.contains_key(id));
            assert(s.domain(id) is None);
        }
    }
    assert forall|id: DomainId| t.domain(id) is Some implies (#[trigger] t.domain(id))->0.valid_until > now by {
        assert(!ids.to_set().contains(id));
        assert(!ids.contains(id));
        assert(!expired_by(s, id, now));
    }
    assert(s0.queue.union(due.to_set()) =~= s.queue);
}

/// A finite queue has an ordered list of its due pairs.
pub proof fn lemma_due_exists(queue: Set<(u64, DomainId)>, now: u64)
    requires
        queue.finite(),
    ensures
        pairs_ascending(due_pairs(queue, now)),
        due_pairs(queue, now).to_set() == queue.filter(|p: (u64, DomainId)| p.0 <= now),
{
    let f = queue.filter(|p: (u64, DomainId)| p.0 <= now);
    lemma_sorted_exists(f);
    let q = choose|q: Seq<(u64, DomainId)>| pairs_ascending(q) && #[trigger] q.to_set() == f;
    assert(pairs_ascending(q) && q.to_set() == f);
}

/// Every finite set of pairs has an ordered list.
proof fn lemma_sorted_exists(f: Set<(u64, DomainId)>)
    requires
        f.finite(),
    ensures
        exists|q: Seq<(u64, DomainId)>| pairs_ascending(q) && #[trigger] q.to_set() == f,
    decreases f.len(),
{
    if f.len() == 0 {
        let q = Seq::<(u64, DomainId)>::empty();
        assert(q.to_set() =~= f);
        assert(pairs_ascending(q));
    } else {
        let x = f.choose();
        lemma_sorted_exists(f.remove(x));
        let q = choose|q: Seq<(u64, DomainId)>| pairs_ascending(q) && #[trigger] q.to_set() == f.remove(x);
        let n = lemma_insert_position(q, x);
        let r = q.insert(n, x);
        assert forall|i: int, j: int| 0 <= i < j < r.len() implies pair_before(#[trigger] r[i], #[trigger] r[j]) by {
            let si = if i < n { i } else { i - 1 };
            let sj = if j < n { j } else { j - 1 };
            if i != n && j != n {
                assert(pair_before(q[si], q[sj]));
            } else if i == n {
                assert(q.to_set().contains(q[sj]));
                assert(q[sj] != x);
                assert(!pair_before(q[sj], x));
                lemma_pair_total(q[sj], x);
            } else {
                assert(pair_before(q[si], x));
            }
        }
        assert(r.to_set() =~= f) by {
            assert forall|y: (u64, DomainId)| r.contains(y) == f.contains(y) by {
                if f.contains(y) {
                    if y == x {
                        assert(r[n] == y);
                    } else {
                        assert(f.remove(x).contains(y));
                        assert(q.to_set().contains(y));
                        let i = choose|i: int| 0 <= i < q.len() && q[i] == y;
                        if i < n {
                            assert(r[i] == y);
                        } else {
                            assert(r[i + 1] == y);
                        }
                    }
                }
                if r.contains(y) {
                    let i = choose|i: int| 0 <= i < r.len() && r[i] == y;
                    if i < n {
                        assert(q[i] == y);
                        assert(q.to_set().contains(y));
                    } else if i > n {
                        assert(q[i - 1] == y);
                        assert(q.to_set().contains(y));
                    }
                }
            }
        }
    }
}

proof fn lemma_pair_total(a: (u64, DomainId), b: (u64, DomainId))
    requires
        a != b,
    ensures
        pair_before(a, b) || pair_before(b, a),
{
    if a.0 == b.0 && ordinal(a.1) == ordinal(b.1) {
        lemma_ordinal_injective(a.1, b.1);
    }
}

/// Where a pair belongs in an ordered list.
proof fn lemma_insert_position(q: Seq<(u64, DomainId)>, x: (u64, DomainId)) -> (n: int)
    requires
        pairs_ascending(q),
    ensures
        0 <= n <= q.len(),
        forall|i: int| 0 <= i < n ==> pair_before(#[trigger] q[i], x),
        forall|i: int| n <= i < q.len() ==> !pair_before(#[trigger] q[i], x),
    decreases q.len(),
{
    if q.len() == 0 {
        0
    } else if pair_before(q.last(), x) {
        assert forall|i: int| 0 <= i < q.len() implies pair_before(#[trigger] q[i], x) by {
            if i < q.len() - 1 {
                assert(pair_before(q[i], q[q.len() - 1]));
            }
        }
        q.len() as int
    } else {
        let r = q.drop_last();
        assert forall|i: int, j: int| 0 <= i < j < r.len() implies pair_before(#[trigger] r[i], #[trigger] r[j]) by {
            assert(pair_before(q[i], q[j]));
        }
        let n = lemma_insert_position(r, x);
        assert forall|i: int| 0 <= i < n implies pair_before(#[trigger] q[i], x) by {
            assert(q[i] == r[i]);
        }
        assert forall|i: int| n <= i < q.len() implies !pair_before(#[trigger] q[i], x) by {
            if i < q.len() - 1 {
                assert(q[i] == r[i]);
            }
        }
        n
    }
}

// ---- Blocks -----------------------------------------------------------------

/// Applying transactions one after another until the first that is refused,
/// by its own pre-check or by a state rule: state, journal, refusal.
pub open spec fn run_txs(
    s: StateModel,
    net: NetworkId,
    txs: Seq<TxModel>,
    pre: Seq<Option<BlockchainError>>,
    now: u64,
) -> (StateModel, Seq<UndoEntry>, Option<BlockchainError>)
    decreases txs.len(),
{
    if txs.len() == 0 {
        (s, Seq::empty(), None)
    } else {
        let (t, log, refusal) = run_txs(s, net, txs.drop_last(), pre, now);
        if refusal is Some {
            (t, log, refusal)
        } else if pre[txs.len() - 1] is Some {
            (t, log, pre[txs.len() - 1])
        } else if tx_fault(t, net, txs.last(), now) is Some {
            (t, log, tx_fault(t, net, txs.last(), now))
        } else {
            (tx_applied(t, txs.last(), now), log + tx_log(t, txs.last()), None)
        }
    }
}

/// No step of `run_txs` meets a digest collision, an id of the other kind or
/// a counter limit.
pub open spec fn clear_run(
    s: StateModel,
    net: NetworkId,
    txs: Seq<TxModel>,
    pre: Seq<Option<BlockchainError>>,
    now: u64,
) -> bool
    decreases txs.len(),
{
    if txs.len() == 0 {
        leaves_apart(s.entries) && has_room(s)
    } else {
        let (t, log, refusal) = run_txs(s, net, txs.drop_last(), pre, now);
        &&& clear_run(s, net, txs.drop_last(), pre, now)
        &&& (refusal is None && pre[txs.len() - 1] is None && tx_fault(t, net, txs.last(), now) is None)
            ==> clear_step(t, txs.last(), now)
    }
}

/// Applying a block's transactions keeps the state coherent, and rolling
/// the journal back restores the exact state before the block, however many
/// of them were applied.
pub proof fn law_block_is_atomic(
    s: StateModel,
    net: NetworkId,
    txs: Seq<TxModel>,
    pre: Seq<Option<BlockchainError>>,
    now: u64,
)
    requires
        coherent(s),
        clear_run(s, net, txs, pre, now),
    ensures
        ({
            let (t, log, refusal) = run_txs(s, net, txs, pre, now);
            &&& coherent(t)
            &&& undone(t, log) == s
        }),
    decreases txs.len(),
{
    if txs.len() > 0 {
        law_block_is_atomic(s, net, txs.drop_last(), pre, now);
        let (t, log, refusal) = run_txs(s, net, txs.drop_last(), pre, now);
        if refusal is None && pre[txs.len() - 1] is None && tx_fault(t, net, txs.last(), now) is None {
            law_apply_keeps_coherence(t, net, txs.last(), now);
            law_rollback_undoes_apply(t, net, txs.last(), now);
            lemma_undone_concat(tx_applied(t, txs.last(), now), log, tx_log(t, txs.last()));
        }
    }
}

/// Rolling back a whole block, expiry collection included, restores the
/// exact state before it.
pub proof fn law_block_rollback(
    s: StateModel,
    net: NetworkId,
    txs: Seq<TxModel>,
    pre: Seq<Option<BlockchainError>>,
    now: u64,
)
    requires
        coherent(s),
        s.queue.finite(),
        leaves_apart(s.entries),
        has_room(s),
        clear_run(collected(s, now).0, net, txs, pre, now),
    ensures
        ({
            let (t, log, ids) = collected(s, now);
            let (u, log2, refusal) = run_txs(t, net, txs, pre, now);
            &&& coherent(u)
            &&& undone(u, log + log2) == s
        }),
{
    law_collection(s, now);
    let (t, log, ids) = collected(s, now);
    law_block_is_atomic(t, net, txs, pre, now);
    let (u, log2, refusal) = run_txs(t, net, txs, pre, now);
    lemma_undone_concat(u, log, log2);
}

// ---- Steps on one journal -------------------------------------------------

/// Something that goes into a journal: a transaction is applied, or refused,
/// at a time, or what expired by a time is collected.
pub enum JournalStep {
    Apply { tx: TxModel, now: u64 },
    Collect { now: u64 },
}

/// A step: the state after it and what it journals. A refused transaction
/// changes and journals nothing.
pub open spec fn step_taken(s: StateModel, net: NetworkId, step: JournalStep) -> (StateModel, Seq<UndoEntry>) {
    match step {
        JournalStep::Apply { tx, now } => if tx_fault(s, net, tx, now) is Some {
            (s, Seq::empty())
        } else {
            (tx_applied(s, tx, now), tx_log(s, tx))
        },
        JournalStep::Collect { now } => (collected(s, now).0, collected(s, now).1),
    }
}

/// Steps one after another on a journal that starts empty: the state after
/// them and the journal.
pub open spec fn steps_taken(s: StateModel, net: NetworkId, steps: Seq<JournalStep>) -> (StateModel, Seq<UndoEntry>)
    decreases steps.len(),
{
    if steps.len() == 0 {
        (s, Seq::empty())
    } else {
        let (t, log) = steps_taken(s, net, steps.drop_last());
        let (u, more) = step_taken(t, net, steps.last());
        (u, log + more)
    }
}

/// No step meets a digest collision, an id of the other kind or a counter
/// limit.
pub open spec fn clear_steps(s: StateModel, net: NetworkId, steps: Seq<JournalStep>) -> bool
    decreases steps.len(),
{
    if steps.len() == 0 {
        true
    } else {
        let t = steps_taken(s, net, steps.drop_last()).0;
        &&& clear_steps(s, net, steps.drop_last())
        &&& match steps.last() {
            JournalStep::Apply { tx, now } => tx_fault(t, net, tx, now) is None ==> clear_step(t, tx, now),
            JournalStep::Collect { now } => leaves_apart(t.entries) && has_room(t),
        }
    }
}

/// A coherent state waits for finitely many expirations.
proof fn lemma_queue_is_finite(s: StateModel)
    requires
        coherent(s),
    ensures
        s.queue.finite(),
{
    let f = |id: Digest| (s.domain(id)->0.valid_until, id);
    let image = s.entries.dom().map(f);
    s.entries.dom().lemma_map_finite(f);
    assert forall|p: (u64, DomainId)| #[trigger] s.queue.contains(p) implies image.contains(p) by {
        assert(pending(s.entries).contains(p));
        assert(s.entries.dom().contains(p.1));
        assert(f(p.1) == p);
    }
    vstd::set_lib::lemma_set_subset_finite(image, s.queue);
}

/// Rolling back a journal restores the exact state in which it was empty,
/// whatever applied or refused transactions and collections went into it, in
/// whatever order and at whatever times.
pub proof fn law_rollback_undoes_steps(s: StateModel, net: NetworkId, steps: Seq<JournalStep>)
    requires
        coherent(s),
        clear_steps(s, net, steps),
    ensures
        ({
            let (t, log) = steps_taken(s, net, steps);
            &&& coherent(t)
            &&& undone(t, log) == s
        }),
    decreases steps.len(),
{
    if steps.len() > 0 {
        let (t, log) = steps_taken(s, net, steps.drop_last());
        let (u, more) = step_taken(t, net, steps.last());
        law_rollback_undoes_steps(s, net, steps.drop_last());
        match steps.last() {
            JournalStep::Apply { tx, now } => {
                if tx_fault(t, net, tx, now) is None {
                    law_apply_keeps_coherence(t, net, tx, now);
                    law_rollback_undoes_apply(t, net, tx, now);
                }
            },
            JournalStep::Collect { now } => {
                lemma_queue_is_finite(t);
                law_collection(t, now);
            },
        }
        lemma_undone_concat(u, log, more);
    }
}

/// A state that was taken through such steps and rolled back is the state
/// before them to the last bit of its commitment tree: leaves, buckets,
/// branch points and root are stored as they were.
pub proof fn law_rollback_restores_the_tree(before: ChainState, back: ChainState, steps: Seq<JournalStep>)
    requires
        before.wf(),
        back.wf(),
        coherent(before@),
        clear_steps(before@, before.params().network_id, steps),
        ({
            let (t, log) = steps_taken(before@, before.params().network_id, steps);
            back@ == undone(t, log)
        }),
    ensures
        back@ == before@,
        back.tree()@ == before.tree()@,
        back.tree().stored_nodes() == before.tree().stored_nodes(),
        back.tree().stored_root() == before.tree().stored_root(),
        back.tree().stored_leaves() == before.tree().stored_leaves(),
        back.tree().stored_buckets() == before.tree().stored_buckets(),
        smt_state_root(back@.leaves) == smt_state_root(before@.leaves),
{
    law_rollback_undoes_steps(before@, before.params().network_id, steps);
    law_equal_states_store_one_tree(back, before);
}

/// A slash bans a member of the eligibility pool and leaves every domain and
/// namespace in place; one of a key that is banned already is valid, changes
/// nothing and journals nothing.
pub proof fn law_slash(s: StateModel, net: NetworkId, tx: TxModel, now: u64, offender: PublicKey)
    requires
        tx.body == (TxBody::Slash { offender }),
        tx.violation is None,
        tx.network == net,
    ensures
        tx_fault(s, net, tx, now) is None <==> s.banned.contains(offender) || s.pool().contains(offender),
        tx_applied(s, tx, now).banned == s.banned.insert(offender),
        tx_applied(s, tx, now) == (StateModel { banned: s.banned.insert(offender), ..s }),
        s.banned.contains(offender) ==> tx_applied(s, tx, now) == s && tx_log(s, tx) == Seq::<UndoEntry>::empty(),
{
    if s.banned.contains(offender) {
        assert(tx_applied(s, tx, now) =~= s);
    }
}

/// Restoring a stored entry under a new id keeps a state coherent.
pub proof fn law_restore_keeps_coherence(
    s: StateModel,
    domain: DomainId,
    st: DomainState,
    tld: TldId,
    tld_st: TldState,
)
    requires
        coherent(s),
        has_room(s),
    ensures
        !s.entries.contains_key(domain) && !s.grace.contains_key(domain) ==> coherent(
            s.with_new_domain(domain, st),
        ),
        !s.entries.contains_key(tld) ==> coherent(s.with_new_tld(tld, tld_st)),
{
    if !s.entries.contains_key(domain) && !s.grace.contains_key(domain) {
        lemma_leaf_normal(domain, st);
        lemma_add_domain(s, domain, normal(st));
        lemma_registered(s, domain, normal(st));
        assert(s.with_new_domain(domain, st) == s.with_new_domain(domain, normal(st)));
    }
    if !s.entries.contains_key(tld) {
        let t = s.with_new_tld(tld, tld_st);
        lemma_add_tld(s, tld, tld_st);
        assert(pending(t.entries) =~= pending(s.entries));
    }
}

/// A fresh state is coherent.
pub proof fn law_empty_state_is_coherent()
    ensures
        coherent(empty_state()),
        has_room(empty_state()),
        leaves_apart(empty_state().entries),
{
    let s = empty_state();
    assert(domains_in(s.entries) =~= Set::empty());
    assert(tlds_in(s.entries) =~= Set::empty());
    assert(commitment(s.entries) =~= Map::empty());
    assert(pending(s.entries) =~= Set::empty());
    assert forall|o: OwnerId| owned(s.entries, o).len() == 0 by {
        assert(owned(s.entries, o) =~= Set::empty());
    }
}

/// The state root is a function of the registered entries alone.
pub proof fn law_state_root_commits_to_entries(a: StateModel, b: StateModel)
    requires
        coherent(a),
        coherent(b),
        a.entries == b.entries,
    ensures
        smt_state_root(a.leaves) == smt_state_root(b.leaves),
        smt_state_root(a.leaves) == smt_state_root(commitment(a.entries)),
{
}

/// In a coherent state the counters count the entries, and an owner is in
/// the owner counts exactly while holding one.
pub proof fn law_indexes_agree(s: StateModel)
    requires
        coherent(s),
    ensures
        s.domain_count == s.domain_ids().len(),
        s.tld_count == s.tld_ids().len(),
        forall|o: OwnerId| #[trigger]
            s.owner_refs.contains_key(o) <==> exists|id: Digest| #[trigger]
                s.entries.contains_key(id) && entry_owner(s.entries[id]) == o,
        forall|id: DomainId, until: u64| #[trigger]
            s.queue.contains((until, id)) <==> (s.domain(id) matches Some(st) && st.valid_until == until),
{
    assert(s.domain_ids() =~= domains_in(s.entries));
    assert(s.tld_ids() =~= tlds_in(s.entries));
    assert forall|o: OwnerId| #[trigger]
        s.owner_refs.contains_key(o) <==> exists|id: Digest| #[trigger]
            s.entries.contains_key(id) && entry_owner(s.entries[id]) == o by {
        assert(owned(s.entries, o).finite());
        if s.owner_refs.contains_key(o) {
            let id = owned(s.entries, o).choose();
            assert(owned(s.entries, o).contains(id));
            assert(s.entries.contains_key(id));
        }
        if exists|id: Digest| #[trigger] s.entries.contains_key(id) && entry_owner(s.entries[id]) == o {
            let id = choose|id: Digest| #[trigger]
                s.entries.contains_key(id) && entry_owner(s.entries[id]) == o;
            assert(owned(s.entries, o).contains(id));
            assert(owned(s.entries, o).len() > 0);
        }
    }
    assert forall|id: DomainId, until: u64| #[trigger]
        s.queue.contains((until, id)) <==> (s.domain(id) matches Some(st) && st.valid_until == until) by {
        assert(s.queue.contains((until, id)) == pending(s.entries).contains((until, id)));
    }
}

} // verus!

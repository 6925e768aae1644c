//! Verification of a state snapshot: the state root is recomputed from the
//! entries themselves and compared with that of a finalized checkpoint.
use vstd::prelude::*;
use crate::entry::DomainState;
use crate::entry::Entry;
use crate::entry::TldState;
use crate::entry::domain_leaf;
use crate::entry::domain_leaf_v2;
use crate::entry::lemma_leaf_normal;
use crate::entry::normal;
use crate::entry::tld_leaf;
use crate::entry::tld_leaf_v2;
use crate::ids::Digest;
use crate::ids::DomainId;
use crate::ids::OwnerId;
use crate::ids::TldId;
use crate::smt::Smt;
use crate::smt::key_of;
use crate::smt::smt_key;
use crate::smt_model::Leaves;
use crate::smt_model::with_leaf;
use crate::state::smt_state_root;
use crate::state::top_hash;
use crate::state_laws::coherent;
use crate::state_laws::commitment;
use crate::state_laws::law_empty_state_is_coherent;
use crate::state_laws::law_restore_keeps_coherence;
use crate::state_laws::lemma_commit_insert;
use crate::state_model::StateModel;
use crate::state_model::empty_state;
use crate::state_model::fresh_domain;

verus! {

/// Roots recomputed from a set of entries.
#[derive(Clone, Copy, Debug, PartialEq, Eq)]
pub struct RecomputedRoots {
    /// The canonical state root, as a checkpoint at that height commits it.
    pub state_root: Digest,
}

/// Tree content of some domains.
pub open spec fn domain_rows(domains: Seq<(DomainId, DomainState)>) -> Leaves
    decreases domains.len(),
{
    if domains.len() == 0 {
        Map::empty()
    } else {
        let (id, st) = domains.last();
        with_leaf(domain_rows(domains.drop_last()), key_of(id), domain_leaf(id, st))
    }
}

/// Tree content of some domains and namespaces.
pub open spec fn snapshot_rows(domains: Seq<(DomainId, DomainState)>, tlds: Seq<(TldId, TldState)>) -> Leaves
    decreases tlds.len(),
{
    if tlds.len() == 0 {
        domain_rows(domains)
    } else {
        let (id, st) = tlds.last();
        with_leaf(snapshot_rows(domains, tlds.drop_last()), key_of(id), tld_leaf(id, st))
    }
}

/// Entries of some domains.
pub open spec fn domain_entries(domains: Seq<(DomainId, DomainState)>) -> Map<Digest, Entry>
    decreases domains.len(),
{
    if domains.len() == 0 {
        Map::empty()
    } else {
        let (id, st) = domains.last();
        domain_entries(domains.drop_last()).insert(id, Entry::Domain(normal(st)))
    }
}

/// Entries of some domains and namespaces.
pub open spec fn snapshot_entries(domains: Seq<(DomainId, DomainState)>, tlds: Seq<(TldId, TldState)>) -> Map<
    Digest,
    Entry,
>
    decreases tlds.len(),
{
    if tlds.len() == 0 {
        domain_entries(domains)
    } else {
        let (id, st) = tlds.last();
        snapshot_entries(domains, tlds.drop_last()).insert(id, Entry::Tld(st))
    }
}

/// Whether the ids of a snapshot occur once each.
pub open spec fn deduplicated(domains: Seq<(DomainId, DomainState)>, tlds: Seq<(TldId, TldState)>) -> bool {
    &&& forall|i: int, j: int|
        0 <= i < j < domains.len() ==> (#[trigger] domains[i]).0 != (#[trigger] domains[j]).0
    &&& forall|i: int, j: int| 0 <= i < j < tlds.len() ==> (#[trigger] tlds[i]).0 != (#[trigger] tlds[j]).0
    &&& forall|i: int, j: int|
        0 <= i < domains.len() && 0 <= j < tlds.len() ==> (#[trigger] domains[i]).0 != (#[trigger] tlds[j]).0
}

/// Recomputes the canonical state root from entries: each gives the leaf
/// that the live state gives it.
pub fn recompute_state_root(domains: &[(DomainId, DomainState)], tlds: &[(TldId, TldState)]) -> (roots: RecomputedRoots)
    ensures
        roots.state_root == smt_state_root(snapshot_rows(domains@, tlds@)),
{
    let mut tree = Smt::new();
    let mut i: usize = 0;
    assert(domains@.subrange(0, 0) =~= Seq::empty());
    while i < domains.len()
        invariant
            i <= domains@.len(),
            tree.wf(),
            tree@ == domain_rows(domains@.subrange(0, i as int)),
        decreases domains@.len() - i,
    {
        let (id, st) = domains[i];
        proof {
            let more = domains@.subrange(0, i + 1);
            assert(more.drop_last() =~= domains@.subrange(0, i as int));
            assert(more.last() == domains@[i as int]);
        }
        tree.insert(smt_key(&id), domain_leaf_v2(&id, &st));
        i += 1;
    }
    assert(domains@.subrange(0, i as int) =~= domains@);
    let mut j: usize = 0;
    assert(tlds@.subrange(0, 0) =~= Seq::empty());
    while j < tlds.len()
        invariant
            j <= tlds@.len(),
            tree.wf(),
            tree@ == snapshot_rows(domains@, tlds@.subrange(0, j as int)),
        decreases tlds@.len() - j,
    {
        let (id, st) = tlds[j];
        proof {
            let more = tlds@.subrange(0, j + 1);
            assert(more.drop_last() =~= tlds@.subrange(0, j as int));
            assert(more.last() == tlds@[j as int]);
        }
        tree.insert(smt_key(&id), tld_leaf_v2(&id, &st));
        j += 1;
    }
    assert(tlds@.subrange(0, j as int) =~= tlds@);
    RecomputedRoots { state_root: top_hash(&tree.root()) }
}

proof fn lemma_domain_rows(domains: Seq<(DomainId, DomainState)>)
    requires
        deduplicated(domains, Seq::empty()),
    ensures
        domain_rows(domains) == commitment(domain_entries(domains)),
        forall|id: Digest| #[trigger]
            domain_entries(domains).contains_key(id) ==> exists|i: int|
                0 <= i < domains.len() && (#[trigger] domains[i]).0 == id,
    decreases domains.len(),
{
    if domains.len() == 0 {
        assert(commitment(domain_entries(domains)) =~= Map::empty());
    } else {
        let rest = domains.drop_last();
        let (id, st) = domains.last();
        assert forall|i: int, j: int| 0 <= i < j < rest.len() implies (#[trigger] rest[i]).0 != (
        #[trigger] rest[j]).0 by {
            assert(domains[i].0 != domains[j].0);
        }
        lemma_domain_rows(rest);
        let before = domain_entries(rest);
        if before.contains_key(id) {
            let i = choose|i: int| 0 <= i < rest.len() && (#[trigger] rest[i]).0 == id;
            assert(domains[i].0 != domains[domains.len() - 1].0);
        }
        lemma_commit_insert(before, id, Entry::Domain(normal(st)));
        lemma_leaf_normal(id, st);
        assert forall|k: Digest| #[trigger] domain_entries(domains).contains_key(k) implies exists|i: int|
            0 <= i < domains.len() && (#[trigger] domains[i]).0 == k by {
            if k == id {
                assert(domains[domains.len() - 1].0 == k);
            } else {
                assert(before.contains_key(k));
                let i = choose|i: int| 0 <= i < rest.len() && (#[trigger] rest[i]).0 == k;
                assert(domains[i].0 == k);
            }
        }
    }
}

proof fn lemma_snapshot_rows(domains: Seq<(DomainId, DomainState)>, tlds: Seq<(TldId, TldState)>)
    requires
        deduplicated(domains, tlds),
    ensures
        snapshot_rows(domains, tlds) == commitment(snapshot_entries(domains, tlds)),
        forall|id: Digest| #[trigger]
            snapshot_entries(domains, tlds).contains_key(id) ==> (exists|i: int|
                0 <= i < domains.len() && (#[trigger] domains[i]).0 == id) || (exists|i: int|
                0 <= i < tlds.len() && (#[trigger] tlds[i]).0 == id),
    decreases tlds.len(),
{
    if tlds.len() == 0 {
        lemma_domain_rows(domains);
    } else {
        let rest = tlds.drop_last();
        let (id, st) = tlds.last();
        let top = tlds.len() - 1;
        assert forall|i: int, j: int| 0 <= i < j < rest.len() implies (#[trigger] rest[i]).0 != (
        #[trigger] rest[j]).0 by {
            assert(tlds[i].0 != tlds[j].0);
        }
        assert forall|i: int, j: int| 0 <= i < domains.len() && 0 <= j < rest.len() implies (
        #[trigger] domains[i]).0 != (#[trigger] rest[j]).0 by {
            assert(domains[i].0 != tlds[j].0);
        }
        lemma_snapshot_rows(domains, rest);
        let before = snapshot_entries(domains, rest);
        if before.contains_key(id) {
            if exists|i: int| 0 <= i < domains.len() && (#[trigger] domains[i]).0 == id {
                let i = choose|i: int| 0 <= i < domains.len() && (#[trigger] domains[i]).0 == id;
                assert(domains[i].0 != tlds[top].0);
            } else {
                let i = choose|i: int| 0 <= i < rest.len() && (#[trigger] rest[i]).0 == id;
                assert(tlds[i].0 != tlds[top].0);
            }
        }
        lemma_commit_insert(before, id, Entry::Tld(st));
        assert forall|k: Digest| #[trigger] snapshot_entries(domains, tlds).contains_key(k) implies (exists|i: int|
            0 <= i < domains.len() && (#[trigger] domains[i]).0 == k) || (exists|i: int|
            0 <= i < tlds.len() && (#[trigger] tlds[i]).0 == k) by {
            if k == id {
                assert(tlds[top].0 == k);
            } else {
                assert(before.contains_key(k));
                if !(exists|i: int| 0 <= i < domains.len() && (#[trigger] domains[i]).0 == k) {
                    let i = choose|i: int| 0 <= i < rest.len() && (#[trigger] rest[i]).0 == k;
                    assert(tlds[i].0 == k);
                }
            }
        }
    }
}

/// The root recomputed from the entries of a live state is its state root,
/// in whatever order the entries are listed.
pub proof fn law_recomputed_root_is_the_live_root(
    s: StateModel,
    domains: Seq<(DomainId, DomainState)>,
    tlds: Seq<(TldId, TldState)>,
)
    requires
        coherent(s),
        deduplicated(domains, tlds),
        snapshot_entries(domains, tlds) == s.entries,
    ensures
        smt_state_root(snapshot_rows(domains, tlds)) == smt_state_root(s.leaves),
{
    lemma_snapshot_rows(domains, tlds);
}

/// A stored entry.
pub enum Stored {
    Domain(DomainId, DomainState),
    Tld(TldId, TldState),
}

/// Id of a stored entry.
pub open spec fn stored_id(row: Stored) -> Digest {
    match row {
        Stored::Domain(id, _) => id,
        Stored::Tld(id, _) => id,
    }
}

/// A stored entry as the state holds it.
pub open spec fn stored_entry(row: Stored) -> Entry {
    match row {
        Stored::Domain(_, st) => Entry::Domain(normal(st)),
        Stored::Tld(_, st) => Entry::Tld(st),
    }
}

/// A state after stored entries were restored to it, one after another.
pub open spec fn restored(s: StateModel, rows: Seq<Stored>) -> StateModel
    decreases rows.len(),
{
    if rows.len() == 0 {
        s
    } else {
        let t = restored(s, rows.drop_last());
        match rows.last() {
            Stored::Domain(id, st) => t.with_new_domain(id, st),
            Stored::Tld(id, st) => t.with_new_tld(id, st),
        }
    }
}

/// Whether stored entries have distinct ids.
pub open spec fn ids_apart(rows: Seq<Stored>) -> bool {
    forall|i: int, j: int|
        0 <= i < j < rows.len() ==> stored_id(#[trigger] rows[i]) != stored_id(#[trigger] rows[j])
}

/// Whether stored entries are those of some domains and namespaces, in any
/// order.
pub open spec fn lists(rows: Seq<Stored>, domains: Seq<(DomainId, DomainState)>, tlds: Seq<(TldId, TldState)>) -> bool {
    forall|row: Stored| #[trigger]
        rows.contains(row) <==> match row {
            Stored::Domain(id, st) => domains.contains((id, st)),
            Stored::Tld(id, st) => tlds.contains((id, st)),
        }
}

/// What restoring distinct entries to a fresh state gives, without regard to
/// the counters' limits.
proof fn lemma_restored(rows: Seq<Stored>)
    requires
        ids_apart(rows),
    ensures
        ({
            let t = restored(empty_state(), rows);
            &&& t.leaves == commitment(t.entries)
            &&& t.grace == empty_state().grace
            &&& forall|i: int|
                0 <= i < rows.len() ==> t.entries.contains_key(stored_id(#[trigger] rows[i]))
                    && t.entries[stored_id(rows[i])] == stored_entry(rows[i])
            &&& forall|k: Digest| #[trigger]
                t.entries.contains_key(k) ==> exists|i: int| 0 <= i < rows.len() && stored_id(#[trigger] rows[i]) == k
        }),
    decreases rows.len(),
{
    let t = restored(empty_state(), rows);
    if rows.len() == 0 {
        assert(commitment(t.entries) =~= Map::empty());
    } else {
        let rest = rows.drop_last();
        let row = rows.last();
        let id = stored_id(row);
        assert forall|i: int, j: int| 0 <= i < j < rest.len() implies stored_id(#[trigger] rest[i]) != stored_id(
            #[trigger] rest[j],
        ) by {
            assert(stored_id(rows[i]) != stored_id(rows[j]));
        }
        lemma_restored(rest);
        let u = restored(empty_state(), rest);
        if u.entries.contains_key(id) {
            let i = choose|i: int| 0 <= i < rest.len() && stored_id(#[trigger] rest[i]) == id;
            assert(stored_id(rows[i]) != stored_id(rows[rows.len() - 1]));
        }
        lemma_commit_insert(u.entries, id, stored_entry(row));
        if let Stored::Domain(_, st) = row {
            lemma_leaf_normal(id, st);
        }
        assert forall|i: int| 0 <= i < rows.len() implies t.entries.contains_key(stored_id(#[trigger] rows[i]))
            && t.entries[stored_id(rows[i])] == stored_entry(rows[i]) by {
            if i < rest.len() {
                assert(rest[i] == rows[i]);
                assert(stored_id(rows[i]) != stored_id(rows[rows.len() - 1]));
            }
        }
        assert forall|k: Digest| #[trigger] t.entries.contains_key(k) implies exists|i: int|
            0 <= i < rows.len() && stored_id(#[trigger] rows[i]) == k by {
            if k == id {
                assert(stored_id(rows[rows.len() - 1]) == k);
            } else {
                assert(u.entries.contains_key(k));
                let i = choose|i: int| 0 <= i < rest.len() && stored_id(#[trigger] rest[i]) == k;
                assert(stored_id(rows[i]) == k);
            }
        }
    }
}

/// The entries of a snapshot are those that it lists.
proof fn lemma_snapshot_holds(domains: Seq<(DomainId, DomainState)>, tlds: Seq<(TldId, TldState)>)
    requires
        deduplicated(domains, tlds),
    ensures
        forall|i: int|
            0 <= i < domains.len() ==> {
                let m = snapshot_entries(domains, tlds);
                &&& m.contains_key((#[trigger] domains[i]).0)
                &&& m[domains[i].0] == Entry::Domain(normal(domains[i].1))
            },
        forall|i: int|
            0 <= i < tlds.len() ==> {
                let m = snapshot_entries(domains, tlds);
                &&& m.contains_key((#[trigger] tlds[i]).0)
                &&& m[tlds[i].0] == Entry::Tld(tlds[i].1)
            },
    decreases domains.len() + tlds.len(),
{
    let m = snapshot_entries(domains, tlds);
    if tlds.len() > 0 {
        let rest = tlds.drop_last();
        assert forall|i: int, j: int| 0 <= i < j < rest.len() implies (#[trigger] rest[i]).0 != (
        #[trigger] rest[j]).0 by {
            assert(tlds[i].0 != tlds[j].0);
        }
        assert forall|i: int, j: int| 0 <= i < domains.len() && 0 <= j < rest.len() implies (
        #[trigger] domains[i]).0 != (#[trigger] rest[j]).0 by {
            assert(domains[i].0 != tlds[j].0);
        }
        lemma_snapshot_holds(domains, rest);
        assert forall|i: int| 0 <= i < domains.len() implies {
            &&& m.contains_key((#[trigger] domains[i]).0)
            &&& m[domains[i].0] == Entry::Domain(normal(domains[i].1))
        } by {
            assert(domains[i].0 != tlds[tlds.len() - 1].0);
        }
        assert forall|i: int| 0 <= i < tlds.len() implies {
            &&& m.contains_key((#[trigger] tlds[i]).0)
            &&& m[tlds[i].0] == Entry::Tld(tlds[i].1)
        } by {
            if i < rest.len() {
                assert(rest[i] == tlds[i]);
                assert(tlds[i].0 != tlds[tlds.len() - 1].0);
            }
        }
    } else if domains.len() > 0 {
        let rest = domains.drop_last();
        assert forall|i: int, j: int| 0 <= i < j < rest.len() implies (#[trigger] rest[i]).0 != (
        #[trigger] rest[j]).0 by {
            assert(domains[i].0 != domains[j].0);
        }
        lemma_snapshot_holds(rest, tlds);
        assert forall|i: int| 0 <= i < domains.len() implies {
            &&& m.contains_key((#[trigger] domains[i]).0)
            &&& m[domains[i].0] == Entry::Domain(normal(domains[i].1))
        } by {
            if i < rest.len() {
                assert(rest[i] == domains[i]);
                assert(domains[i].0 != domains[domains.len() - 1].0);
            }
        }
    }
}

/// A state that was restored from stored entries, in any order, has the root
/// that is recomputed from them.
pub proof fn law_restored_root_is_the_recomputed_root(
    rows: Seq<Stored>,
    domains: Seq<(DomainId, DomainState)>,
    tlds: Seq<(TldId, TldState)>,
)
    requires
        deduplicated(domains, tlds),
        ids_apart(rows),
        lists(rows, domains, tlds),
    ensures
        smt_state_root(restored(empty_state(), rows).leaves) == smt_state_root(snapshot_rows(domains, tlds)),
        restored(empty_state(), rows).entries == snapshot_entries(domains, tlds),
{
    let t = restored(empty_state(), rows);
    let m = snapshot_entries(domains, tlds);
    lemma_restored(rows);
    lemma_snapshot_rows(domains, tlds);
    lemma_snapshot_holds(domains, tlds);
    assert forall|k: Digest| #[trigger] t.entries.contains_key(k) implies m.contains_key(k) && m[k] == t.entries[k] by {
        let i = choose|i: int| 0 <= i < rows.len() && stored_id(#[trigger] rows[i]) == k;
        assert(rows.contains(rows[i]));
        match rows[i] {
            Stored::Domain(id, st) => {
                let j = choose|j: int| 0 <= j < domains.len() && domains[j] == (id, st);
                assert(domains[j].0 == k);
            },
            Stored::Tld(id, st) => {
                let j = choose|j: int| 0 <= j < tlds.len() && tlds[j] == (id, st);
                assert(tlds[j].0 == k);
            },
        }
    }
    assert forall|k: Digest| #[trigger] m.contains_key(k) implies t.entries.contains_key(k) by {
        if exists|i: int| 0 <= i < domains.len() && (#[trigger] domains[i]).0 == k {
            let i = choose|i: int| 0 <= i < domains.len() && (#[trigger] domains[i]).0 == k;
            let row = Stored::Domain(domains[i].0, domains[i].1);
            assert(domains.contains(domains[i]));
            assert(rows.contains(row));
            let j = choose|j: int| 0 <= j < rows.len() && rows[j] == row;
            assert(stored_id(rows[j]) == k);
        } else {
            let i = choose|i: int| 0 <= i < tlds.len() && (#[trigger] tlds[i]).0 == k;
            let row = Stored::Tld(tlds[i].0, tlds[i].1);
            assert(tlds.contains(tlds[i]));
            assert(rows.contains(row));
            let j = choose|j: int| 0 <= j < rows.len() && rows[j] == row;
            assert(stored_id(rows[j]) == k);
        }
    }
    assert(t.entries.dom() =~= m.dom());
    assert(t.entries =~= m);
}

/// The recomputed root does not depend on the order in which domains and
/// namespaces are listed, and that of nothing is the root of a fresh state.
pub proof fn law_recomputed_root_ignores_order(
    domains: Seq<(DomainId, DomainState)>,
    tlds: Seq<(TldId, TldState)>,
    other_domains: Seq<(DomainId, DomainState)>,
    other_tlds: Seq<(TldId, TldState)>,
)
    requires
        deduplicated(domains, tlds),
        deduplicated(other_domains, other_tlds),
        domains.to_set() == other_domains.to_set(),
        tlds.to_set() == other_tlds.to_set(),
    ensures
        smt_state_root(snapshot_rows(domains, tlds)) == smt_state_root(snapshot_rows(other_domains, other_tlds)),
        smt_state_root(snapshot_rows(Seq::empty(), Seq::empty())) == smt_state_root(empty_state().leaves),
{
    lemma_snapshot_within(domains, tlds, other_domains, other_tlds);
    lemma_snapshot_within(other_domains, other_tlds, domains, tlds);
    let a = snapshot_entries(domains, tlds);
    let b = snapshot_entries(other_domains, other_tlds);
    assert(a.dom() =~= b.dom());
    assert(a =~= b);
    lemma_snapshot_rows(domains, tlds);
    lemma_snapshot_rows(other_domains, other_tlds);
}

/// A snapshot holds what another one with the same rows holds.
proof fn lemma_snapshot_within(
    domains: Seq<(DomainId, DomainState)>,
    tlds: Seq<(TldId, TldState)>,
    other_domains: Seq<(DomainId, DomainState)>,
    other_tlds: Seq<(TldId, TldState)>,
)
    requires
        deduplicated(domains, tlds),
        deduplicated(other_domains, other_tlds),
        domains.to_set() == other_domains.to_set(),
        tlds.to_set() == other_tlds.to_set(),
    ensures
        forall|k: Digest| #[trigger]
            snapshot_entries(domains, tlds).contains_key(k) ==> snapshot_entries(
                other_domains,
                other_tlds,
            ).contains_key(k) && snapshot_entries(other_domains, other_tlds)[k] == snapshot_entries(domains, tlds)[k],
{
    let a = snapshot_entries(domains, tlds);
    let b = snapshot_entries(other_domains, other_tlds);
    lemma_snapshot_rows(domains, tlds);
    lemma_snapshot_holds(domains, tlds);
    lemma_snapshot_holds(other_domains, other_tlds);
    assert forall|k: Digest| #[trigger] a.contains_key(k) implies b.contains_key(k) && b[k] == a[k] by {
        if exists|i: int| 0 <= i < domains.len() && (#[trigger] domains[i]).0 == k {
            let i = choose|i: int| 0 <= i < domains.len() && (#[trigger] domains[i]).0 == k;
            assert(domains.to_set().contains(domains[i]));
            assert(other_domains.contains(domains[i]));
            let j = choose|j: int| 0 <= j < other_domains.len() && other_domains[j] == domains[i];
            assert(other_domains[j].0 == k);
        } else {
            let i = choose|i: int| 0 <= i < tlds.len() && (#[trigger] tlds[i]).0 == k;
            assert(tlds.to_set().contains(tlds[i]));
            assert(other_tlds.contains(tlds[i]));
            let j = choose|j: int| 0 <= j < other_tlds.len() && other_tlds[j] == tlds[i];
            assert(other_tlds[j].0 == k);
        }
    }
}

/// A state that was restored from stored entries is coherent.
pub proof fn law_restored_state_is_coherent(rows: Seq<Stored>)
    requires
        ids_apart(rows),
        rows.len() < usize::MAX,
    ensures
        coherent(restored(empty_state(), rows)),
{
    lemma_restored_coherent(rows);
}

/// Restoring keeps a state coherent, and its counters below the number of
/// rows.
proof fn lemma_restored_coherent(rows: Seq<Stored>)
    requires
        ids_apart(rows),
        rows.len() < usize::MAX,
    ensures
        ({
            let t = restored(empty_state(), rows);
            &&& coherent(t)
            &&& t.domain_count <= rows.len()
            &&& t.tld_count <= rows.len()
            &&& forall|o: OwnerId| #[trigger] t.owner_refs.contains_key(o) ==> t.owner_refs[o] <= rows.len()
        }),
    decreases rows.len(),
{
    if rows.len() == 0 {
        law_empty_state_is_coherent();
    } else {
        let rest = rows.drop_last();
        let row = rows.last();
        assert forall|i: int, j: int| 0 <= i < j < rest.len() implies stored_id(#[trigger] rest[i]) != stored_id(
            #[trigger] rest[j],
        ) by {
            assert(stored_id(rows[i]) != stored_id(rows[j]));
        }
        lemma_restored_coherent(rest);
        lemma_restored(rest);
        let u = restored(empty_state(), rest);
        let id = stored_id(row);
        if u.entries.contains_key(id) {
            let i = choose|i: int| 0 <= i < rest.len() && stored_id(#[trigger] rest[i]) == id;
            assert(stored_id(rows[i]) != stored_id(rows[rows.len() - 1]));
        }
        match row {
            Stored::Domain(_, st) => {
                law_restore_keeps_coherence(u, id, st, id, TldState { owner: st.owner, open: false });
            },
            Stored::Tld(_, st) => {
                law_restore_keeps_coherence(u, id, fresh_domain(st.owner, 0), id, st);
            },
        }
    }
}

} // verus!

//! What each registry transaction is for: who may make it, what it changes,
//! and what it leaves alone.
use vstd::prelude::*;
use vstd::utf8::encode_utf8;
use crate::crypto::ed25519_verifies;
use crate::entry::DomainState;
use crate::entry::Entry;
use crate::entry::TldState;
use crate::error::BlockchainError;
use crate::ids::Digest;
use crate::ids::DomainId;
use crate::ids::OwnerId;
use crate::ids::PublicKey;
use crate::ids::RecordHash;
use crate::ids::TldId;
use crate::ids::zero_digest;
use crate::state::challenged_name;
use crate::state_laws::coherent;
use crate::state_laws::entry_owner;
use crate::state_laws::expired_by;
use crate::state_laws::has_room;
use crate::state_laws::law_collection;
use crate::state_laws::law_indexes_agree;
use crate::state_laws::leaves_apart;
use crate::state_model::StateModel;
use crate::state_model::collected;
use crate::state_model::tx_applied;
use crate::state_model::tx_fault;
use crate::types::NetworkId;
use crate::types::TxBody;
use crate::types::TxModel;
use crate::validate::signature_fault;

verus! {

/// A sum of times, up to the largest time.
pub open spec fn time_after(start: u64, secs: nat) -> int {
    if start + secs > u64::MAX {
        u64::MAX as int
    } else {
        start + secs
    }
}

/// Whether nobody but a claimant can want a domain back: it never lapsed, it
/// lapsed 30 days ago or longer, or the claimant is the one who lost it.
pub open spec fn unclaimed(s: StateModel, domain: DomainId, now: u64, claimant: OwnerId) -> bool {
    s.grace.contains_key(domain) ==> now >= time_after(s.grace[domain].0, 30 * 24 * 3600)
        || claimant == s.grace[domain].1
}

/// Whether a transaction is for this network and breaks no core rule.
pub open spec fn at_home(tx: TxModel, net: NetworkId) -> bool {
    tx.violation is None && tx.network == net
}

/// Whether two states agree on everything but the entries and what follows
/// from them: the known keys, the bans, the lapsed domains and the pending
/// expirations.
pub open spec fn same_beside_entries(s: StateModel, t: StateModel) -> bool {
    t.owner_keys == s.owner_keys && t.banned == s.banned && t.grace == s.grace && t.queue == s.queue
}

/// Whether a state knows the key of an owner and no other new one: a key that
/// was known stays.
pub open spec fn learns(s: StateModel, t: StateModel, owner: OwnerId, key: PublicKey) -> bool {
    &&& t.owner_keys.dom() == s.owner_keys.dom().insert(owner)
    &&& forall|o: OwnerId| #[trigger] s.owner_keys.contains_key(o) ==> t.owner_keys[o] == s.owner_keys[o]
    &&& !s.owner_keys.contains_key(owner) ==> t.owner_keys[owner] == key
}

/// A transaction of another network, or one that breaks a core rule, is
/// refused whatever else it says, and the core rule is named first.
pub proof fn law_foreign_transactions_are_refused(s: StateModel, net: NetworkId, tx: TxModel, now: u64)
    ensures
        !at_home(tx, net) ==> tx_fault(s, net, tx, now) is Some,
        tx.violation matches Some(e) ==> tx_fault(s, net, tx, now) == Some(BlockchainError::Core(e)),
        tx.violation is None && tx.network != net ==> tx_fault(s, net, tx, now) == Some(
            BlockchainError::WrongNetwork { tx: tx.network, chain: net },
        ),
{
}

/// Anyone may register a domain that is free under an open namespace, with a
/// proof of work. It is then theirs for one year from now, without records;
/// no other entry changes, and the key is learned if none was known.
pub proof fn law_registration(
    s: StateModel,
    net: NetworkId,
    tx: TxModel,
    now: u64,
    name: String,
    domain_id: DomainId,
    parent: TldId,
)
    requires
        tx.body == (TxBody::RegisterDomain { name, domain_id, parent }),
        at_home(tx, net),
    ensures
        tx_fault(s, net, tx, now) is None <==> {
            &&& s.entries.contains_key(parent)
            &&& s.entries[parent] matches Entry::Tld(space) && space.open
            &&& !(s.entries.contains_key(domain_id) && s.entries[domain_id] is Domain)
            &&& unclaimed(s, domain_id, now, tx.owner)
            &&& tx.pow_fault is None
        },
        !(s.entries.contains_key(parent) && s.entries[parent] is Tld) ==> tx_fault(s, net, tx, now) == Some(
            BlockchainError::UnknownTld,
        ),
        s.entries.contains_key(parent) && (s.entries[parent] matches Entry::Tld(space) && !space.open)
            ==> tx_fault(s, net, tx, now) == Some(BlockchainError::TldClosed),
        s.entries.contains_key(parent) && (s.entries[parent] matches Entry::Tld(space) && space.open) && (
        s.entries.contains_key(domain_id) && s.entries[domain_id] is Domain || !unclaimed(
            s,
            domain_id,
            now,
            tx.owner,
        )) ==> tx_fault(s, net, tx, now) == Some(BlockchainError::DomainAlreadyRegistered),
        tx_fault(s, net, tx, now) is Some && s.entries.contains_key(parent) && (s.entries[parent] matches Entry::Tld(
            space,
        ) && space.open) && !(s.entries.contains_key(domain_id) && s.entries[domain_id] is Domain) && unclaimed(
            s,
            domain_id,
            now,
            tx.owner,
        ) ==> tx_fault(s, net, tx, now) == Some(BlockchainError::Core(tx.pow_fault->0)),
        ({
            let t = tx_applied(s, tx, now);
            &&& t.entries.dom() == s.entries.dom().insert(domain_id)
            &&& forall|id: Digest| #[trigger]
                s.entries.contains_key(id) && id != domain_id ==> t.entries[id] == s.entries[id]
            &&& t.entries[domain_id] matches Entry::Domain(st) && st.owner == tx.owner && st.sequence == 0
                && st.record_hash is None && st.registered_at == now && st.valid_until == time_after(
                now,
                365 * 24 * 3600,
            )
            &&& learns(s, t, tx.owner, tx.public_key)
            &&& t.banned == s.banned
            &&& t.grace == s.grace.remove(domain_id)
            &&& forall|p: (u64, DomainId)| #[trigger]
                t.queue.contains(p) <==> s.queue.contains(p) || (p.1 == domain_id && p.0 == time_after(
                    now,
                    365 * 24 * 3600,
                ))
        }),
{
    let t = tx_applied(s, tx, now);
    assert(t.entries.dom() =~= s.entries.dom().insert(domain_id));
    assert(t.owner_keys.dom() =~= s.owner_keys.dom().insert(tx.owner));
}

/// The owner of a namespace may give any free domain of it to anyone, without
/// proof of work and though the namespace be closed. The domain is the
/// assignee's for one year from now; no key is learned.
pub proof fn law_assignment(
    s: StateModel,
    net: NetworkId,
    tx: TxModel,
    now: u64,
    name: String,
    domain_id: DomainId,
    parent: TldId,
    assignee: OwnerId,
)
    requires
        tx.body == (TxBody::AssignDomain { name, domain_id, parent, assignee }),
        at_home(tx, net),
    ensures
        tx_fault(s, net, tx, now) is None <==> {
            &&& s.entries.contains_key(parent)
            &&& s.entries[parent] matches Entry::Tld(space) && space.owner == tx.owner
            &&& !(s.entries.contains_key(domain_id) && s.entries[domain_id] is Domain)
            &&& unclaimed(s, domain_id, now, assignee)
        },
        !(s.entries.contains_key(parent) && s.entries[parent] is Tld) ==> tx_fault(s, net, tx, now) == Some(
            BlockchainError::UnknownTld,
        ),
        s.entries.contains_key(parent) && (s.entries[parent] matches Entry::Tld(space) && space.owner != tx.owner)
            ==> tx_fault(s, net, tx, now) == Some(BlockchainError::NotTldOwner),
        s.entries.contains_key(parent) && (s.entries[parent] matches Entry::Tld(space) && space.owner == tx.owner)
            && tx_fault(s, net, tx, now) is Some ==> tx_fault(s, net, tx, now) == Some(
            BlockchainError::DomainAlreadyRegistered,
        ),
        ({
            let t = tx_applied(s, tx, now);
            &&& t.entries.dom() == s.entries.dom().insert(domain_id)
            &&& forall|id: Digest| #[trigger]
                s.entries.contains_key(id) && id != domain_id ==> t.entries[id] == s.entries[id]
            &&& t.entries[domain_id] matches Entry::Domain(st) && st.owner == assignee && st.sequence == 0
                && st.record_hash is None && st.registered_at == now && st.valid_until == time_after(
                now,
                365 * 24 * 3600,
            )
            &&& t.owner_keys == s.owner_keys
            &&& t.banned == s.banned
            &&& t.grace == s.grace.remove(domain_id)
            &&& forall|p: (u64, DomainId)| #[trigger]
                t.queue.contains(p) <==> s.queue.contains(p) || (p.1 == domain_id && p.0 == time_after(
                    now,
                    365 * 24 * 3600,
                ))
        }),
{
    let t = tx_applied(s, tx, now);
    assert(t.entries.dom() =~= s.entries.dom().insert(domain_id));
}

/// The owner of a domain may publish new records under the next sequence
/// number. The domain then has that number and those records, and the same
/// owner and times as before; no other entry changes.
pub proof fn law_update(
    s: StateModel,
    net: NetworkId,
    tx: TxModel,
    now: u64,
    domain_id: DomainId,
    sequence: u64,
    record_hash: RecordHash,
    prior: DomainState,
)
    requires
        tx.body == (TxBody::UpdateDomain { domain_id, sequence, record_hash }),
        at_home(tx, net),
        s.entries.contains_key(domain_id),
        s.entries[domain_id] == Entry::Domain(prior),
    ensures
        tx_fault(s, net, tx, now) is None <==> prior.owner == tx.owner && sequence == prior.sequence + 1,
        prior.owner != tx.owner ==> tx_fault(s, net, tx, now) == Some(BlockchainError::NotOwner),
        prior.owner == tx.owner && sequence != prior.sequence + 1 ==> tx_fault(s, net, tx, now) == Some(
            BlockchainError::InvalidSequence { expected: time_after(prior.sequence, 1) as u64, got: sequence },
        ),
        ({
            let t = tx_applied(s, tx, now);
            &&& t.entries.dom() == s.entries.dom()
            &&& forall|id: Digest| #[trigger]
                s.entries.contains_key(id) && id != domain_id ==> t.entries[id] == s.entries[id]
            &&& t.entries[domain_id] matches Entry::Domain(st) && st.owner == prior.owner && st.sequence
                == sequence && st.registered_at == prior.registered_at && st.valid_until == prior.valid_until
                && st.record_hash == (if record_hash == zero_digest() {
                None
            } else {
                Some(record_hash)
            })
            &&& learns(s, t, tx.owner, tx.public_key)
            &&& t.banned == s.banned
            &&& t.grace == s.grace
            &&& t.queue == s.queue
            &&& t.owner_refs == s.owner_refs
        }),
{
    let t = tx_applied(s, tx, now);
    assert(t.entries.dom() =~= s.entries.dom());
    assert(t.owner_keys.dom() =~= s.owner_keys.dom().insert(tx.owner));
}

/// What is not registered can be neither updated nor renewed.
pub proof fn law_unknown_domains_are_refused(s: StateModel, net: NetworkId, tx: TxModel, now: u64, domain_id: DomainId)
    requires
        at_home(tx, net),
        tx.body matches TxBody::UpdateDomain { domain_id: d, .. } && d == domain_id || (
        tx.body matches TxBody::RenewDomain { domain_id: d, .. } && d == domain_id),
        !(s.entries.contains_key(domain_id) && s.entries[domain_id] is Domain),
    ensures
        tx_fault(s, net, tx, now) == Some(BlockchainError::UnknownDomain),
{
}

/// The owner of a domain may renew it to any later expiry within three years
/// from now. The domain then has the asked expiry, and the same owner,
/// sequence, records and registration time as before; no other entry changes,
/// and it expires at the new time instead of the old one.
pub proof fn law_renewal(
    s: StateModel,
    net: NetworkId,
    tx: TxModel,
    now: u64,
    domain_id: DomainId,
    valid_until: u64,
    prior: DomainState,
)
    requires
        tx.body == (TxBody::RenewDomain { domain_id, valid_until }),
        at_home(tx, net),
        s.entries.contains_key(domain_id),
        s.entries[domain_id] == Entry::Domain(prior),
        prior.record_hash != Some(zero_digest()),
    ensures
        tx_fault(s, net, tx, now) is None <==> prior.owner == tx.owner && prior.valid_until < valid_until
            <= time_after(now, 3 * 365 * 24 * 3600),
        prior.owner != tx.owner ==> tx_fault(s, net, tx, now) == Some(BlockchainError::NotOwner),
        prior.owner == tx.owner && valid_until <= prior.valid_until ==> tx_fault(s, net, tx, now) == Some(
            BlockchainError::RenewalNotExtending { current: prior.valid_until, proposed: valid_until },
        ),
        prior.owner == tx.owner && valid_until > prior.valid_until && valid_until > time_after(
            now,
            3 * 365 * 24 * 3600,
        ) ==> tx_fault(s, net, tx, now) == Some(
            BlockchainError::RenewalExceedsTerm {
                max: time_after(now, 3 * 365 * 24 * 3600) as u64,
                proposed: valid_until,
            },
        ),
        ({
            let t = tx_applied(s, tx, now);
            &&& t.entries.dom() == s.entries.dom()
            &&& forall|id: Digest| #[trigger]
                s.entries.contains_key(id) && id != domain_id ==> t.entries[id] == s.entries[id]
            &&& t.entries[domain_id] matches Entry::Domain(st) && st.valid_until == valid_until && st.owner
                == prior.owner && st.sequence == prior.sequence && st.record_hash == prior.record_hash
                && st.registered_at == prior.registered_at
            &&& t.owner_keys == s.owner_keys
            &&& t.banned == s.banned
            &&& t.grace == s.grace
            &&& t.owner_refs == s.owner_refs
            &&& forall|p: (u64, DomainId)| #[trigger]
                t.queue.contains(p) <==> (s.queue.contains(p) && p != (prior.valid_until, domain_id)) || p == (
                    valid_until,
                    domain_id,
                )
        }),
{
    let t = tx_applied(s, tx, now);
    assert(t.entries.dom() =~= s.entries.dom());
}

/// Anyone may claim a namespace that is free and not reserved, with a proof
/// of work. It is then theirs and closed; no other entry changes, and the key
/// is learned if none was known.
pub proof fn law_namespace_claim(s: StateModel, net: NetworkId, tx: TxModel, now: u64, name: String, tld_id: TldId)
    requires
        tx.body == (TxBody::RegisterTld { name, tld_id }),
        at_home(tx, net),
    ensures
        tx_fault(s, net, tx, now) is None <==> !(s.entries.contains_key(tld_id) && s.entries[tld_id] is Tld)
            && !tx.reserved_tld && tx.pow_fault is None,
        s.entries.contains_key(tld_id) && s.entries[tld_id] is Tld ==> tx_fault(s, net, tx, now) == Some(
            BlockchainError::TldAlreadyRegistered,
        ),
        !(s.entries.contains_key(tld_id) && s.entries[tld_id] is Tld) && tx.reserved_tld ==> tx_fault(s, net, tx, now)
            == Some(BlockchainError::IcannTldReserved(name)),
        !(s.entries.contains_key(tld_id) && s.entries[tld_id] is Tld) && !tx.reserved_tld && tx.pow_fault is Some
            ==> tx_fault(s, net, tx, now) == Some(BlockchainError::Core(tx.pow_fault->0)),
        ({
            let t = tx_applied(s, tx, now);
            &&& t.entries.dom() == s.entries.dom().insert(tld_id)
            &&& forall|id: Digest| #[trigger]
                s.entries.contains_key(id) && id != tld_id ==> t.entries[id] == s.entries[id]
            &&& t.entries[tld_id] matches Entry::Tld(space) && space.owner == tx.owner && !space.open
            &&& learns(s, t, tx.owner, tx.public_key)
            &&& t.banned == s.banned
            &&& t.grace == s.grace
            &&& t.queue == s.queue
        }),
{
    let t = tx_applied(s, tx, now);
    assert(t.entries.dom() =~= s.entries.dom().insert(tld_id));
    assert(t.owner_keys.dom() =~= s.owner_keys.dom().insert(tx.owner));
}

/// Who may act on a namespace: its owner, while it is registered.
pub proof fn law_only_owners_act_on_namespaces(s: StateModel, net: NetworkId, tx: TxModel, now: u64, tld_id: TldId)
    requires
        at_home(tx, net),
        (tx.body matches TxBody::TransferTld { tld_id: d, .. } && d == tld_id) || (
        tx.body matches TxBody::RevokeTld { tld_id: d } && d == tld_id) || (
        tx.body matches TxBody::SetTldOpen { tld_id: d, .. } && d == tld_id),
    ensures
        tx_fault(s, net, tx, now) is None <==> s.entries.contains_key(tld_id) && (s.entries[tld_id] matches Entry::Tld(
            space,
        ) && space.owner == tx.owner),
        !(s.entries.contains_key(tld_id) && s.entries[tld_id] is Tld) ==> tx_fault(s, net, tx, now) == Some(
            BlockchainError::UnknownTld,
        ),
        s.entries.contains_key(tld_id) && (s.entries[tld_id] matches Entry::Tld(space) && space.owner != tx.owner)
            ==> tx_fault(s, net, tx, now) == Some(BlockchainError::NotTldOwner),
{
}

/// A transfer gives a namespace to another owner and leaves it as open as it
/// was; it changes no other entry.
pub proof fn law_namespace_transfer(
    s: StateModel,
    tx: TxModel,
    now: u64,
    tld_id: TldId,
    new_owner: OwnerId,
    prior: TldState,
)
    requires
        tx.body == (TxBody::TransferTld { tld_id, new_owner }),
        s.entries.contains_key(tld_id),
        s.entries[tld_id] == Entry::Tld(prior),
    ensures
        ({
            let t = tx_applied(s, tx, now);
            &&& t.entries.dom() == s.entries.dom()
            &&& forall|id: Digest| #[trigger]
                s.entries.contains_key(id) && id != tld_id ==> t.entries[id] == s.entries[id]
            &&& t.entries[tld_id] matches Entry::Tld(space) && space.owner == new_owner && space.open == prior.open
            &&& same_beside_entries(s, t)
        }),
{
    assert(tx_applied(s, tx, now).entries.dom() =~= s.entries.dom());
}

/// Opening or closing a namespace leaves its owner and every other entry.
pub proof fn law_namespace_opening(s: StateModel, tx: TxModel, now: u64, tld_id: TldId, open: bool, prior: TldState)
    requires
        tx.body == (TxBody::SetTldOpen { tld_id, open }),
        s.entries.contains_key(tld_id),
        s.entries[tld_id] == Entry::Tld(prior),
    ensures
        ({
            let t = tx_applied(s, tx, now);
            &&& t.entries.dom() == s.entries.dom()
            &&& forall|id: Digest| #[trigger]
                s.entries.contains_key(id) && id != tld_id ==> t.entries[id] == s.entries[id]
            &&& t.entries[tld_id] matches Entry::Tld(space) && space.open == open && space.owner == prior.owner
            &&& same_beside_entries(s, t)
            &&& t.owner_refs == s.owner_refs
        }),
{
    assert(tx_applied(s, tx, now).entries.dom() =~= s.entries.dom());
}

/// Revoking a namespace removes its entry and no other: the domains under it
/// stay.
pub proof fn law_namespace_revocation(s: StateModel, tx: TxModel, now: u64, tld_id: TldId, prior: TldState)
    requires
        tx.body == (TxBody::RevokeTld { tld_id }),
        s.entries.contains_key(tld_id),
        s.entries[tld_id] == Entry::Tld(prior),
    ensures
        ({
            let t = tx_applied(s, tx, now);
            &&& t.entries.dom() == s.entries.dom().remove(tld_id)
            &&& forall|id: Digest| #[trigger]
                s.entries.contains_key(id) && id != tld_id ==> t.entries[id] == s.entries[id]
            &&& same_beside_entries(s, t)
        }),
{
    assert(tx_applied(s, tx, now).entries.dom() =~= s.entries.dom().remove(tld_id));
}

/// Only a slash bans, and it bans one key for good: no other transaction, and
/// no expiry, takes a key into the bans or out of them.
pub proof fn law_bans_only_grow(s: StateModel, tx: TxModel, now: u64)
    ensures
        s.banned.subset_of(tx_applied(s, tx, now).banned),
        forall|k: PublicKey| #[trigger]
            tx_applied(s, tx, now).banned.contains(k) ==> s.banned.contains(k) || tx.body == (TxBody::Slash {
                offender: k,
            }),
        tx.body matches TxBody::Slash { offender } ==> tx_applied(s, tx, now).banned.contains(offender)
            && tx_applied(s, tx, now).entries == s.entries,
{
}

/// Who can be elected: exactly the keys, known and not banned, of the owners
/// who hold a registration.
pub proof fn law_pool_is_of_the_live_owners(s: StateModel, key: PublicKey)
    requires
        coherent(s),
    ensures
        s.pool().contains(key) <==> !s.banned.contains(key) && exists|id: Digest| #[trigger]
            s.entries.contains_key(id) && s.owner_keys.contains_key(entry_owner(s.entries[id]))
                && s.owner_keys[entry_owner(s.entries[id])] == key,
{
    law_indexes_agree(s);
    if s.pool().contains(key) {
        let o = choose|o: OwnerId| #[trigger]
            s.owner_refs.contains_key(o) && s.owner_keys.contains_key(o) && s.owner_keys[o] == key;
        let id = choose|id: Digest| #[trigger] s.entries.contains_key(id) && entry_owner(s.entries[id]) == o;
        assert(s.entries.contains_key(id));
    }
    if !s.banned.contains(key) && exists|id: Digest| #[trigger]
        s.entries.contains_key(id) && s.owner_keys.contains_key(entry_owner(s.entries[id]))
            && s.owner_keys[entry_owner(s.entries[id])] == key {
        let id = choose|id: Digest| #[trigger]
            s.entries.contains_key(id) && s.owner_keys.contains_key(entry_owner(s.entries[id]))
                && s.owner_keys[entry_owner(s.entries[id])] == key;
        assert(s.owner_refs.contains_key(entry_owner(s.entries[id])));
    }
}

/// Restoring puts an entry back as it was stored and touches no other; a
/// domain expires when it says.
pub proof fn law_restoring_gives_the_entry_back(
    s: StateModel,
    domain: DomainId,
    st: DomainState,
    tld: TldId,
    space: TldState,
)
    requires
        st.record_hash != Some(zero_digest()),
    ensures
        ({
            let t = s.with_new_domain(domain, st);
            &&& t.entries == s.entries.insert(domain, Entry::Domain(st))
            &&& t.queue == s.queue.insert((st.valid_until, domain))
            &&& t.owner_keys == s.owner_keys && t.banned == s.banned && t.grace == s.grace
        }),
        ({
            let t = s.with_new_tld(tld, space);
            &&& t.entries == s.entries.insert(tld, Entry::Tld(space))
            &&& same_beside_entries(s, t)
        }),
{
}

/// A transaction is signed by its owner exactly if the owner is that of its
/// key, no core rule is broken, and the signature is the key's over the
/// payload.
pub proof fn law_signed_by_the_owner(tx: TxModel)
    ensures
        signature_fault(tx) is None <==> {
            &&& tx.owner == tx.key_owner
            &&& tx.violation is None
            &&& tx.signing_payload matches Ok(payload) && ed25519_verifies(tx.public_key@, payload, tx.signature@)
        },
        tx.owner != tx.key_owner ==> signature_fault(tx) == Some(BlockchainError::OwnerKeyMismatch),
        tx.owner == tx.key_owner && tx.violation is None && (tx.signing_payload matches Ok(payload)
            && !ed25519_verifies(tx.public_key@, payload, tx.signature@)) ==> signature_fault(tx) == Some(
            BlockchainError::InvalidSignature,
        ),
{
}

/// Expiry takes out exactly the domains whose time is over by now, and
/// reports each of them. Every other entry stays, and so do namespaces,
/// known keys and bans. A domain that lapsed is noted with the time at which
/// it expired and the owner who lost it.
pub proof fn law_expiry(s: StateModel, now: u64, id: Digest)
    requires
        coherent(s),
        s.queue.finite(),
        leaves_apart(s.entries),
        has_room(s),
    ensures
        ({
            let (t, log, ids) = collected(s, now);
            let over = s.entries.contains_key(id) && (s.entries[id] matches Entry::Domain(st) && st.valid_until <= now);
            &&& over <==> ids.contains(id)
            &&& over ==> !t.entries.contains_key(id)
            &&& !over ==> (t.entries.contains_key(id) <==> s.entries.contains_key(id))
            &&& !over && s.entries.contains_key(id) ==> t.entries[id] == s.entries[id]
            &&& over ==> t.grace.contains_key(id) && (s.entries[id] matches Entry::Domain(st) && t.grace[id].0
                == st.valid_until && t.grace[id].1 == st.owner)
            &&& !over ==> (t.grace.contains_key(id) <==> s.grace.contains_key(id)) && (s.grace.contains_key(id)
                ==> t.grace[id] == s.grace[id])
            &&& t.owner_keys == s.owner_keys && t.banned == s.banned
        }),
{
    law_collection(s, now);
    let (t, log, ids) = collected(s, now);
    assert(ids.to_set().contains(id) <==> ids.contains(id));
    assert(ids.contains(id) <==> expired_by(s, id, now));
}

/// A domain that expired can be taken by its last owner at once, and by
/// anyone else from 30 days after the expiry on.
pub proof fn law_lapsed_domains_wait_for_their_owner(
    s: StateModel,
    now: u64,
    net: NetworkId,
    tx: TxModel,
    then: u64,
    name: String,
    domain_id: DomainId,
    parent: TldId,
    lapsed: DomainState,
)
    requires
        coherent(s),
        s.queue.finite(),
        leaves_apart(s.entries),
        has_room(s),
        s.entries.contains_key(domain_id),
        s.entries[domain_id] == Entry::Domain(lapsed),
        lapsed.valid_until <= now,
        lapsed.valid_until + 30 * 24 * 3600 <= u64::MAX,
        tx.body == (TxBody::RegisterDomain { name, domain_id, parent }),
        at_home(tx, net),
        tx.pow_fault is None,
        s.entries.contains_key(parent),
        s.entries[parent] matches Entry::Tld(space) && space.open,
    ensures
        tx_fault(collected(s, now).0, net, tx, then) is None <==> tx.owner == lapsed.owner || then
            >= lapsed.valid_until + 30 * 24 * 3600,
{
    law_expiry(s, now, domain_id);
    law_expiry(s, now, parent);
    law_registration(collected(s, now).0, net, tx, then, name, domain_id, parent);
}

/// A proof of work is asked of registrations and of namespace claims, over
/// their names, and of nothing else.
pub proof fn law_proof_of_work(tx: TxModel)
    ensures
        match tx.body {
            TxBody::RegisterDomain { name, .. } => challenged_name(tx) == Some(encode_utf8(name@)),
            TxBody::RegisterTld { name, .. } => challenged_name(tx) == Some(encode_utf8(name@)),
            _ => challenged_name(tx) is None,
        },
{
}

} // verus!

//! Mathematical model of the chain state: what each transaction, the
//! expiry collection and the undo journal do to it.
use vstd::prelude::*;
use crate::entry::DomainState;
use crate::entry::Entry;
use crate::entry::TldState;
use crate::entry::domain_leaf;
use crate::entry::normal;
use crate::entry::tld_leaf;
use crate::error::BlockchainError;
use crate::expiry::due_pairs;
use crate::ids::Digest;
use crate::ids::DomainId;
use crate::ids::OwnerId;
use crate::ids::PublicKey;
use crate::ids::TldId;
use crate::smt::key_of;
use crate::smt_model::Leaves;
use crate::smt_model::with_leaf;
use crate::smt_model::without_leaf;
use crate::types::NetworkId;
use crate::types::TxBody;
use crate::types::TxModel;

verus! {

/// Registration term of a domain: one year.
pub const DOMAIN_TERM_SECS: u64 = 31_536_000;

/// Renewal grace after expiry: 30 days.
pub const DOMAIN_GRACE_SECS: u64 = 2_592_000;

/// Longest registration ahead of the block time: three years.
pub const DOMAIN_MAX_HORIZON_SECS: u64 = 94_608_000;

/// One reversible change, as the undo journal records it.
#[derive(Clone, Copy, Debug)]
#[allow(inconsistent_fields)]
pub enum UndoEntry {
    /// A domain was created; the grace entry that it consumed, if any.
    RegisterDomain { domain: DomainId, consumed_grace: Option<(u64, OwnerId)> },
    /// A domain was updated.
    UpdateDomain { domain: DomainId, prior: DomainState },
    /// A namespace was claimed.
    RegisterTld { tld: TldId },
    /// A namespace changed hands or was opened or closed.
    MutateTld { tld: TldId, prior: TldState },
    /// A namespace was released.
    RevokeTld { tld: TldId, prior: TldState },
    /// A domain was renewed.
    RenewDomain { domain: DomainId, prior: DomainState },
    /// A domain expired and was collected.
    ExpireDomain { domain: DomainId, prior: DomainState },
    /// The key of an owner was learned.
    LearnOwnerKey { owner: OwnerId },
    /// A key was banned.
    BanAnchor { offender: PublicKey },
}

/// The chain state as a value.
#[verifier::ext_equal]
pub struct StateModel {
    /// Registered domains and namespaces, in one key space.
    pub entries: Map<Digest, Entry>,
    pub domain_count: int,
    pub tld_count: int,
    /// Known signing keys of owners.
    pub owner_keys: Map<OwnerId, PublicKey>,
    /// Live registrations per owner.
    pub owner_refs: Map<OwnerId, u64>,
    /// Pending expirations.
    pub queue: Set<(u64, DomainId)>,
    /// Lapsed domains: when, and whose.
    pub grace: Map<DomainId, (u64, OwnerId)>,
    /// Content of the commitment tree.
    pub leaves: Leaves,
    /// Keys out of the eligibility pool for life.
    pub banned: Set<PublicKey>,
}

/// The state of a fresh chain.
pub open spec fn empty_state() -> StateModel {
    StateModel {
        entries: Map::empty(),
        domain_count: 0,
        tld_count: 0,
        owner_keys: Map::empty(),
        owner_refs: Map::empty(),
        queue: Set::empty(),
        grace: Map::empty(),
        leaves: Map::empty(),
        banned: Set::empty(),
    }
}

/// A counter one up; it stops at the largest `usize`.
pub open spec fn count_up(n: int) -> int {
    if n >= usize::MAX {
        n
    } else {
        n + 1
    }
}

/// A counter one down; it stops at zero.
pub open spec fn count_down(n: int) -> int {
    if n <= 0 {
        0
    } else {
        n - 1
    }
}

/// One more live registration of `owner`; the count stops at the largest
/// `u64`.
pub open spec fn acquire(refs: Map<OwnerId, u64>, owner: OwnerId) -> Map<OwnerId, u64> {
    if refs.contains_key(owner) {
        refs.insert(
            owner,
            if refs[owner] == u64::MAX {
                u64::MAX
            } else {
                (refs[owner] + 1) as u64
            },
        )
    } else {
        refs.insert(owner, 1)
    }
}

/// One less live registration of `owner`, who leaves the pool at none.
pub open spec fn release(refs: Map<OwnerId, u64>, owner: OwnerId) -> Map<OwnerId, u64> {
    if refs.contains_key(owner) {
        if refs[owner] <= 1 {
            refs.remove(owner)
        } else {
            refs.insert(owner, (refs[owner] - 1) as u64)
        }
    } else {
        refs
    }
}

impl StateModel {
    /// The domain registered under `id`.
    pub open spec fn domain(self, id: DomainId) -> Option<DomainState> {
        if self.entries.contains_key(id) {
            match self.entries[id] {
                Entry::Domain(st) => Some(st),
                Entry::Tld(_) => None,
            }
        } else {
            None
        }
    }

    /// The namespace registered under `id`.
    pub open spec fn tld(self, id: TldId) -> Option<TldState> {
        if self.entries.contains_key(id) {
            match self.entries[id] {
                Entry::Tld(st) => Some(st),
                Entry::Domain(_) => None,
            }
        } else {
            None
        }
    }

    /// Registered domain ids.
    pub open spec fn domain_ids(self) -> Set<DomainId> {
        self.entries.dom().filter(|id: Digest| self.entries[id] is Domain)
    }

    /// Registered namespace ids.
    pub open spec fn tld_ids(self) -> Set<TldId> {
        self.entries.dom().filter(|id: Digest| self.entries[id] is Tld)
    }

    /// Public keys of the owners of live registrations, without banned ones.
    pub open spec fn pool(self) -> Set<PublicKey> {
        Set::new(
            |k: PublicKey|
                !self.banned.contains(k) && exists|o: OwnerId| #[trigger]
                    self.owner_refs.contains_key(o) && self.owner_keys.contains_key(o)
                        && self.owner_keys[o] == k,
        )
    }

    /// With the leaf of `id` changed from `old` (if any) to `new` (if any).
    pub open spec fn releafed(self, id: Digest, old: Option<Digest>, new: Option<Digest>) -> Leaves {
        let less = match old {
            Some(l) => without_leaf(self.leaves, key_of(id), l),
            None => self.leaves,
        };
        match new {
            Some(l) => with_leaf(less, key_of(id), l),
            None => less,
        }
    }

    /// With a domain stored under `id`.
    pub open spec fn with_domain(self, id: DomainId, st: DomainState) -> Map<Digest, Entry> {
        self.entries.insert(id, Entry::Domain(normal(st)))
    }

    /// With a fresh domain registered.
    pub open spec fn with_new_domain(self, id: DomainId, st: DomainState) -> StateModel {
        StateModel {
            leaves: self.releafed(id, None, Some(domain_leaf(id, st))),
            entries: self.with_domain(id, st),
            domain_count: count_up(self.domain_count),
            queue: self.queue.insert((st.valid_until, id)),
            owner_refs: acquire(self.owner_refs, st.owner),
            ..self
        }
    }

    /// With a fresh namespace registered.
    pub open spec fn with_new_tld(self, id: TldId, st: TldState) -> StateModel {
        StateModel {
            leaves: self.releafed(id, None, Some(tld_leaf(id, st))),
            entries: self.entries.insert(id, Entry::Tld(st)),
            tld_count: count_up(self.tld_count),
            owner_refs: acquire(self.owner_refs, st.owner),
            ..self
        }
    }

    /// With the domain `id`, now in state `st`, taken out of the registry.
    pub open spec fn without_domain(self, id: DomainId, st: DomainState) -> StateModel {
        StateModel {
            leaves: self.releafed(id, Some(domain_leaf(id, st)), None),
            entries: self.entries.remove(id),
            domain_count: count_down(self.domain_count),
            owner_refs: release(self.owner_refs, st.owner),
            ..self
        }
    }

    /// With the namespace `id`, now in state `st`, taken out of the registry.
    pub open spec fn without_tld(self, id: TldId, st: TldState) -> StateModel {
        StateModel {
            leaves: self.releafed(id, Some(tld_leaf(id, st)), None),
            entries: self.entries.remove(id),
            tld_count: count_down(self.tld_count),
            owner_refs: release(self.owner_refs, st.owner),
            ..self
        }
    }

    /// With the key of an owner noted, if none was known.
    pub open spec fn learned(self, owner: OwnerId, key: PublicKey) -> StateModel {
        if self.owner_keys.contains_key(owner) {
            self
        } else {
            StateModel { owner_keys: self.owner_keys.insert(owner, key), ..self }
        }
    }

    /// What is journaled for noting the key of an owner.
    pub open spec fn learn_log(self, owner: OwnerId) -> Seq<UndoEntry> {
        if self.owner_keys.contains_key(owner) {
            Seq::empty()
        } else {
            seq![UndoEntry::LearnOwnerKey { owner }]
        }
    }

    /// The grace entry of a domain.
    pub open spec fn grace_of(self, id: DomainId) -> Option<(u64, OwnerId)> {
        if self.grace.contains_key(id) {
            Some(self.grace[id])
        } else {
            None
        }
    }

    /// Whether `claimant` may take the domain at `now`: it is not
    /// registered, and not in another owner's grace window.
    pub open spec fn domain_free(self, id: DomainId, now: u64, claimant: OwnerId) -> bool {
        &&& self.domain(id) is None
        &&& self.grace.contains_key(id) ==> now >= grace_end(self.grace[id].0) || claimant == self.grace[id].1
    }
}

/// A domain right after registration.
pub open spec fn fresh_domain(owner: OwnerId, now: u64) -> DomainState {
    DomainState {
        owner,
        sequence: 0,
        record_hash: None,
        registered_at: now,
        valid_until: term_end(now),
    }
}

/// End of a term that starts at `now`.
pub open spec fn term_end(now: u64) -> u64 {
    if now + DOMAIN_TERM_SECS > u64::MAX {
        u64::MAX
    } else {
        (now + DOMAIN_TERM_SECS) as u64
    }
}

/// End of the grace window of a domain that expired at `at`.
pub open spec fn grace_end(at: u64) -> u64 {
    if at + DOMAIN_GRACE_SECS > u64::MAX {
        u64::MAX
    } else {
        (at + DOMAIN_GRACE_SECS) as u64
    }
}

/// Latest expiry that a renewal may ask for.
pub open spec fn horizon(now: u64) -> u64 {
    if now + DOMAIN_MAX_HORIZON_SECS > u64::MAX {
        u64::MAX
    } else {
        (now + DOMAIN_MAX_HORIZON_SECS) as u64
    }
}

/// Which rule a transaction breaks, if any, on a chain of network `net` at
/// block time `now`.
pub open spec fn tx_fault(s: StateModel, net: NetworkId, tx: TxModel, now: u64) -> Option<BlockchainError> {
    if tx.violation is Some {
        Some(BlockchainError::Core(tx.violation->0))
    } else if tx.network != net {
        Some(BlockchainError::WrongNetwork { tx: tx.network, chain: net })
    } else {
        match tx.body {
            TxBody::RegisterDomain { name, domain_id, parent } => {
                if s.tld(parent) is None {
                    Some(BlockchainError::UnknownTld)
                } else if !s.tld(parent)->0.open {
                    Some(BlockchainError::TldClosed)
                } else if !s.domain_free(domain_id, now, tx.owner) {
                    Some(BlockchainError::DomainAlreadyRegistered)
                } else if tx.pow_fault is Some {
                    Some(BlockchainError::Core(tx.pow_fault->0))
                } else {
                    None
                }
            },
            TxBody::UpdateDomain { domain_id, sequence, record_hash } => {
                if s.domain(domain_id) is None {
                    Some(BlockchainError::UnknownDomain)
                } else if s.domain(domain_id)->0.owner != tx.owner {
                    Some(BlockchainError::NotOwner)
                } else if s.domain(domain_id)->0.sequence == u64::MAX {
                    Some(BlockchainError::InvalidSequence { expected: u64::MAX, got: sequence })
                } else if sequence != s.domain(domain_id)->0.sequence + 1 {
                    Some(
                        BlockchainError::InvalidSequence {
                            expected: (s.domain(domain_id)->0.sequence + 1) as u64,
                            got: sequence,
                        },
                    )
                } else {
                    None
                }
            },
            TxBody::RegisterTld { name, tld_id } => {
                if s.tld(tld_id) is Some {
                    Some(BlockchainError::TldAlreadyRegistered)
                } else if tx.reserved_tld {
                    Some(BlockchainError::IcannTldReserved(name))
                } else if tx.pow_fault is Some {
                    Some(BlockchainError::Core(tx.pow_fault->0))
                } else {
                    None
                }
            },
            TxBody::TransferTld { tld_id, new_owner } => tld_owner_fault(s, tld_id, tx.owner),
            TxBody::RevokeTld { tld_id } => tld_owner_fault(s, tld_id, tx.owner),
            TxBody::SetTldOpen { tld_id, open } => tld_owner_fault(s, tld_id, tx.owner),
            TxBody::AssignDomain { name, domain_id, parent, assignee } => {
                if tld_owner_fault(s, parent, tx.owner) is Some {
                    tld_owner_fault(s, parent, tx.owner)
                } else if !s.domain_free(domain_id, now, assignee) {
                    Some(BlockchainError::DomainAlreadyRegistered)
                } else {
                    None
                }
            },
            TxBody::RenewDomain { domain_id, valid_until } => {
                if s.domain(domain_id) is None {
                    Some(BlockchainError::UnknownDomain)
                } else if s.domain(domain_id)->0.owner != tx.owner {
                    Some(BlockchainError::NotOwner)
                } else if valid_until <= s.domain(domain_id)->0.valid_until {
                    Some(
                        BlockchainError::RenewalNotExtending {
                            current: s.domain(domain_id)->0.valid_until,
                            proposed: valid_until,
                        },
                    )
                } else if valid_until > horizon(now) {
                    Some(BlockchainError::RenewalExceedsTerm { max: horizon(now), proposed: valid_until })
                } else {
                    None
                }
            },
            TxBody::Slash { offender } => {
                if s.banned.contains(offender) {
                    None
                } else if !s.pool().contains(offender) {
                    Some(BlockchainError::SlashOffenderNotInPool)
                } else {
                    None
                }
            },
        }
    }
}

/// What stops `owner` from acting on a namespace.
pub open spec fn tld_owner_fault(s: StateModel, tld: TldId, owner: OwnerId) -> Option<BlockchainError> {
    if s.tld(tld) is None {
        Some(BlockchainError::UnknownTld)
    } else if s.tld(tld)->0.owner != owner {
        Some(BlockchainError::NotTldOwner)
    } else {
        None
    }
}

/// The state after a transaction that breaks no rule.
pub open spec fn tx_applied(s: StateModel, tx: TxModel, now: u64) -> StateModel {
    match tx.body {
        TxBody::RegisterDomain { name, domain_id, parent } => {
            let l = s.learned(tx.owner, tx.public_key);
            StateModel { grace: l.grace.remove(domain_id), ..l }.with_new_domain(
                domain_id,
                fresh_domain(tx.owner, now),
            )
        },
        TxBody::UpdateDomain { domain_id, sequence, record_hash } => {
            let l = s.learned(tx.owner, tx.public_key);
            let prior = s.domain(domain_id)->0;
            let next = DomainState { sequence, record_hash: Some(record_hash), ..prior };
            StateModel {
                leaves: l.releafed(
                    domain_id,
                    Some(domain_leaf(domain_id, prior)),
                    Some(domain_leaf(domain_id, next)),
                ),
                entries: l.with_domain(domain_id, next),
                ..l
            }
        },
        TxBody::RegisterTld { name, tld_id } => s.learned(tx.owner, tx.public_key).with_new_tld(
            tld_id,
            TldState { owner: tx.owner, open: false },
        ),
        TxBody::TransferTld { tld_id, new_owner } => {
            let prior = s.tld(tld_id)->0;
            let next = TldState { owner: new_owner, ..prior };
            StateModel {
                leaves: s.releafed(tld_id, Some(tld_leaf(tld_id, prior)), Some(tld_leaf(tld_id, next))),
                entries: s.entries.insert(tld_id, Entry::Tld(next)),
                owner_refs: acquire(release(s.owner_refs, prior.owner), new_owner),
                ..s
            }
        },
        TxBody::RevokeTld { tld_id } => s.without_tld(tld_id, s.tld(tld_id)->0),
        TxBody::SetTldOpen { tld_id, open } => {
            let prior = s.tld(tld_id)->0;
            let next = TldState { open, ..prior };
            StateModel {
                leaves: s.releafed(tld_id, Some(tld_leaf(tld_id, prior)), Some(tld_leaf(tld_id, next))),
                entries: s.entries.insert(tld_id, Entry::Tld(next)),
                ..s
            }
        },
        TxBody::AssignDomain { name, domain_id, parent, assignee } => StateModel {
            grace: s.grace.remove(domain_id),
            ..s
        }.with_new_domain(domain_id, fresh_domain(assignee, now)),
        TxBody::RenewDomain { domain_id, valid_until } => {
            let prior = s.domain(domain_id)->0;
            let next = DomainState { valid_until, ..prior };
            StateModel {
                queue: s.queue.remove((prior.valid_until, domain_id)).insert((valid_until, domain_id)),
                leaves: s.releafed(
                    domain_id,
                    Some(domain_leaf(domain_id, prior)),
                    Some(domain_leaf(domain_id, next)),
                ),
                entries: s.with_domain(domain_id, next),
                ..s
            }
        },
        TxBody::Slash { offender } => StateModel { banned: s.banned.insert(offender), ..s },
    }
}

/// What is journaled for a transaction that breaks no rule.
pub open spec fn tx_log(s: StateModel, tx: TxModel) -> Seq<UndoEntry> {
    match tx.body {
        TxBody::RegisterDomain { name, domain_id, parent } => s.learn_log(tx.owner).push(
            UndoEntry::RegisterDomain { domain: domain_id, consumed_grace: s.grace_of(domain_id) },
        ),
        TxBody::UpdateDomain { domain_id, sequence, record_hash } => s.learn_log(tx.owner).push(
            UndoEntry::UpdateDomain { domain: domain_id, prior: s.domain(domain_id)->0 },
        ),
        TxBody::RegisterTld { name, tld_id } => s.learn_log(tx.owner).push(
            UndoEntry::RegisterTld { tld: tld_id },
        ),
        TxBody::TransferTld { tld_id, new_owner } => seq![
            UndoEntry::MutateTld { tld: tld_id, prior: s.tld(tld_id)->0 },
        ],
        TxBody::RevokeTld { tld_id } => seq![
            UndoEntry::RevokeTld { tld: tld_id, prior: s.tld(tld_id)->0 },
        ],
        TxBody::SetTldOpen { tld_id, open } => seq![
            UndoEntry::MutateTld { tld: tld_id, prior: s.tld(tld_id)->0 },
        ],
        TxBody::AssignDomain { name, domain_id, parent, assignee } => seq![
            UndoEntry::RegisterDomain { domain: domain_id, consumed_grace: s.grace_of(domain_id) },
        ],
        TxBody::RenewDomain { domain_id, valid_until } => seq![
            UndoEntry::RenewDomain { domain: domain_id, prior: s.domain(domain_id)->0 },
        ],
        TxBody::Slash { offender } => if s.banned.contains(offender) {
            Seq::empty()
        } else {
            seq![UndoEntry::BanAnchor { offender }]
        },
    }
}

/// One step of the expiry collection: the domain of a due pair.
pub open spec fn collect_one(s: StateModel, id: DomainId, now: u64) -> StateModel {
    match s.domain(id) {
        None => s,
        Some(prior) => if prior.valid_until > now {
            StateModel { queue: s.queue.insert((prior.valid_until, id)), ..s }
        } else {
            let t = s.without_domain(id, prior);
            StateModel { grace: t.grace.insert(id, (prior.valid_until, prior.owner)), ..t }
        },
    }
}

/// What is journaled for one step of the expiry collection.
pub open spec fn collect_log(s: StateModel, id: DomainId, now: u64) -> Seq<UndoEntry> {
    match s.domain(id) {
        None => Seq::empty(),
        Some(prior) => if prior.valid_until > now {
            Seq::empty()
        } else {
            seq![UndoEntry::ExpireDomain { domain: id, prior }]
        },
    }
}

/// The expiry collection over due pairs: state, journal, collected ids.
pub open spec fn collect_fold(s: StateModel, due: Seq<(u64, DomainId)>, now: u64) -> (
    StateModel,
    Seq<UndoEntry>,
    Seq<DomainId>,
)
    decreases due.len(),
{
    if due.len() == 0 {
        (s, Seq::empty(), Seq::empty())
    } else {
        let (t, log, ids) = collect_fold(s, due.drop_last(), now);
        let id = due.last().1;
        let more = collect_log(t, id, now);
        (
            collect_one(t, id, now),
            log + more,
            if more.len() > 0 {
                ids.push(id)
            } else {
                ids
            },
        )
    }
}

/// The state without the due pairs in its queue.
pub open spec fn dequeued(s: StateModel, now: u64) -> StateModel {
    StateModel { queue: s.queue.filter(|p: (u64, DomainId)| p.0 > now), ..s }
}

/// The expiry collection at `now`.
pub open spec fn collected(s: StateModel, now: u64) -> (StateModel, Seq<UndoEntry>, Seq<DomainId>) {
    collect_fold(dequeued(s, now), due_pairs(s.queue, now), now)
}

/// Undoing one journaled change.
pub open spec fn undone_one(s: StateModel, e: UndoEntry) -> StateModel {
    match e {
        UndoEntry::RegisterDomain { domain, consumed_grace } => {
            let t = match s.domain(domain) {
                Some(st) => {
                    let u = s.without_domain(domain, st);
                    StateModel { queue: u.queue.remove((st.valid_until, domain)), ..u }
                },
                None => s,
            };
            match consumed_grace {
                Some(g) => StateModel { grace: t.grace.insert(domain, g), ..t },
                None => t,
            }
        },
        UndoEntry::UpdateDomain { domain, prior } => {
            StateModel {
                leaves: match s.domain(domain) {
                    Some(st) => s.releafed(
                        domain,
                        Some(domain_leaf(domain, st)),
                        Some(domain_leaf(domain, prior)),
                    ),
                    None => s.leaves,
                },
                entries: s.with_domain(domain, prior),
                ..s
            }
        },
        UndoEntry::RegisterTld { tld } => match s.tld(tld) {
            Some(st) => s.without_tld(tld, st),
            None => s,
        },
        UndoEntry::MutateTld { tld, prior } => {
            let t = match s.tld(tld) {
                Some(st) => StateModel {
                    leaves: s.releafed(tld, Some(tld_leaf(tld, st)), Some(tld_leaf(tld, prior))),
                    owner_refs: acquire(release(s.owner_refs, st.owner), prior.owner),
                    ..s
                },
                None => s,
            };
            StateModel { entries: t.entries.insert(tld, Entry::Tld(prior)), ..t }
        },
        UndoEntry::RevokeTld { tld, prior } => s.with_new_tld(tld, prior),
        UndoEntry::RenewDomain { domain, prior } => {
            let t = match s.domain(domain) {
                Some(st) => StateModel {
                    leaves: s.releafed(
                        domain,
                        Some(domain_leaf(domain, st)),
                        Some(domain_leaf(domain, prior)),
                    ),
                    queue: s.queue.remove((st.valid_until, domain)),
                    ..s
                },
                None => s,
            };
            StateModel {
                queue: t.queue.insert((prior.valid_until, domain)),
                entries: t.with_domain(domain, prior),
                ..t
            }
        },
        UndoEntry::ExpireDomain { domain, prior } => StateModel {
            grace: s.grace.remove(domain),
            ..s
        }.with_new_domain(domain, prior),
        UndoEntry::LearnOwnerKey { owner } => StateModel { owner_keys: s.owner_keys.remove(owner), ..s },
        UndoEntry::BanAnchor { offender } => StateModel { banned: s.banned.remove(offender), ..s },
    }
}

/// Undoing a journal, most recent change first.
pub open spec fn undone(s: StateModel, log: Seq<UndoEntry>) -> StateModel
    decreases log.len(),
{
    if log.len() == 0 {
        s
    } else {
        undone(undone_one(s, log.last()), log.drop_last())
    }
}

} // verus!

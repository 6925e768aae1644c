//! The chain state and the rules that transactions follow.
use vstd::prelude::*;
use vstd::utf8::encode_utf8;
use crate::archive::BAN_LEAF_TAG;
use crate::archive::OWNER_LEAF_TAG;
use crate::archive::STATE_V2_TAG;
use crate::archive::archive_root;
use crate::archive::entries_root;
use crate::archive::fold_tag;
use crate::archive::leaves_at;
use crate::archive::list_root;
use crate::archive::set_root;
use crate::digest::append_bytes;
use crate::digest::blake3_digest;
use crate::digest::hash256;
use crate::entry::DomainState;
use crate::entry::Entry;
use crate::entry::TldState;
use crate::entry::decode_domain_entry;
use crate::entry::decode_tld_entry;
use crate::entry::domain_leaf;
use crate::entry::domain_leaf_v2;
use crate::entry::encode_domain_entry;
use crate::entry::encode_tld_entry;
use crate::entry::entry_from;
use crate::entry::entry_sized;
use crate::entry::law_domain_entry_roundtrip;
use crate::entry::law_tld_entry_roundtrip;
use crate::entry::tld_leaf;
use crate::entry::tld_leaf_v2;
use crate::error::BlockchainError;
use crate::expiry::ExpiryQueue;
use crate::expiry::due_pairs;
use crate::expiry::pairs_ascending;
use crate::fold::fold_hashes;
use crate::idmap::IdMap;
use crate::ids::Digest;
use crate::ids::DomainId;
use crate::ids::OwnerId;
use crate::ids::PublicKey;
use crate::ids::TldId;
use crate::ids::ascending;
use crate::ids::ordinal;
use crate::ids::same_id;
use crate::smt::Smt;
use crate::smt::law_restored_tree_is_the_tree;
use crate::smt::law_shape_is_a_function_of_content;
use crate::smt::same_digests;
use crate::smt::smt_key;
use crate::smt_model::Leaves;
use crate::smt_model::lemma_sorted_members;
use crate::smt_model::smt_root;
use crate::smt_model::sorted_members;
use crate::state_backend::MemoryBackend;
use crate::state_backend::Pkey;
use crate::state_backend::StateBackend;
use crate::state_backend::domain_key;
use crate::state_backend::in_scan;
use crate::state_backend::is_page;
use crate::state_backend::tld_key;
use crate::state_laws::domains_in;
use crate::state_laws::tlds_in;
use crate::state_model::DOMAIN_GRACE_SECS;
use crate::state_model::DOMAIN_MAX_HORIZON_SECS;
use crate::state_model::DOMAIN_TERM_SECS;
use crate::state_model::StateModel;
use crate::state_model::UndoEntry;
use crate::state_model::acquire;
use crate::state_model::collect_fold;
use crate::state_model::collect_log;
use crate::state_model::collect_one;
use crate::state_model::collected;
use crate::state_model::dequeued;
use crate::state_model::empty_state;
use crate::state_model::fresh_domain;
use crate::state_model::release;
use crate::state_model::tld_owner_fault;
use crate::state_model::tx_applied;
use crate::state_model::tx_fault;
use crate::state_model::tx_log;
use crate::state_model::undone;
use crate::state_model::undone_one;
use crate::text::text_bytes;
use crate::types::NetworkId;
use crate::types::NetworkModel;
use crate::types::NetworkParams;
use crate::types::Transaction;
use crate::types::TxBody;
use crate::types::TxModel;

verus! {

/// Tag of the canonical state root: `SCONE-STATE-SMT-V1`.
pub const STATE_SMT_TAG: [u8; 18] = [83, 67, 79, 78, 69, 45, 83, 84, 65, 84, 69, 45, 83, 77, 84, 45, 86, 49];

/// Revert journal of a block application.
pub struct UndoLog {
    entries: Vec<UndoEntry>,
}

impl View for UndoLog {
    type V = Seq<UndoEntry>;

    closed spec fn view(&self) -> Seq<UndoEntry> {
        self.entries@
    }
}

impl UndoLog {
    /// An empty journal.
    pub fn new() -> (log: Self)
        ensures
            log@ == Seq::<UndoEntry>::empty(),
    {
        UndoLog { entries: Vec::new() }
    }

    /// Number of journaled changes.
    pub fn len(&self) -> (n: usize)
        ensures
            n == self@.len(),
    {
        self.entries.len()
    }

    /// Adds a change.
    fn push(&mut self, e: UndoEntry)
        ensures
            final(self)@ == old(self)@.push(e),
    {
        self.entries.push(e);
    }
}

/// What the proof of work of a registration has to solve.
#[derive(Clone, Copy, Debug, PartialEq, Eq)]
pub struct PowTask {
    pub network: NetworkId,
    /// Whether a namespace is claimed, or else a domain registered.
    pub for_tld: bool,
    pub difficulty: u32,
}

/// The name that the proof of work of a transaction has to be over, as bytes:
/// that of the domain or of the namespace that it registers.
pub open spec fn challenged_name(tx: TxModel) -> Option<Seq<u8>> {
    match tx.body {
        TxBody::RegisterDomain { name, domain_id, parent } => Some(encode_utf8(name@)),
        TxBody::RegisterTld { name, tld_id } => Some(encode_utf8(name@)),
        _ => None,
    }
}

/// The canonical state root over a content of the commitment tree.
pub open spec fn smt_state_root(m: Leaves) -> Digest {
    blake3_digest(STATE_SMT_TAG@ + smt_root(m)@)
}

/// The canonical state root of a tree root.
pub(crate) fn top_hash(root: &Digest) -> (h: Digest)
    ensures
        h == blake3_digest(STATE_SMT_TAG@ + root@),
{
    let tag: [u8; 18] = STATE_SMT_TAG;
    let mut top: Vec<u8> = Vec::new();
    append_bytes(&mut top, tag.as_slice());
    append_bytes(&mut top, root.as_slice());
    assert(top@ =~= STATE_SMT_TAG@ + root@);
    hash256(&top)
}

/// Entries per page of a scan.
const SCAN_PAGE: usize = 1024;

/// Authoritative state of a chain.
pub struct ChainState {
    network: NetworkParams,
    backend: MemoryBackend,
    domain_count: usize,
    tld_count: usize,
    owner_keys: IdMap<PublicKey>,
    owner_refcounts: IdMap<u64>,
    expirations: ExpiryQueue,
    grace: IdMap<(u64, OwnerId)>,
    smt: Smt,
    banned: IdMap<()>,
}

/// The entries that a store spells.
pub open spec fn entries_of(m: Map<Pkey, Seq<u8>>) -> Map<Digest, Entry> {
    m.map_values(|b: Seq<u8>| entry_from(b))
}

impl View for ChainState {
    type V = StateModel;

    closed spec fn view(&self) -> StateModel {
        StateModel {
            entries: entries_of(self.backend.entries()),
            domain_count: self.domain_count as int,
            tld_count: self.tld_count as int,
            owner_keys: self.owner_keys@,
            owner_refs: self.owner_refcounts@,
            queue: self.expirations@,
            grace: self.grace@,
            leaves: self.smt@,
            banned: self.banned@.dom(),
        }
    }
}

impl ChainState {
    /// Every part is in order.
    pub closed spec fn wf(&self) -> bool {
        &&& self.backend.in_order()
        &&& forall|k: Pkey| #[trigger] self.backend.entries().contains_key(k) ==> entry_sized(
            self.backend.entries()[k],
        )
        &&& self.owner_keys.wf()
        &&& self.owner_refcounts.wf()
        &&& self.expirations.wf()
        &&& self.grace.wf()
        &&& self.smt.wf()
        &&& self.banned.wf()
    }

    /// Parameters of the network that the state belongs to.
    pub closed spec fn params(&self) -> NetworkModel {
        self.network@
    }

    /// The commitment tree.
    pub closed spec fn tree(&self) -> Smt {
        self.smt
    }

    /// Empty state of a network.
    pub fn for_network(network: NetworkParams) -> (state: Self)
        ensures
            state.wf(),
            state@ == empty_state(),
            state.params() == network@,
    {
        let state = ChainState {
            network,
            backend: MemoryBackend::new(),
            domain_count: 0,
            tld_count: 0,
            owner_keys: IdMap::new(),
            owner_refcounts: IdMap::new(),
            expirations: ExpiryQueue::new(),
            grace: IdMap::new(),
            smt: Smt::new(),
            banned: IdMap::new(),
        };
        assert(state@ =~= empty_state());
        state
    }

    /// The network that the state belongs to.
    pub fn network(&self) -> (network: NetworkParams)
        ensures
            network@ == self.params(),
    {
        self.network.clone()
    }

    /// Number of registered domains.
    pub fn len(&self) -> (n: usize)
        ensures
            n == self@.domain_count,
    {
        self.domain_count
    }

    /// Whether no domain is registered.
    pub fn is_empty(&self) -> (r: bool)
        ensures
            r == (self@.domain_count == 0),
    {
        self.domain_count == 0
    }

    /// Number of registered namespaces.
    pub fn tld_len(&self) -> (n: usize)
        ensures
            n == self@.tld_count,
    {
        self.tld_count
    }

    /// Whether no namespace is registered.
    pub fn tld_is_empty(&self) -> (r: bool)
        ensures
            r == (self@.tld_count == 0),
    {
        self.tld_count == 0
    }

    /// Current state of a domain, if it is registered.
    pub fn domain(&self, domain: &DomainId) -> (st: Option<DomainState>)
        requires
            self.wf(),
        ensures
            st == self@.domain(*domain),
    {
        match self.backend.get(&domain_key(domain)) {
            Some(b) => decode_domain_entry(&b),
            None => None,
        }
    }

    /// Current state of a namespace, if it is registered.
    pub fn tld(&self, tld: &TldId) -> (st: Option<TldState>)
        requires
            self.wf(),
        ensures
            st == self@.tld(*tld),
    {
        match self.backend.get(&tld_key(tld)) {
            Some(b) => decode_tld_entry(&b),
            None => None,
        }
    }

    /// Owners of live registrations, in ascending order.
    pub fn owners(&self) -> (owners: Vec<OwnerId>)
        requires
            self.wf(),
        ensures
            ascending(owners@),
            owners@.to_set() == self@.owner_refs.dom(),
    {
        map_keys_ascending(&self.owner_refcounts)
    }

    /// Pending expirations, in order of expiry.
    pub fn pending_expirations(&self) -> (pairs: Vec<(u64, DomainId)>)
        requires
            self.wf(),
        ensures
            pairs_ascending(pairs@),
            pairs@.to_set() == self@.queue,
    {
        self.expirations.to_pairs()
    }

    /// Whether a key is out of the eligibility pool for life.
    pub fn is_banned(&self, key: &PublicKey) -> (r: bool)
        requires
            self.wf(),
        ensures
            r == self@.banned.contains(*key),
    {
        self.banned.contains_key(key)
    }

    /// The commitment tree.
    pub fn smt(&self) -> (tree: &Smt)
        requires
            self.wf(),
        ensures
            tree.wf(),
            tree@ == self@.leaves,
    {
        &self.smt
    }

    /// Canonical state root: the tagged root of the commitment tree.
    pub fn state_root_smt(&self) -> (root: Digest)
        requires
            self.wf(),
        ensures
            root == smt_state_root(self@.leaves),
    {
        let r = self.smt.root();
        top_hash(&r)
    }

    /// Stores a domain.
    fn put_domain_entry(&mut self, id: &DomainId, st: &DomainState)
        requires
            old(self).wf(),
        ensures
            final(self).wf(),
            final(self)@ == (StateModel { entries: old(self)@.with_domain(*id, *st), ..old(self)@ }),
            final(self).network == old(self).network,
    {
        let b = encode_domain_entry(st);
        self.backend.put(domain_key(id), b);
        proof {
            law_domain_entry_roundtrip(*st);
            assert(entries_of(self.backend.entries()) =~= old(self)@.with_domain(*id, *st));
        }
    }

    /// Stores a namespace.
    fn put_tld_entry(&mut self, id: &TldId, st: &TldState)
        requires
            old(self).wf(),
        ensures
            final(self).wf(),
            final(self)@ == (StateModel {
                entries: old(self)@.entries.insert(*id, Entry::Tld(*st)),
                ..old(self)@
            }),
            final(self).network == old(self).network,
    {
        let b = encode_tld_entry(st);
        self.backend.put(tld_key(id), b);
        proof {
            law_tld_entry_roundtrip(*st);
            assert(entries_of(self.backend.entries()) =~= old(self)@.entries.insert(*id, Entry::Tld(*st)));
        }
    }

    /// Removes an entry.
    fn remove_entry(&mut self, id: &Digest)
        requires
            old(self).wf(),
        ensures
            final(self).wf(),
            final(self)@ == (StateModel { entries: old(self)@.entries.remove(*id), ..old(self)@ }),
            final(self).network == old(self).network,
    {
        self.backend.delete(id);
        assert(entries_of(self.backend.entries()) =~= old(self)@.entries.remove(*id));
    }

    /// Notes one more live registration of an owner.
    fn owner_acquire(&mut self, owner: OwnerId)
        requires
            old(self).wf(),
        ensures
            final(self).wf(),
            final(self)@ == (StateModel { owner_refs: acquire(old(self)@.owner_refs, owner), ..old(self)@ }),
            final(self).network == old(self).network,
    {
        let n: u64 = match self.owner_refcounts.get(&owner) {
            Some(n) => n.saturating_add(1),
            None => 1,
        };
        self.owner_refcounts.insert(owner, n);
    }

    /// Notes one less live registration of an owner, who leaves the pool at
    /// none.
    fn owner_release(&mut self, owner: OwnerId)
        requires
            old(self).wf(),
        ensures
            final(self).wf(),
            final(self)@ == (StateModel { owner_refs: release(old(self)@.owner_refs, owner), ..old(self)@ }),
            final(self).network == old(self).network,
    {
        let held: Option<u64> = match self.owner_refcounts.get(&owner) {
            Some(n) => Some(*n),
            None => None,
        };
        match held {
            Some(n) => {
                if n <= 1 {
                    self.owner_refcounts.remove(&owner);
                } else {
                    self.owner_refcounts.insert(owner, n - 1);
                }
            },
            None => {},
        }
    }

    /// Parks a domain to expire at `until`.
    fn expiration_enqueue(&mut self, until: u64, domain: DomainId)
        requires
            old(self).wf(),
        ensures
            final(self).wf(),
            final(self)@ == (StateModel { queue: old(self)@.queue.insert((until, domain)), ..old(self)@ }),
            final(self).network == old(self).network,
    {
        self.expirations.insert(until, domain);
    }

    /// Takes a domain out of its expiry slot.
    fn expiration_dequeue(&mut self, until: u64, domain: DomainId)
        requires
            old(self).wf(),
        ensures
            final(self).wf(),
            final(self)@ == (StateModel { queue: old(self)@.queue.remove((until, domain)), ..old(self)@ }),
            final(self).network == old(self).network,
    {
        self.expirations.remove(until, domain);
    }

    /// Changes the commitment leaf of an entry.
    fn releaf(&mut self, id: &Digest, before: Option<Digest>, after: Option<Digest>)
        requires
            old(self).wf(),
        ensures
            final(self).wf(),
            final(self)@ == (StateModel { leaves: old(self)@.releafed(*id, before, after), ..old(self)@ }),
            final(self).network == old(self).network,
    {
        let key = smt_key(id);
        match before {
            Some(l) => {
                self.smt.remove(key, &l);
            },
            None => {},
        }
        match after {
            Some(l) => {
                self.smt.insert(key, l);
            },
            None => {},
        }
    }

    /// Registers a fresh domain: entry, leaf, counter, queue, owner pool.
    fn add_domain(&mut self, id: &DomainId, st: &DomainState)
        requires
            old(self).wf(),
        ensures
            final(self).wf(),
            final(self)@ == old(self)@.with_new_domain(*id, *st),
            final(self).network == old(self).network,
    {
        let leaf = domain_leaf_v2(id, st);
        self.releaf(id, None, Some(leaf));
        self.put_domain_entry(id, st);
        self.domain_count = self.domain_count.saturating_add(1);
        self.expiration_enqueue(st.valid_until, *id);
        self.owner_acquire(st.owner);
        assert(self@ =~= old(self)@.with_new_domain(*id, *st));
    }

    /// Takes a domain out: entry, leaf, counter, owner pool.
    fn drop_domain(&mut self, id: &DomainId, st: &DomainState)
        requires
            old(self).wf(),
        ensures
            final(self).wf(),
            final(self)@ == old(self)@.without_domain(*id, *st),
            final(self).network == old(self).network,
    {
        let leaf = domain_leaf_v2(id, st);
        self.releaf(id, Some(leaf), None);
        self.remove_entry(id);
        self.domain_count = self.domain_count.saturating_sub(1);
        self.owner_release(st.owner);
        assert(self@ =~= old(self)@.without_domain(*id, *st));
    }

    /// Registers a fresh namespace: entry, leaf, counter, owner pool.
    fn add_tld(&mut self, id: &TldId, st: &TldState)
        requires
            old(self).wf(),
        ensures
            final(self).wf(),
            final(self)@ == old(self)@.with_new_tld(*id, *st),
            final(self).network == old(self).network,
    {
        let leaf = tld_leaf_v2(id, st);
        self.releaf(id, None, Some(leaf));
        self.put_tld_entry(id, st);
        self.tld_count = self.tld_count.saturating_add(1);
        self.owner_acquire(st.owner);
        assert(self@ =~= old(self)@.with_new_tld(*id, *st));
    }

    /// Takes a namespace out: entry, leaf, counter, owner pool.
    fn drop_tld(&mut self, id: &TldId, st: &TldState)
        requires
            old(self).wf(),
        ensures
            final(self).wf(),
            final(self)@ == old(self)@.without_tld(*id, *st),
            final(self).network == old(self).network,
    {
        let leaf = tld_leaf_v2(id, st);
        self.releaf(id, Some(leaf), None);
        self.remove_entry(id);
        self.tld_count = self.tld_count.saturating_sub(1);
        self.owner_release(st.owner);
        assert(self@ =~= old(self)@.without_tld(*id, *st));
    }

    /// Replaces a namespace: entry and leaf.
    fn replace_tld(&mut self, id: &TldId, prior: &TldState, next: &TldState)
        requires
            old(self).wf(),
        ensures
            final(self).wf(),
            final(self)@ == (StateModel {
                leaves: old(self)@.releafed(
                    *id,
                    Some(tld_leaf(*id, *prior)),
                    Some(tld_leaf(*id, *next)),
                ),
                entries: old(self)@.entries.insert(*id, Entry::Tld(*next)),
                ..old(self)@
            }),
            final(self).network == old(self).network,
    {
        let a = tld_leaf_v2(id, prior);
        let b = tld_leaf_v2(id, next);
        self.releaf(id, Some(a), Some(b));
        self.put_tld_entry(id, next);
    }

    /// Replaces a domain: entry and leaf.
    fn replace_domain(&mut self, id: &DomainId, prior: &DomainState, next: &DomainState)
        requires
            old(self).wf(),
        ensures
            final(self).wf(),
            final(self)@ == (StateModel {
                leaves: old(self)@.releafed(
                    *id,
                    Some(domain_leaf(*id, *prior)),
                    Some(domain_leaf(*id, *next)),
                ),
                entries: old(self)@.with_domain(*id, *next),
                ..old(self)@
            }),
            final(self).network == old(self).network,
    {
        let a = domain_leaf_v2(id, prior);
        let b = domain_leaf_v2(id, next);
        self.releaf(id, Some(a), Some(b));
        self.put_domain_entry(id, next);
    }

    /// Restores a stored domain, with no rule applied.
    pub fn restore_domain(&mut self, domain: DomainId, state: DomainState) -> (r: Result<(), BlockchainError>)
        requires
            old(self).wf(),
        ensures
            final(self).wf(),
            final(self).params() == old(self).params(),
            old(self)@.domain(domain) is Some ==> r == Err::<(), BlockchainError>(
                BlockchainError::DomainAlreadyRegistered,
            ) && final(self)@ == old(self)@,
            old(self)@.domain(domain) is None ==> r is Ok && final(self)@ == old(self)@.with_new_domain(
                domain,
                state,
            ),
    {
        if self.domain(&domain).is_some() {
            return Err(BlockchainError::DomainAlreadyRegistered);
        }
        self.add_domain(&domain, &state);
        Ok(())
    }

    /// Restores a stored namespace, with no rule applied.
    pub fn restore_tld(&mut self, tld: TldId, state: TldState) -> (r: Result<(), BlockchainError>)
        requires
            old(self).wf(),
        ensures
            final(self).wf(),
            final(self).params() == old(self).params(),
            old(self)@.tld(tld) is Some ==> r == Err::<(), BlockchainError>(
                BlockchainError::TldAlreadyRegistered,
            ) && final(self)@ == old(self)@,
            old(self)@.tld(tld) is None ==> r is Ok && final(self)@ == old(self)@.with_new_tld(tld, state),
    {
        if self.tld(&tld).is_some() {
            return Err(BlockchainError::TldAlreadyRegistered);
        }
        self.add_tld(&tld, &state);
        Ok(())
    }

    /// The name whose proof of work a registration carries, as bytes: the
    /// challenge is over the name in the transaction itself. None if the
    /// transaction needs no proof of work.
    pub fn pow_name(tx: &Transaction) -> (name: Option<Vec<u8>>)
        ensures
            match (name, challenged_name(tx@)) {
                (Some(bytes), Some(b)) => bytes@ == b,
                (None, None) => true,
                _ => false,
            },
    {
        match &tx.body {
            TxBody::RegisterDomain { name, domain_id: _, parent: _ } => Some(text_bytes(name.as_str())),
            TxBody::RegisterTld { name, tld_id: _ } => Some(text_bytes(name.as_str())),
            _ => None,
        }
    }

    /// The proof-of-work task of a registration, if the transaction is one.
    pub fn pow_task(&self, tx: &Transaction) -> (task: Option<PowTask>)
        ensures
            task == (match tx@.body {
                TxBody::RegisterDomain { name, domain_id, parent } => Some(
                    PowTask {
                        network: self.params().network_id,
                        for_tld: false,
                        difficulty: self.params().domain_pow_difficulty,
                    },
                ),
                TxBody::RegisterTld { name, tld_id } => Some(
                    PowTask {
                        network: self.params().network_id,
                        for_tld: true,
                        difficulty: self.params().tld_pow_difficulty,
                    },
                ),
                _ => None,
            }),
    {
        match &tx.body {
            TxBody::RegisterDomain { name: _, domain_id: _, parent: _ } => Some(
                PowTask {
                    network: self.network.network_id,
                    for_tld: false,
                    difficulty: self.network.domain_pow_difficulty,
                },
            ),
            TxBody::RegisterTld { name: _, tld_id: _ } => Some(
                PowTask {
                    network: self.network.network_id,
                    for_tld: true,
                    difficulty: self.network.tld_pow_difficulty,
                },
            ),
            _ => None,
        }
    }

    /// Whether `claimant` may take a domain at `now`.
    fn ensure_domain_free(&self, domain: &DomainId, now: u64, claimant: &OwnerId) -> (free: bool)
        requires
            self.wf(),
        ensures
            free == self@.domain_free(*domain, now, *claimant),
    {
        if self.domain(domain).is_some() {
            return false;
        }
        match self.grace.get(domain) {
            Some(g) => now >= g.0.saturating_add(DOMAIN_GRACE_SECS) || same_id(claimant, &g.1),
            None => true,
        }
    }

    /// Notes the key of an owner, if none is known.
    fn learn_key(&mut self, owner: OwnerId, key: PublicKey, journal: &mut UndoLog)
        requires
            old(self).wf(),
        ensures
            final(self).wf(),
            final(self)@ == old(self)@.learned(owner, key),
            final(journal)@ == old(journal)@ + old(self)@.learn_log(owner),
            final(self).network == old(self).network,
    {
        if !self.owner_keys.contains_key(&owner) {
            self.owner_keys.insert(owner, key);
            journal.push(UndoEntry::LearnOwnerKey { owner });
            assert(journal@ =~= old(journal)@ + old(self)@.learn_log(owner));
        } else {
            assert(journal@ =~= old(journal)@ + old(self)@.learn_log(owner));
        }
    }
}


impl Clone for ChainState {
    fn clone(&self) -> (copy: Self)
        ensures
            self.wf() ==> copy.wf() && copy@ == self@,
            copy.params() == self.params(),
    {
        ChainState {
            network: self.network.clone(),
            backend: self.backend.clone(),
            domain_count: self.domain_count,
            tld_count: self.tld_count,
            owner_keys: self.owner_keys.clone(),
            owner_refcounts: self.owner_refcounts.clone(),
            expirations: self.expirations.clone(),
            grace: self.grace.clone(),
            smt: self.smt.clone(),
            banned: self.banned.clone(),
        }
    }
}

/// The keys of a map, in ascending order.
pub fn map_keys_ascending<V>(m: &IdMap<V>) -> (keys: Vec<Digest>)
    requires
        m.wf(),
    ensures
        ascending(keys@),
        keys@.to_set() == m@.dom(),
        keys@ == sorted_members(m@.dom()),
        keys@.len() == m.items().len(),
        forall|i: int| 0 <= i < keys@.len() ==> keys@[i] == (#[trigger] m.items()[i]).0,
{
    let n = m.len();
    let mut keys: Vec<Digest> = Vec::new();
    let mut i: usize = 0;
    while i < n
        invariant
            m.wf(),
            n == m.items().len(),
            i <= n,
            keys@.len() == i,
            forall|j: int| 0 <= j < i ==> keys@[j] == (#[trigger] m.items()[j]).0,
        decreases n - i,
    {
        let e = m.entry(i);
        keys.push(e.0);
        i += 1;
    }
    proof {
        m.lemma_items();
        let items = m.items();
        assert forall|a: int, b: int| 0 <= a < b < keys@.len() implies ordinal(#[trigger] keys@[a]) < ordinal(
            #[trigger] keys@[b],
        ) by {
            assert(ordinal(items[a].0) < ordinal(items[b].0));
        }
        assert forall|k: Digest| keys@.contains(k) == m@.dom().contains(k) by {
            if keys@.contains(k) {
                let j = choose|j: int| 0 <= j < keys@.len() && keys@[j] == k;
                assert(items[j].0 == k);
            }
            if m@.contains_key(k) {
                let j = choose|j: int| 0 <= j < items.len() && (#[trigger] items[j]).0 == k;
                assert(keys@[j] == k);
            }
        }
        assert(keys@.to_set() =~= m@.dom());
        lemma_sorted_members(keys@);
    }
    keys
}

impl ChainState {
    /// Eligibility pool: the known keys of owners of live registrations,
    /// without banned ones, in ascending order, each once. What has lapsed
    /// by `now` has left the owner counts already.
    pub fn eligible_validators(&self, now: u64) -> (pool: Vec<PublicKey>)
        requires
            self.wf(),
        ensures
            pool@ == sorted_members(self@.pool()),
            ascending(pool@),
            pool@.to_set() == self@.pool(),
    {
        let n = self.owner_refcounts.len();
        let mut found: IdMap<()> = IdMap::new();
        let mut i: usize = 0;
        let ghost items = self.owner_refcounts.items();
        let ghost keys = self.owner_keys@;
        let ghost bans = self.banned@;
        assert(found@.dom() =~= pool_upto(items, keys, bans, 0));
        while i < n
            invariant
                self.wf(),
                items == self.owner_refcounts.items(),
                keys == self.owner_keys@,
                bans == self.banned@,
                n == items.len(),
                i <= n,
                found.wf(),
                found@.dom() == pool_upto(items, keys, bans, i as int),
            decreases n - i,
        {
            let owner: OwnerId = self.owner_refcounts.entry(i).0;
            match self.owner_keys.get(&owner) {
                Some(k) => {
                    if !self.banned.contains_key(k) {
                        found.insert(*k, ());
                    }
                },
                None => {},
            }
            proof {
                let next = pool_upto(items, keys, bans, i + 1);
                assert(found@.dom() =~= next) by {
                    assert forall|k: PublicKey| found@.dom().contains(k) == next.contains(k) by {
                        if pool_upto(items, keys, bans, i as int).contains(k) {
                            let j = choose|j: int|
                                0 <= j < i && keys.contains_key((#[trigger] items[j]).0)
                                    && keys[items[j].0] == k;
                            assert(keys.contains_key(items[j].0));
                        }
                        if next.contains(k) {
                            let j = choose|j: int|
                                0 <= j < i + 1 && keys.contains_key((#[trigger] items[j]).0)
                                    && keys[items[j].0] == k;
                            if j < i {
                                assert(keys.contains_key(items[j].0));
                            }
                        }
                        assert(items[i as int].0 == owner);
                    }
                }
            }
            i += 1;
        }
        proof {
            self.owner_refcounts.lemma_items();
            assert(found@.dom() =~= self@.pool()) by {
                assert forall|k: PublicKey| found@.dom().contains(k) == self@.pool().contains(k) by {
                    if found@.dom().contains(k) {
                        let j = choose|j: int|
                            0 <= j < n && keys.contains_key((#[trigger] items[j]).0) && keys[items[j].0] == k;
                        assert(self@.owner_refs.contains_key(items[j].0));
                    }
                    if self@.pool().contains(k) {
                        let o = choose|o: OwnerId| #[trigger]
                            self@.owner_refs.contains_key(o) && self@.owner_keys.contains_key(o)
                                && self@.owner_keys[o] == k;
                        let j = choose|j: int| 0 <= j < items.len() && (#[trigger] items[j]).0 == o;
                        assert(keys.contains_key(items[j].0));
                    }
                }
            }
        }
        map_keys_ascending(&found)
    }

    /// Applies a transaction at block time `now` and journals how to undo
    /// it. A transaction that breaks a rule changes nothing.
    ///
    /// `now` is the parent block's timestamp.
    #[verifier::rlimit(60)]
    pub fn apply_journaled_at(&mut self, tx: &Transaction, now: u64, journal: &mut UndoLog) -> (r: Result<
        (),
        BlockchainError,
    >)
        requires
            old(self).wf(),
        ensures
            final(self).wf(),
            final(self).params() == old(self).params(),
            match tx_fault(old(self)@, old(self).params().network_id, tx@, now) {
                Some(e) => r == Err::<(), BlockchainError>(e) && final(self)@ == old(self)@ && final(journal)@
                    == old(journal)@,
                None => r is Ok && final(self)@ == tx_applied(old(self)@, tx@, now) && final(journal)@ == old(
                    journal,
                )@ + tx_log(old(self)@, tx@),
            },
    {
        let ghost s = self@;
        let ghost log = journal@;
        match tx.checks.violation {
            Some(e) => {
                return Err(BlockchainError::Core(e));
            },
            None => {},
        }
        if tx.network != self.network.network_id {
            return Err(
                BlockchainError::WrongNetwork { tx: tx.network, chain: self.network.network_id },
            );
        }
        match &tx.body {
            TxBody::RegisterDomain { name: _, domain_id, parent } => {
                match self.tld(parent) {
                    None => {
                        return Err(BlockchainError::UnknownTld);
                    },
                    Some(t) => {
                        if !t.open {
                            return Err(BlockchainError::TldClosed);
                        }
                    },
                }
                if !self.ensure_domain_free(domain_id, now, &tx.owner) {
                    return Err(BlockchainError::DomainAlreadyRegistered);
                }
                match tx.checks.pow_fault {
                    Some(e) => {
                        return Err(BlockchainError::Core(e));
                    },
                    None => {},
                }
                self.learn_key(tx.owner, tx.public_key, journal);
                self.claim_domain(domain_id, tx.owner, now, journal);
                assert(journal@ =~= log + tx_log(s, tx@));
            },
            TxBody::UpdateDomain { domain_id, sequence, record_hash } => {
                let prior: DomainState = match self.domain(domain_id) {
                    None => {
                        return Err(BlockchainError::UnknownDomain);
                    },
                    Some(st) => st,
                };
                if !same_id(&prior.owner, &tx.owner) {
                    return Err(BlockchainError::NotOwner);
                }
                if prior.sequence == u64::MAX {
                    return Err(
                        BlockchainError::InvalidSequence { expected: u64::MAX, got: *sequence },
                    );
                }
                let expected: u64 = prior.sequence + 1;
                if *sequence != expected {
                    return Err(BlockchainError::InvalidSequence { expected, got: *sequence });
                }
                self.learn_key(tx.owner, tx.public_key, journal);
                let next = DomainState {
                    owner: prior.owner,
                    sequence: expected,
                    record_hash: Some(*record_hash),
                    registered_at: prior.registered_at,
                    valid_until: prior.valid_until,
                };
                journal.push(UndoEntry::UpdateDomain { domain: *domain_id, prior });
                self.replace_domain(domain_id, &prior, &next);
                assert(journal@ =~= log + tx_log(s, tx@));
            },
            TxBody::RegisterTld { name, tld_id } => {
                if self.tld(tld_id).is_some() {
                    return Err(BlockchainError::TldAlreadyRegistered);
                }
                if tx.checks.reserved_tld {
                    return Err(BlockchainError::IcannTldReserved(name.clone()));
                }
                match tx.checks.pow_fault {
                    Some(e) => {
                        return Err(BlockchainError::Core(e));
                    },
                    None => {},
                }
                self.learn_key(tx.owner, tx.public_key, journal);
                let st = TldState::claimed_by(tx.owner);
                self.add_tld(tld_id, &st);
                journal.push(UndoEntry::RegisterTld { tld: *tld_id });
                assert(journal@ =~= log + tx_log(s, tx@));
            },
            TxBody::TransferTld { tld_id, new_owner } => {
                let prior: TldState = match self.owned_tld(tld_id, &tx.owner) {
                    Ok(st) => st,
                    Err(e) => {
                        return Err(e);
                    },
                };
                let next = TldState { owner: *new_owner, open: prior.open };
                journal.push(UndoEntry::MutateTld { tld: *tld_id, prior });
                self.replace_tld(tld_id, &prior, &next);
                self.owner_release(prior.owner);
                self.owner_acquire(next.owner);
                assert(journal@ =~= log + tx_log(s, tx@));
            },
            TxBody::RevokeTld { tld_id } => {
                let prior: TldState = match self.owned_tld(tld_id, &tx.owner) {
                    Ok(st) => st,
                    Err(e) => {
                        return Err(e);
                    },
                };
                self.drop_tld(tld_id, &prior);
                journal.push(UndoEntry::RevokeTld { tld: *tld_id, prior });
                assert(journal@ =~= log + tx_log(s, tx@));
            },
            TxBody::SetTldOpen { tld_id, open } => {
                let prior: TldState = match self.owned_tld(tld_id, &tx.owner) {
                    Ok(st) => st,
                    Err(e) => {
                        return Err(e);
                    },
                };
                let next = TldState { owner: prior.owner, open: *open };
                journal.push(UndoEntry::MutateTld { tld: *tld_id, prior });
                self.replace_tld(tld_id, &prior, &next);
                assert(journal@ =~= log + tx_log(s, tx@));
            },
            TxBody::AssignDomain { name: _, domain_id, parent, assignee } => {
                match self.owned_tld(parent, &tx.owner) {
                    Ok(_) => {},
                    Err(e) => {
                        return Err(e);
                    },
                }
                if !self.ensure_domain_free(domain_id, now, assignee) {
                    return Err(BlockchainError::DomainAlreadyRegistered);
                }
                self.claim_domain(domain_id, *assignee, now, journal);
                assert(journal@ =~= log + tx_log(s, tx@));
            },
            TxBody::RenewDomain { domain_id, valid_until } => {
                let prior: DomainState = match self.domain(domain_id) {
                    None => {
                        return Err(BlockchainError::UnknownDomain);
                    },
                    Some(st) => st,
                };
                if !same_id(&prior.owner, &tx.owner) {
                    return Err(BlockchainError::NotOwner);
                }
                if *valid_until <= prior.valid_until {
                    return Err(
                        BlockchainError::RenewalNotExtending {
                            current: prior.valid_until,
                            proposed: *valid_until,
                        },
                    );
                }
                let max: u64 = now.saturating_add(DOMAIN_MAX_HORIZON_SECS);
                if *valid_until > max {
                    return Err(BlockchainError::RenewalExceedsTerm { max, proposed: *valid_until });
                }
                let next = DomainState {
                    owner: prior.owner,
                    sequence: prior.sequence,
                    record_hash: prior.record_hash,
                    registered_at: prior.registered_at,
                    valid_until: *valid_until,
                };
                self.expiration_dequeue(prior.valid_until, *domain_id);
                self.expiration_enqueue(next.valid_until, *domain_id);
                journal.push(UndoEntry::RenewDomain { domain: *domain_id, prior });
                self.replace_domain(domain_id, &prior, &next);
                assert(journal@ =~= log + tx_log(s, tx@));
            },
            TxBody::Slash { offender } => {
                if !self.banned.contains_key(offender) {
                    let pool = self.eligible_validators(now);
                    if !contains_digest(&pool, offender) {
                        assert(!s.pool().contains(*offender));
                        return Err(BlockchainError::SlashOffenderNotInPool);
                    }
                    assert(s.pool().contains(*offender));
                    self.banned.insert(*offender, ());
                    journal.push(UndoEntry::BanAnchor { offender: *offender });
                }
                assert(journal@ =~= log + tx_log(s, tx@));
            },
        }
        assert(self@ =~= tx_applied(s, tx@, now));
        Ok(())
    }

    /// The namespace, if `owner` owns it.
    fn owned_tld(&self, tld: &TldId, owner: &OwnerId) -> (r: Result<TldState, BlockchainError>)
        requires
            self.wf(),
        ensures
            match tld_owner_fault(self@, *tld, *owner) {
                Some(e) => r == Err::<TldState, BlockchainError>(e),
                None => r == Ok::<TldState, BlockchainError>(self@.tld(*tld)->0),
            },
    {
        match self.tld(tld) {
            None => Err(BlockchainError::UnknownTld),
            Some(st) => {
                if !same_id(&st.owner, owner) {
                    Err(BlockchainError::NotTldOwner)
                } else {
                    Ok(st)
                }
            },
        }
    }

    /// Registers a free domain for `owner` at `now`, consuming its grace
    /// entry.
    fn claim_domain(&mut self, id: &DomainId, owner: OwnerId, now: u64, journal: &mut UndoLog)
        requires
            old(self).wf(),
        ensures
            final(self).wf(),
            final(self)@ == (StateModel {
                grace: old(self)@.grace.remove(*id),
                ..old(self)@
            }).with_new_domain(*id, fresh_domain(owner, now)),
            final(journal)@ == old(journal)@.push(
                UndoEntry::RegisterDomain { domain: *id, consumed_grace: old(self)@.grace_of(*id) },
            ),
            final(self).network == old(self).network,
    {
        let consumed_grace: Option<(u64, OwnerId)> = match self.grace.get(id) {
            Some(g) => Some(*g),
            None => None,
        };
        self.grace.remove(id);
        let st = DomainState {
            owner,
            sequence: 0,
            record_hash: None,
            registered_at: now,
            valid_until: now.saturating_add(DOMAIN_TERM_SECS),
        };
        self.add_domain(id, &st);
        journal.push(UndoEntry::RegisterDomain { domain: *id, consumed_grace });
    }

    /// Applies a transaction at block time zero, atomically: on error the
    /// state is left unchanged.
    pub fn apply(&mut self, tx: &Transaction) -> (r: Result<(), BlockchainError>)
        requires
            old(self).wf(),
        ensures
            final(self).wf(),
            final(self).params() == old(self).params(),
            match tx_fault(old(self)@, old(self).params().network_id, tx@, 0) {
                Some(e) => r == Err::<(), BlockchainError>(e) && final(self)@ == old(self)@,
                None => r is Ok && final(self)@ == tx_applied(old(self)@, tx@, 0),
            },
    {
        let mut journal = UndoLog::new();
        self.apply_journaled_at(tx, 0, &mut journal)
    }

    /// Collects every registration that expired by `now`: it leaves the
    /// registry and enters its grace window. Returns the collected ids in
    /// order of expiry.
    pub fn gc_expired_journaled(&mut self, now: u64, journal: &mut UndoLog) -> (expired: Vec<DomainId>)
        requires
            old(self).wf(),
        ensures
            final(self).wf(),
            final(self).params() == old(self).params(),
            ({
                let (s, log, ids) = collected(old(self)@, now);
                &&& final(self)@ == s
                &&& final(journal)@ == old(journal)@ + log
                &&& expired@ == ids
            }),
    {
        let ghost s0 = dequeued(self@, now);
        let ghost log0 = journal@;
        let ghost before = self@;
        let due = self.expirations.take_due(now);
        let mut expired: Vec<DomainId> = Vec::new();
        let mut i: usize = 0;
        proof {
            assert(self@ =~= s0);
            assert(due@.subrange(0, 0) =~= Seq::empty());
            assert(journal@ =~= log0 + Seq::<UndoEntry>::empty());
        }
        while i < due.len()
            invariant
                self.wf(),
                self.network == old(self).network,
                i <= due@.len(),
                due@ == due_pairs(before.queue, now),
                s0 == dequeued(before, now),
                self@ == collect_fold(s0, due@.subrange(0, i as int), now).0,
                journal@ == log0 + collect_fold(s0, due@.subrange(0, i as int), now).1,
                expired@ == collect_fold(s0, due@.subrange(0, i as int), now).2,
            decreases due@.len() - i,
        {
            let id: DomainId = due[i].1;
            let ghost here = self@;
            let ghost log = journal@;
            let ghost done = due@.subrange(0, i as int);
            proof {
                let next = due@.subrange(0, i + 1);
                assert(next.drop_last() =~= done);
                assert(next.last() == due@[i as int]);
            }
            match self.domain(&id) {
                None => {
                    assert(journal@ =~= log + collect_log(here, id, now));
                },
                Some(prior) => {
                    if prior.valid_until > now {
                        self.expiration_enqueue(prior.valid_until, id);
                        assert(journal@ =~= log + collect_log(here, id, now));
                    } else {
                        self.drop_domain(&id, &prior);
                        self.grace.insert(id, (prior.valid_until, prior.owner));
                        journal.push(UndoEntry::ExpireDomain { domain: id, prior });
                        expired.push(id);
                        assert(journal@ =~= log + collect_log(here, id, now));
                        assert(self@ =~= collect_one(here, id, now));
                    }
                },
            }
            assert(self@ =~= collect_one(here, id, now));
            assert(journal@ =~= log0 + (collect_fold(s0, done, now).1 + collect_log(here, id, now)));
            i += 1;
        }
        assert(due@.subrange(0, i as int) =~= due@);
        expired
    }

    /// Undoes every journaled change, most recent first.
    pub fn rollback(&mut self, journal: UndoLog)
        requires
            old(self).wf(),
        ensures
            final(self).wf(),
            final(self).params() == old(self).params(),
            final(self)@ == undone(old(self)@, journal@),
    {
        let mut i: usize = journal.entries.len();
        let ghost log = journal@;
        let ghost s0 = self@;
        assert(log.subrange(0, i as int) =~= log);
        while i > 0
            invariant
                self.wf(),
                self.network == old(self).network,
                i <= log.len(),
                log == journal.entries@,
                undone(self@, log.subrange(0, i as int)) == undone(s0, log),
            decreases i,
        {
            i -= 1;
            let e: UndoEntry = journal.entries[i];
            proof {
                let now = log.subrange(0, i + 1);
                assert(now.drop_last() =~= log.subrange(0, i as int));
                assert(now.last() == e);
            }
            self.undo_one(e);
        }
        assert(log.subrange(0, 0) =~= Seq::<UndoEntry>::empty());
    }

    /// Undoes one journaled change.
    fn undo_one(&mut self, e: UndoEntry)
        requires
            old(self).wf(),
        ensures
            final(self).wf(),
            final(self).network == old(self).network,
            final(self)@ == undone_one(old(self)@, e),
    {
        let ghost s = self@;
        match e {
            UndoEntry::RegisterDomain { domain, consumed_grace } => {
                match self.domain(&domain) {
                    Some(st) => {
                        self.drop_domain(&domain, &st);
                        self.expiration_dequeue(st.valid_until, domain);
                    },
                    None => {},
                }
                match consumed_grace {
                    Some(g) => {
                        self.grace.insert(domain, g);
                    },
                    None => {},
                }
            },
            UndoEntry::UpdateDomain { domain, prior } => {
                match self.domain(&domain) {
                    Some(st) => {
                        self.replace_domain(&domain, &st, &prior);
                    },
                    None => {
                        self.put_domain_entry(&domain, &prior);
                    },
                }
            },
            UndoEntry::RegisterTld { tld } => {
                match self.tld(&tld) {
                    Some(st) => {
                        self.drop_tld(&tld, &st);
                    },
                    None => {},
                }
            },
            UndoEntry::MutateTld { tld, prior } => {
                match self.tld(&tld) {
                    Some(st) => {
                        self.replace_tld(&tld, &st, &prior);
                        self.owner_release(st.owner);
                        self.owner_acquire(prior.owner);
                    },
                    None => {
                        self.put_tld_entry(&tld, &prior);
                    },
                }
            },
            UndoEntry::RevokeTld { tld, prior } => {
                self.add_tld(&tld, &prior);
            },
            UndoEntry::RenewDomain { domain, prior } => {
                match self.domain(&domain) {
                    Some(st) => {
                        self.replace_domain(&domain, &st, &prior);
                        self.expiration_dequeue(st.valid_until, domain);
                    },
                    None => {
                        self.put_domain_entry(&domain, &prior);
                    },
                }
                self.expiration_enqueue(prior.valid_until, domain);
            },
            UndoEntry::ExpireDomain { domain, prior } => {
                self.grace.remove(&domain);
                self.add_domain(&domain, &prior);
            },
            UndoEntry::LearnOwnerKey { owner } => {
                self.owner_keys.remove(&owner);
            },
            UndoEntry::BanAnchor { offender } => {
                self.banned.remove(&offender);
                assert(self@.banned =~= s.banned.remove(offender));
            },
        }
        assert(self@ =~= undone_one(s, e));
    }
}

/// The pool over the first `n` owners of a list.
spec fn pool_upto(
    items: Seq<(Digest, u64)>,
    keys: Map<OwnerId, PublicKey>,
    bans: Map<PublicKey, ()>,
    n: int,
) -> Set<PublicKey> {
    Set::new(
        |k: PublicKey|
            !bans.contains_key(k) && exists|j: int|
                0 <= j < n && keys.contains_key((#[trigger] items[j]).0) && keys[items[j].0] == k,
    )
}

/// Whether a list holds a digest.
pub fn contains_digest(v: &Vec<Digest>, d: &Digest) -> (found: bool)
    ensures
        found == v@.contains(*d),
        found == v@.to_set().contains(*d),
{
    let mut i: usize = 0;
    while i < v.len()
        invariant
            i <= v@.len(),
            forall|j: int| 0 <= j < i ==> v@[j] != *d,
        decreases v@.len() - i,
    {
        if same_id(&v[i], d) {
            assert(v@[i as int] == *d);
            return true;
        }
        i += 1;
    }
    false
}


/// A page whose cursor is none ends the list: `done` and the page together
/// are all keys of the store.
proof fn lemma_scan_step(
    m: Map<Pkey, Seq<u8>>,
    done: Seq<Pkey>,
    from: Option<Pkey>,
    limit: nat,
    page: Seq<(Pkey, Vec<u8>)>,
    cursor: Option<Pkey>,
)
    requires
        limit > 0,
        is_page(m, from, limit, page, cursor),
        scanned(m, done, from),
    ensures
        cursor is Some ==> scanned(m, done + page.map_values(|e: (Pkey, Vec<u8>)| e.0), cursor),
        cursor is None ==> ({
            let all = done + page.map_values(|e: (Pkey, Vec<u8>)| e.0);
            ascending(all) && all.to_set() == m.dom()
        }),
{
    let all = done + page.map_values(|e: (Pkey, Vec<u8>)| e.0);
    assert forall|a: int, b: int| 0 <= a < b < all.len() implies ordinal(#[trigger] all[a]) < ordinal(
        #[trigger] all[b],
    ) by {
        if b < done.len() {
            assert(ordinal(done[a]) < ordinal(done[b]));
        } else {
            assert(in_scan(from, page[b - done.len()].0));
            if a < done.len() {
                assert(done.contains(done[a]));
            } else {
                assert(ordinal(page[a - done.len()].0) < ordinal(page[b - done.len()].0));
            }
        }
    }
    assert forall|k: Pkey| all.contains(k) implies m.contains_key(k) && (cursor is Some ==> ordinal(k) < ordinal(
        cursor->0,
    )) by {
        let j = choose|j: int| 0 <= j < all.len() && all[j] == k;
        if j < done.len() {
            assert(done.contains(k));
            if cursor is Some {
                assert(in_scan(from, cursor->0));
            }
        } else {
            assert(page[j - done.len()].0 == k);
        }
    }
    assert forall|k: Pkey| #[trigger] m.contains_key(k) && (cursor is Some ==> ordinal(k) < ordinal(cursor->0)) implies all.contains(
        k,
    ) by {
        if in_scan(from, k) {
            let j = choose|j: int| 0 <= j < page.len() && (#[trigger] page[j]).0 == k;
            assert(all[done.len() + j] == k);
        } else {
            let j = choose|j: int| 0 <= j < done.len() && done[j] == k;
            assert(all[j] == k);
        }
    }
    if cursor is None {
        assert(all.to_set() =~= m.dom());
    }
}

/// No more keys are scanned than there are.
proof fn lemma_scan_bound(m: Map<Pkey, Seq<u8>>, done: Seq<Pkey>)
    requires
        m.dom().finite(),
        ascending(done),
        done.to_set().subset_of(m.dom()),
    ensures
        done.len() <= m.dom().len(),
{
    assert forall|a: int, b: int| 0 <= a < done.len() && 0 <= b < done.len() && a != b implies done[a] != done[b] by {
        if a < b {
            assert(ordinal(done[a]) < ordinal(done[b]));
        } else {
            assert(ordinal(done[b]) < ordinal(done[a]));
        }
    }
    done.unique_seq_to_set();
    vstd::set_lib::lemma_len_subset(done.to_set(), m.dom());
}

/// A list of earlier members of an ascending list stays ascending with the
/// next member, and then holds that member and what it held.
proof fn lemma_ascending_push(all: Seq<Digest>, i: int, some: Seq<Digest>)
    requires
        ascending(all),
        0 <= i < all.len(),
        ascending(some),
        forall|x: Digest| #[trigger] some.contains(x) ==> all.subrange(0, i).contains(x),
    ensures
        ascending(some.push(all[i])),
        forall|x: Digest| #[trigger] some.push(all[i]).contains(x) <==> some.contains(x) || x == all[i],
        forall|x: Digest| #[trigger]
            all.subrange(0, i + 1).contains(x) <==> all.subrange(0, i).contains(x) || x == all[i],
{
    let next = all[i];
    let more = some.push(next);
    assert forall|a: int, b: int| 0 <= a < b < more.len() implies ordinal(#[trigger] more[a]) < ordinal(
        #[trigger] more[b],
    ) by {
        if b == some.len() {
            assert(some.contains(some[a]));
            let j = choose|j: int| 0 <= j < i && all.subrange(0, i)[j] == some[a];
            assert(all[j] == some[a]);
        }
    }
    assert forall|x: Digest| #[trigger] more.contains(x) <==> some.contains(x) || x == next by {
        if some.contains(x) {
            let j = choose|j: int| 0 <= j < some.len() && some[j] == x;
            assert(more[j] == x);
        }
        if x == next {
            assert(more[some.len() as int] == x);
        }
    }
    let upto = all.subrange(0, i);
    let past = all.subrange(0, i + 1);
    assert forall|x: Digest| #[trigger] past.contains(x) <==> upto.contains(x) || x == next by {
        if upto.contains(x) {
            let j = choose|j: int| 0 <= j < upto.len() && upto[j] == x;
            assert(past[j] == x);
        }
        if x == next {
            assert(past[i] == x);
        }
        if past.contains(x) {
            let j = choose|j: int| 0 <= j < past.len() && past[j] == x;
            if j < i {
                assert(upto[j] == x);
            }
        }
    }
}

/// `done` are the keys before `from`, in ascending order.
spec fn scanned(m: Map<Pkey, Seq<u8>>, done: Seq<Pkey>, from: Option<Pkey>) -> bool {
    &&& ascending(done)
    &&& forall|k: Pkey| #[trigger] done.contains(k) ==> m.contains_key(k) && from is Some && ordinal(k) < ordinal(
        from->0,
    )
    &&& forall|k: Pkey| #[trigger]
        m.contains_key(k) && from is Some && ordinal(k) < ordinal(from->0) ==> done.contains(k)
}

impl ChainState {
    /// Archive root: folds over the domains, the namespaces, the owners and
    /// the bans. Linear in the number of entries; checkpoints commit
    /// `state_root_smt` instead.
    pub fn state_root_v2(&self) -> (root: Digest)
        requires
            self.wf(),
        ensures
            root == archive_root(self@),
    {
        let (domains, tlds) = self.split_ids();
        let domain_root = self.entries_root(&domains);
        let tld_root = self.entries_root(&tlds);
        let owners = self.owner_pool_root();
        let bans = self.banned_root();
        let tag: [u8; 14] = STATE_V2_TAG;
        let mut top: Vec<u8> = Vec::new();
        append_bytes(&mut top, tag.as_slice());
        append_bytes(&mut top, domain_root.as_slice());
        append_bytes(&mut top, tld_root.as_slice());
        append_bytes(&mut top, owners.as_slice());
        append_bytes(&mut top, bans.as_slice());
        assert(top@ =~= STATE_V2_TAG@ + domain_root@ + tld_root@ + owners@ + bans@);
        hash256(&top)
    }

    /// Ids of all entries in ascending order, read page by page.
    pub fn entry_ids(&self) -> (ids: Vec<Digest>)
        requires
            self.wf(),
        ensures
            ascending(ids@),
            ids@.to_set() == self@.entries.dom(),
            ids@ == sorted_members(self@.entries.dom()),
    {
        let count: usize = self.backend.len();
        let mut ids: Vec<Digest> = Vec::with_capacity(count);
        let mut cursor: Option<Pkey> = None;
        let ghost m = self.backend.entries();
        let mut more = true;
        while more
            invariant
                self.wf(),
                m == self.backend.entries(),
                m.dom().finite(),
                ids@.len() <= m.dom().len(),
                more ==> scanned(m, ids@, cursor),
                !more ==> ascending(ids@) && ids@.to_set() == m.dom(),
            decreases (if more { m.dom().len() - ids@.len() + 1 } else { 0 }),
        {
            let ghost from = cursor;
            let (page, next) = match &cursor {
                Some(c) => self.backend.range(Some(c), SCAN_PAGE),
                None => self.backend.range(None, SCAN_PAGE),
            };
            let ghost before = ids@;
            let ghost keys = page@.map_values(|e: (Pkey, Vec<u8>)| e.0);
            proof {
                lemma_scan_step(m, before, from, SCAN_PAGE as nat, page@, next);
            }
            let mut i: usize = 0;
            while i < page.len()
                invariant
                    i <= page@.len(),
                    keys == page@.map_values(|e: (Pkey, Vec<u8>)| e.0),
                    ids@ == before + keys.subrange(0, i as int),
                decreases page@.len() - i,
            {
                ids.push(page[i].0);
                assert(ids@ =~= before + keys.subrange(0, i + 1));
                i += 1;
            }
            proof {
                assert(keys.subrange(0, i as int) =~= keys);
                assert forall|k: Pkey| ids@.to_set().contains(k) implies m.dom().contains(k) by {
                    assert(ids@.contains(k));
                }
                lemma_scan_bound(m, ids@);
            }
            more = next.is_some();
            cursor = next;
        }
        proof {
            assert(self@.entries.dom() =~= m.dom());
            lemma_sorted_members(ids@);
        }
        ids
    }

    /// Ids of the domains and of the namespaces, each in ascending order.
    fn split_ids(&self) -> (r: (Vec<Digest>, Vec<Digest>))
        requires
            self.wf(),
        ensures
            ascending(r.0@),
            r.0@.to_set() == domains_in(self@.entries),
            ascending(r.1@),
            r.1@.to_set() == tlds_in(self@.entries),
    {
        let ids = self.entry_ids();
        let mut domains: Vec<Digest> = Vec::new();
        let mut tlds: Vec<Digest> = Vec::new();
        let ghost entries = self@.entries;
        let mut i: usize = 0;
        while i < ids.len()
            invariant
                self.wf(),
                i <= ids@.len(),
                entries == self@.entries,
                ascending(ids@),
                ids@.to_set() == entries.dom(),
                ascending(domains@),
                ascending(tlds@),
                forall|x: Digest| #[trigger]
                    domains@.contains(x) <==> ids@.subrange(0, i as int).contains(x) && entries[x] is Domain,
                forall|x: Digest| #[trigger]
                    tlds@.contains(x) <==> ids@.subrange(0, i as int).contains(x) && entries[x] is Tld,
            decreases ids@.len() - i,
        {
            let id = ids[i];
            let ghost (d, t) = (domains@, tlds@);
            proof {
                assert(ids@.to_set().contains(id));
                lemma_ascending_push(ids@, i as int, d);
                lemma_ascending_push(ids@, i as int, t);
            }
            if self.domain(&id).is_some() {
                domains.push(id);
            } else {
                tlds.push(id);
            }
            i += 1;
        }
        proof {
            assert(ids@.subrange(0, i as int) =~= ids@);
            assert forall|x: Digest| domains@.to_set().contains(x) == domains_in(entries).contains(x) by {
                assert(domains@.contains(x) == domains@.to_set().contains(x));
                assert(ids@.contains(x) == ids@.to_set().contains(x));
            }
            assert(domains@.to_set() =~= domains_in(entries));
            assert forall|x: Digest| tlds@.to_set().contains(x) == tlds_in(entries).contains(x) by {
                assert(tlds@.contains(x) == tlds@.to_set().contains(x));
                assert(ids@.contains(x) == ids@.to_set().contains(x));
            }
            assert(tlds@.to_set() =~= tlds_in(entries));
        }
        (domains, tlds)
    }

    /// Root over the entries at some ids, in ascending order of the ids.
    fn entries_root(&self, ids: &Vec<Digest>) -> (root: Digest)
        requires
            self.wf(),
            ascending(ids@),
            ids@.to_set().subset_of(self@.entries.dom()),
        ensures
            root == entries_root(ids@.to_set(), self@.entries),
    {
        let mut leaves: Vec<Digest> = Vec::new();
        let ghost entries = self@.entries;
        let mut i: usize = 0;
        assert(leaves@ =~= leaves_at(ids@.subrange(0, 0), entries));
        while i < ids.len()
            invariant
                self.wf(),
                i <= ids@.len(),
                entries == self@.entries,
                ids@.to_set().subset_of(entries.dom()),
                leaves@ == leaves_at(ids@.subrange(0, i as int), entries),
            decreases ids@.len() - i,
        {
            let id = ids[i];
            assert(ids@.to_set().contains(id));
            match self.domain(&id) {
                Some(st) => {
                    leaves.push(domain_leaf_v2(&id, &st));
                },
                None => match self.tld(&id) {
                    Some(st) => {
                        leaves.push(tld_leaf_v2(&id, &st));
                    },
                    None => {},
                },
            }
            assert(leaves@ =~= leaves_at(ids@.subrange(0, i + 1), entries));
            i += 1;
        }
        proof {
            assert(ids@.subrange(0, i as int) =~= ids@);
            lemma_sorted_members(ids@);
        }
        fold_hashes(&fold_tag(), &leaves)
    }

    /// Root over the owners of live registrations.
    fn owner_pool_root(&self) -> (root: Digest)
        requires
            self.wf(),
        ensures
            root == set_root(OWNER_LEAF_TAG@, self@.owner_refs.dom()),
    {
        let tag: [u8; 17] = OWNER_LEAF_TAG;
        let owners = map_keys_ascending(&self.owner_refcounts);
        list_root(tag.as_slice(), &owners)
    }

    /// Root over the banned keys.
    fn banned_root(&self) -> (root: Digest)
        requires
            self.wf(),
        ensures
            root == set_root(BAN_LEAF_TAG@, self@.banned),
    {
        let tag: [u8; 17] = BAN_LEAF_TAG;
        let banned = map_keys_ascending(&self.banned);
        list_root(tag.as_slice(), &banned)
    }
}


/// Whether two maps of keys are equal.
fn same_keys(a: &IdMap<PublicKey>, b: &IdMap<PublicKey>) -> (same: bool)
    requires
        a.wf(),
        b.wf(),
    ensures
        same == (a@ == b@),
{
    let keys = map_keys_ascending(a);
    let others = map_keys_ascending(b);
    if !same_digests(&keys, &others) {
        return false;
    }
    let mut i: usize = 0;
    while i < keys.len()
        invariant
            a.wf(),
            b.wf(),
            i <= keys@.len(),
            keys@.to_set() == a@.dom(),
            keys@.to_set() == b@.dom(),
            forall|j: int| 0 <= j < i ==> a@[#[trigger] keys@[j]] == b@[keys@[j]],
        decreases keys@.len() - i,
    {
        let k = keys[i];
        assert(keys@.to_set().contains(k));
        let same = match (a.get(&k), b.get(&k)) {
            (Some(x), Some(y)) => same_id(x, y),
            _ => false,
        };
        if !same {
            return false;
        }
        i += 1;
    }
    proof {
        assert forall|k: Digest| #[trigger] a@.contains_key(k) implies a@[k] == b@[k] by {
            assert(keys@.to_set().contains(k));
            let j = choose|j: int| 0 <= j < keys@.len() && keys@[j] == k;
            assert(a@[keys@[j]] == b@[keys@[j]]);
        }
        assert(a@ =~= b@);
    }
    true
}

/// Whether two maps of counts are equal.
fn same_counts(a: &IdMap<u64>, b: &IdMap<u64>) -> (same: bool)
    requires
        a.wf(),
        b.wf(),
    ensures
        same == (a@ == b@),
{
    let keys = map_keys_ascending(a);
    let others = map_keys_ascending(b);
    if !same_digests(&keys, &others) {
        return false;
    }
    let mut i: usize = 0;
    while i < keys.len()
        invariant
            a.wf(),
            b.wf(),
            i <= keys@.len(),
            keys@.to_set() == a@.dom(),
            keys@.to_set() == b@.dom(),
            forall|j: int| 0 <= j < i ==> a@[#[trigger] keys@[j]] == b@[keys@[j]],
        decreases keys@.len() - i,
    {
        let k = keys[i];
        assert(keys@.to_set().contains(k));
        let same = match (a.get(&k), b.get(&k)) {
            (Some(x), Some(y)) => *x == *y,
            _ => false,
        };
        if !same {
            return false;
        }
        i += 1;
    }
    proof {
        assert forall|k: Digest| #[trigger] a@.contains_key(k) implies a@[k] == b@[k] by {
            assert(keys@.to_set().contains(k));
            let j = choose|j: int| 0 <= j < keys@.len() && keys@[j] == k;
            assert(a@[keys@[j]] == b@[keys@[j]]);
        }
        assert(a@ =~= b@);
    }
    true
}

/// Whether two maps of grace entries are equal.
fn same_grace(a: &IdMap<(u64, OwnerId)>, b: &IdMap<(u64, OwnerId)>) -> (same: bool)
    requires
        a.wf(),
        b.wf(),
    ensures
        same == (a@ == b@),
{
    let keys = map_keys_ascending(a);
    let others = map_keys_ascending(b);
    if !same_digests(&keys, &others) {
        return false;
    }
    let mut i: usize = 0;
    while i < keys.len()
        invariant
            a.wf(),
            b.wf(),
            i <= keys@.len(),
            keys@.to_set() == a@.dom(),
            keys@.to_set() == b@.dom(),
            forall|j: int| 0 <= j < i ==> a@[#[trigger] keys@[j]] == b@[keys@[j]],
        decreases keys@.len() - i,
    {
        let k = keys[i];
        assert(keys@.to_set().contains(k));
        let same = match (a.get(&k), b.get(&k)) {
            (Some(x), Some(y)) => x.0 == y.0 && same_id(&x.1, &y.1),
            _ => false,
        };
        if !same {
            return false;
        }
        i += 1;
    }
    proof {
        assert forall|k: Digest| #[trigger] a@.contains_key(k) implies a@[k] == b@[k] by {
            assert(keys@.to_set().contains(k));
            let j = choose|j: int| 0 <= j < keys@.len() && keys@[j] == k;
            assert(a@[keys@[j]] == b@[keys@[j]]);
        }
        assert(a@ =~= b@);
    }
    true
}

/// Two equal states store the same commitment tree, branch points and root
/// included.
pub proof fn law_equal_states_store_one_tree(a: ChainState, b: ChainState)
    requires
        a.wf(),
        b.wf(),
        a@ == b@,
    ensures
        a.tree()@ == b.tree()@,
        a.tree().stored_nodes() == b.tree().stored_nodes(),
        a.tree().stored_root() == b.tree().stored_root(),
        a.tree().stored_leaves() == b.tree().stored_leaves(),
        a.tree().stored_buckets() == b.tree().stored_buckets(),
{
    assert(a@.leaves == a.smt@ && b@.leaves == b.smt@);
    law_shape_is_a_function_of_content(a.smt, b.smt);
}

impl ChainState {
    /// Whether two states are equal: entries, indexes, expiry queue, grace
    /// entries, commitment and bans.
    pub fn same_state(&self, other: &ChainState) -> (same: bool)
        requires
            self.wf(),
            other.wf(),
        ensures
            same == (self@ == other@),
    {
        if self.domain_count != other.domain_count || self.tld_count != other.tld_count {
            return false;
        }
        if !self.same_entries(other) {
            return false;
        }
        let bans = map_keys_ascending(&self.banned);
        let other_bans = map_keys_ascending(&other.banned);
        if !same_digests(&bans, &other_bans) {
            assert(self@.banned != other@.banned);
            return false;
        }
        let same = same_keys(&self.owner_keys, &other.owner_keys) && same_counts(
            &self.owner_refcounts,
            &other.owner_refcounts,
        ) && same_grace(&self.grace, &other.grace) && self.expirations.same_queue(&other.expirations)
            && self.smt == other.smt;
        proof {
            if self.smt@ == other.smt@ {
                law_shape_is_a_function_of_content(self.smt, other.smt);
            }
            if same {
                other.smt.lemma_importing();
                law_restored_tree_is_the_tree(self.smt, other.smt);
                assert(self@ =~= other@);
            }
        }
        same
    }

    /// Whether two states hold the same entries.
    fn same_entries(&self, other: &ChainState) -> (same: bool)
        requires
            self.wf(),
            other.wf(),
        ensures
            same == (self@.entries == other@.entries),
    {
        let ids = self.entry_ids();
        let others = other.entry_ids();
        if !same_digests(&ids, &others) {
            return false;
        }
        let mut i: usize = 0;
        while i < ids.len()
            invariant
                self.wf(),
                other.wf(),
                i <= ids@.len(),
                ids@.to_set() == self@.entries.dom(),
                ids@.to_set() == other@.entries.dom(),
                forall|j: int| 0 <= j < i ==> self@.entries[#[trigger] ids@[j]] == other@.entries[ids@[j]],
            decreases ids@.len() - i,
        {
            let id = ids[i];
            assert(ids@.to_set().contains(id));
            let same = match (self.domain(&id), other.domain(&id)) {
                (Some(a), Some(b)) => same_domain(&a, &b),
                (None, None) => match (self.tld(&id), other.tld(&id)) {
                    (Some(a), Some(b)) => same_id(&a.owner, &b.owner) && a.open == b.open,
                    _ => false,
                },
                _ => false,
            };
            if !same {
                assert(self@.entries[id] != other@.entries[id]);
                return false;
            }
            assert(self@.entries[id] == other@.entries[id]);
            i += 1;
        }
        proof {
            assert forall|k: Digest| #[trigger] self@.entries.contains_key(k) implies self@.entries[k]
                == other@.entries[k] by {
                assert(ids@.to_set().contains(k));
                let j = choose|j: int| 0 <= j < ids@.len() && ids@[j] == k;
                assert(self@.entries[ids@[j]] == other@.entries[ids@[j]]);
            }
            assert(self@.entries =~= other@.entries);
        }
        true
    }
}

/// Whether two domain states are equal.
fn same_domain(a: &DomainState, b: &DomainState) -> (same: bool)
    ensures
        same == (*a == *b),
{
    let records = match (&a.record_hash, &b.record_hash) {
        (Some(x), Some(y)) => same_id(x, y),
        (None, None) => true,
        _ => false,
    };
    records && same_id(&a.owner, &b.owner) && a.sequence == b.sequence && a.registered_at == b.registered_at
        && a.valid_until == b.valid_until
}

} // verus!

//! Crash safety of the checkpoint signer: one key, one vote per epoch.
//!
//! The rule is checked before a signature is made, and the signed context is
//! stored before the signature is released: a signature that is not on record
//! never goes out. A stored state that cannot be read seals the guard.
//!
//! The stored state is one record per key that has signed, in ascending key
//! order; reading and writing the bytes is the caller's part.
use vstd::prelude::*;
use vstd::bytes::spec_u64_from_le_bytes;
use vstd::slice::slice_subrange;
use crate::bytes::digest_at;
use crate::bytes::le8;
use crate::bytes::le8_at;
use crate::bytes::lemma_le8;
use crate::bytes::push_le8;
use crate::bytes::same_bytes;
use crate::chain::Blockchain;
use crate::consensus::Consensus;
use crate::crypto::SigningKey;
use crate::crypto::ed25519_key_decodes;
use crate::crypto::ed25519_public;
use crate::crypto::ed25519_signature;
use crate::crypto::key_decodes;
use crate::digest::append_bytes;
use crate::entry::digest_of;
use crate::entry::lemma_digest_of;
use crate::error::BlockchainError;
use crate::error::SignerFault;
use crate::idmap::IdMap;
use crate::ids::Digest;
use crate::ids::PublicKey;
use crate::ids::Signature;
use crate::ids::ascending;
use crate::ids::same_id;
use crate::smt_model::lemma_sorted_members;
use crate::smt_model::sorted_members;
use crate::types::CheckpointData;

verus! {

/// Tag of a stored record: `SCONE-SIGNER-V1`, filled up to 16 bytes with a
/// zero byte.
pub const SIGNER_TAG: [u8; 16] = [83, 67, 79, 78, 69, 45, 83, 73, 71, 78, 69, 82, 45, 86, 49, 0];

/// Bytes of a stored record: tag (16), key (32), signing hash (32), epoch (8)
/// and height (8).
pub const RECORD_LEN: usize = 96;

/// The last context that a key signed.
#[derive(Clone, Copy, Debug, PartialEq, Eq)]
pub struct SignedContext {
    pub signer: PublicKey,
    pub signing_hash: Digest,
    pub epoch: u64,
    pub height: u64,
}

/// Stored form of a context.
pub open spec fn record_bytes(c: SignedContext) -> Seq<u8> {
    SIGNER_TAG@ + c.signer@ + c.signing_hash@ + le8(c.epoch) + le8(c.height)
}

/// The context that a record spells.
pub open spec fn record_context(b: Seq<u8>) -> SignedContext {
    SignedContext {
        signer: digest_of(b.subrange(16, 48)),
        signing_hash: digest_of(b.subrange(48, 80)),
        epoch: spec_u64_from_le_bytes(b.subrange(80, 88)),
        height: spec_u64_from_le_bytes(b.subrange(88, 96)),
    }
}

/// What is wrong with a record.
pub open spec fn record_fault(b: Seq<u8>) -> Option<SignerFault> {
    if b.len() != RECORD_LEN || b.subrange(0, 16) != SIGNER_TAG@ {
        Some(SignerFault::BadRecord)
    } else if !ed25519_key_decodes(b.subrange(16, 48)) {
        Some(SignerFault::BadKey)
    } else {
        None
    }
}

/// The record at a position of a stored state.
pub open spec fn record_at(b: Seq<u8>, i: int) -> Seq<u8> {
    b.subrange(RECORD_LEN * i, RECORD_LEN * i + RECORD_LEN)
}

/// Whether a stored state is readable.
pub open spec fn readable(b: Seq<u8>) -> bool {
    &&& b.len() > 0
    &&& b.len() % (RECORD_LEN as nat) == 0
    &&& forall|i: int| 0 <= i < b.len() / (RECORD_LEN as nat) ==> record_fault(#[trigger] record_at(b, i)) is None
}

/// The contexts of the first records, by key; a later record of a key
/// replaces an earlier one.
pub open spec fn contexts(b: Seq<u8>, n: nat) -> Map<PublicKey, SignedContext>
    decreases n,
{
    if n == 0 {
        Map::empty()
    } else {
        let c = record_context(record_at(b, n - 1));
        contexts(b, (n - 1) as nat).insert(c.signer, c)
    }
}

/// The records of some contexts, one after another.
pub open spec fn records(list: Seq<SignedContext>) -> Seq<u8>
    decreases list.len(),
{
    if list.len() == 0 {
        Seq::empty()
    } else {
        records(list.drop_last()) + record_bytes(list.last())
    }
}

/// The contexts of a guard in ascending key order.
pub open spec fn context_list(last: Map<PublicKey, SignedContext>) -> Seq<SignedContext> {
    sorted_members(last.dom()).map_values(|k: PublicKey| last[k])
}

/// A guard as a value.
#[verifier::ext_equal]
pub struct GuardModel {
    /// Last signed context of each key.
    pub last: Map<PublicKey, SignedContext>,
    /// Whether signing is off because the stored state cannot be read.
    pub sealed: bool,
}

/// What was found where the state is stored.
#[derive(Debug, PartialEq, Eq)]
pub enum StoredState {
    /// Nothing.
    Missing,
    /// Something that could not be read.
    Unreadable,
    /// These bytes.
    Bytes(Vec<u8>),
}

/// The guard of a stored state.
pub open spec fn guard_of(stored: StoredState) -> GuardModel {
    match stored {
        StoredState::Missing => GuardModel { last: Map::empty(), sealed: false },
        StoredState::Unreadable => GuardModel { last: Map::empty(), sealed: true },
        StoredState::Bytes(b) => if readable(b@) {
            GuardModel { last: contexts(b@, b@.len() / (RECORD_LEN as nat)), sealed: false }
        } else {
            GuardModel { last: Map::empty(), sealed: true }
        },
    }
}

/// Why a key may not sign a checkpoint of an epoch and signing hash.
pub open spec fn sign_fault(g: GuardModel, signer: PublicKey, epoch: u64, signing_hash: Digest) -> Option<SignerFault> {
    if g.sealed {
        Some(SignerFault::Sealed)
    } else if g.last.contains_key(signer) && (epoch < g.last[signer].epoch || (epoch == g.last[signer].epoch
        && signing_hash != g.last[signer].signing_hash)) {
        Some(
            SignerFault::Conflict {
                signed_epoch: g.last[signer].epoch,
                signed_height: g.last[signer].height,
                epoch,
            },
        )
    } else {
        None
    }
}

/// The guard after a key signed.
pub open spec fn signed(g: GuardModel, signer: PublicKey, d: CheckpointData, signing_hash: Digest) -> GuardModel {
    GuardModel {
        last: g.last.insert(
            signer,
            SignedContext { signer, signing_hash, epoch: d.epoch, height: d.height },
        ),
        ..g
    }
}

impl SignedContext {
    /// Stored form.
    pub fn to_bytes(&self) -> (b: Vec<u8>)
        ensures
            b@ == record_bytes(*self),
            b@.len() == RECORD_LEN,
    {
        let tag: [u8; 16] = SIGNER_TAG;
        let mut b: Vec<u8> = Vec::new();
        append_bytes(&mut b, tag.as_slice());
        append_bytes(&mut b, self.signer.as_slice());
        append_bytes(&mut b, self.signing_hash.as_slice());
        push_le8(&mut b, self.epoch);
        push_le8(&mut b, self.height);
        proof {
            assert(b@ =~= record_bytes(*self));
            lemma_le8(self.epoch);
            lemma_le8(self.height);
        }
        b
    }

    /// Reads a stored record.
    pub fn from_bytes(b: &[u8]) -> (r: Result<SignedContext, BlockchainError>)
        ensures
            match record_fault(b@) {
                Some(f) => r == Err::<SignedContext, BlockchainError>(BlockchainError::Signer(f)),
                None => r == Ok::<SignedContext, BlockchainError>(record_context(b@)),
            },
    {
        if b.len() != RECORD_LEN {
            return Err(BlockchainError::Signer(SignerFault::BadRecord));
        }
        let tag: [u8; 16] = SIGNER_TAG;
        let head = slice_subrange(b, 0, 16);
        if !same_bytes(head, tag.as_slice()) {
            return Err(BlockchainError::Signer(SignerFault::BadRecord));
        }
        let signer = digest_at(b, 16);
        if !key_decodes(&signer) {
            return Err(BlockchainError::Signer(SignerFault::BadKey));
        }
        let signing_hash = digest_at(b, 48);
        let epoch: u64 = le8_at(b, 80);
        let height: u64 = le8_at(b, 88);
        proof {
            lemma_digest_of(signer);
            lemma_digest_of(signing_hash);
        }
        Ok(SignedContext { signer, signing_hash, epoch, height })
    }
}

/// The signer guard.
pub struct SignerGuard {
    last: IdMap<SignedContext>,
    sealed: bool,
}

impl View for SignerGuard {
    type V = GuardModel;

    closed spec fn view(&self) -> GuardModel {
        GuardModel { last: self.last@, sealed: self.sealed }
    }
}

/// A signature that is on no record yet, with the bytes to store before it
/// may go out.
pub struct PendingSignature {
    signature: Signature,
    bytes: Vec<u8>,
}

impl PendingSignature {
    /// The withheld signature.
    pub closed spec fn withheld(&self) -> Seq<u8> {
        self.signature@
    }

    /// The state to store first.
    pub closed spec fn to_store(&self) -> Seq<u8> {
        self.bytes@
    }

    /// The bytes to store.
    pub fn state_bytes(&self) -> (b: &Vec<u8>)
        ensures
            b@ == self.to_store(),
    {
        &self.bytes
    }

    /// The signature, once its context is stored; a failure to store
    /// withholds it.
    pub fn release(self, persisted: bool) -> (r: Result<Signature, BlockchainError>)
        ensures
            if persisted {
                r is Ok && r->Ok_0@ == self.withheld()
            } else {
                r == Err::<Signature, BlockchainError>(BlockchainError::Signer(SignerFault::NotPersisted))
            },
    {
        if persisted {
            Ok(self.signature)
        } else {
            Err(BlockchainError::Signer(SignerFault::NotPersisted))
        }
    }
}

impl SignerGuard {
    /// Every part is in order: each key has a context of its own.
    pub closed spec fn wf(&self) -> bool {
        self.last.wf() && forall|k: PublicKey| #[trigger] self.last@.contains_key(k) ==> self.last@[k].signer == k
    }

    /// The guard of a stored state: fresh if there is none, sealed if it is
    /// not readable.
    pub fn load(stored: StoredState) -> (guard: SignerGuard)
        ensures
            guard.wf(),
            guard@ == guard_of(stored),
    {
        match stored {
            StoredState::Missing => SignerGuard { last: IdMap::new(), sealed: false },
            StoredState::Unreadable => SignerGuard { last: IdMap::new(), sealed: true },
            StoredState::Bytes(b) => match read_records(&b) {
                Some(last) => SignerGuard { last, sealed: false },
                None => SignerGuard { last: IdMap::new(), sealed: true },
            },
        }
    }

    /// The context that a key signed last.
    pub fn last_signed(&self, signer: &PublicKey) -> (c: Option<SignedContext>)
        requires
            self.wf(),
        ensures
            c == (if self@.last.contains_key(*signer) {
                Some(self@.last[*signer])
            } else {
                None
            }),
    {
        match self.last.get(signer) {
            Some(c) => Some(*c),
            None => None,
        }
    }

    /// The rule before a signature: never two contents of one epoch, nor of
    /// a past one, under one key. The same content may be signed again.
    pub fn may_sign(&self, signer: &PublicKey, data: &CheckpointData, signing_hash: &Digest) -> (r: Result<
        (),
        BlockchainError,
    >)
        requires
            self.wf(),
        ensures
            match sign_fault(self@, *signer, data.epoch, *signing_hash) {
                Some(f) => r == Err::<(), BlockchainError>(BlockchainError::Signer(f)),
                None => r == Ok::<(), BlockchainError>(()),
            },
    {
        if self.sealed {
            return Err(BlockchainError::Signer(SignerFault::Sealed));
        }
        match self.last.get(signer) {
            Some(c) => {
                if data.epoch < c.epoch || (data.epoch == c.epoch && !same_id(signing_hash, &c.signing_hash)) {
                    return Err(
                        BlockchainError::Signer(
                            SignerFault::Conflict {
                                signed_epoch: c.epoch,
                                signed_height: c.height,
                                epoch: data.epoch,
                            },
                        ),
                    );
                }
            },
            None => {},
        }
        Ok(())
    }

    /// Checks the rule, signs, and records the context. The signature stays
    /// withheld until its context is stored.
    pub fn authorize(&mut self, sk: &SigningKey, data: &CheckpointData, signing_hash: &Digest) -> (r: Result<
        PendingSignature,
        BlockchainError,
    >)
        requires
            old(self).wf(),
        ensures
            final(self).wf(),
            ({
                let key = digest_of(ed25519_public(sk.seed()));
                match sign_fault(old(self)@, key, data.epoch, *signing_hash) {
                    Some(f) => {
                        &&& r == Err::<PendingSignature, BlockchainError>(BlockchainError::Signer(f))
                        &&& final(self)@ == old(self)@
                    },
                    None => {
                        &&& r is Ok
                        &&& final(self)@ == signed(old(self)@, key, *data, *signing_hash)
                        &&& r->Ok_0.withheld() == ed25519_signature(sk.seed(), signing_hash@)
                        &&& r->Ok_0.to_store() == records(context_list(final(self)@.last))
                    },
                }
            }),
    {
        let key = sk.public_key();
        proof {
            lemma_digest_of(key);
        }
        match self.may_sign(&key, data, signing_hash) {
            Err(e) => {
                return Err(e);
            },
            Ok(_) => {},
        }
        let signature = sk.sign(signing_hash.as_slice());
        self.last.insert(
            key,
            SignedContext { signer: key, signing_hash: *signing_hash, epoch: data.epoch, height: data.height },
        );
        Ok(PendingSignature { signature, bytes: self.persisted() })
    }

    /// The state to store.
    pub fn persisted(&self) -> (b: Vec<u8>)
        requires
            self.wf(),
        ensures
            b@ == records(context_list(self@.last)),
    {
        let mut b: Vec<u8> = Vec::new();
        let n: usize = self.last.len();
        let ghost items = self.last.items();
        let ghost keys = sorted_members(self@.last.dom());
        let ghost list = context_list(self@.last);
        proof {
            self.last.lemma_items_sorted();
            assert(list.subrange(0, 0) =~= Seq::empty());
            assert(b@ =~= records(list.subrange(0, 0)));
        }
        let mut i: usize = 0;
        while i < n
            invariant
                self.wf(),
                items == self.last.items(),
                n == items.len(),
                n == list.len(),
                i <= n,
                forall|j: int| 0 <= j < n ==> list[j] == (#[trigger] items[j]).1,
                b@ == records(list.subrange(0, i as int)),
            decreases n - i,
        {
            let e = self.last.entry(i);
            let mut r = e.1.to_bytes();
            proof {
                let more = list.subrange(0, i + 1);
                assert(more.drop_last() =~= list.subrange(0, i as int));
                assert(more.last() == items[i as int].1);
            }
            b.append(&mut r);
            i += 1;
        }
        assert(list.subrange(0, i as int) =~= list);
        b
    }
}

/// Reads the records of a stored state; none if it is not readable.
fn read_records(b: &Vec<u8>) -> (r: Option<IdMap<SignedContext>>)
    ensures
        match r {
            Some(last) => {
                &&& readable(b@)
                &&& last.wf()
                &&& last@ == contexts(b@, b@.len() / (RECORD_LEN as nat))
                &&& forall|k: PublicKey| #[trigger] last@.contains_key(k) ==> last@[k].signer == k
            },
            None => !readable(b@),
        },
{
    let len: usize = b.len();
    if len == 0 || len % RECORD_LEN != 0 {
        return None;
    }
    let n: usize = len / RECORD_LEN;
    let mut last: IdMap<SignedContext> = IdMap::new();
    let mut i: usize = 0;
    while i < n
        invariant
            len == b@.len(),
            len > 0,
            len % RECORD_LEN == 0,
            n == len / RECORD_LEN,
            i <= n,
            last.wf(),
            last@ == contexts(b@, i as nat),
            forall|j: int| 0 <= j < i ==> record_fault(#[trigger] record_at(b@, j)) is None,
            forall|k: PublicKey| #[trigger] last@.contains_key(k) ==> last@[k].signer == k,
        decreases n - i,
    {
        assert(RECORD_LEN * i + RECORD_LEN <= len);
        let chunk = slice_subrange(b.as_slice(), RECORD_LEN * i, RECORD_LEN * i + RECORD_LEN);
        assert(chunk@ == record_at(b@, i as int));
        match SignedContext::from_bytes(chunk) {
            Ok(c) => {
                last.insert(c.signer, c);
            },
            Err(_) => {
                assert(!readable(b@)) by {
                    assert(record_fault(record_at(b@, i as int)) is Some);
                }
                return None;
            },
        }
        i += 1;
    }
    Some(last)
}

/// A record is 96 bytes long and spells the context that it was written from;
/// it reads back if the key decodes.
pub proof fn law_record_roundtrip(c: SignedContext)
    ensures
        record_bytes(c).len() == RECORD_LEN,
        record_context(record_bytes(c)) == c,
        ed25519_key_decodes(c.signer@) ==> record_fault(record_bytes(c)) is None,
{
    let b = record_bytes(c);
    lemma_le8(c.epoch);
    lemma_le8(c.height);
    assert(b.subrange(0, 16) =~= SIGNER_TAG@);
    assert(b.subrange(16, 48) =~= c.signer@);
    assert(b.subrange(48, 80) =~= c.signing_hash@);
    assert(b.subrange(80, 88) =~= le8(c.epoch));
    assert(b.subrange(88, 96) =~= le8(c.height));
    lemma_digest_of(c.signer);
    lemma_digest_of(c.signing_hash);
}

/// The records of a list are its contexts' records, in order.
proof fn lemma_records(list: Seq<SignedContext>)
    ensures
        records(list).len() == RECORD_LEN * list.len(),
        forall|i: int| 0 <= i < list.len() ==> #[trigger] record_at(records(list), i) == record_bytes(list[i]),
    decreases list.len(),
{
    if list.len() > 0 {
        let rest = list.drop_last();
        lemma_records(rest);
        law_record_roundtrip(list.last());
        let b = records(list);
        assert forall|i: int| 0 <= i < list.len() implies #[trigger] record_at(b, i) == record_bytes(list[i]) by {
            if i < rest.len() {
                assert(record_at(b, i) =~= record_at(records(rest), i));
                assert(rest[i] == list[i]);
            } else {
                assert(record_at(b, i) =~= record_bytes(list.last()));
            }
        }
    }
}

/// The contexts read from the records of a list.
proof fn lemma_contexts(list: Seq<SignedContext>, n: nat)
    requires
        n <= list.len(),
    ensures
        forall|k: PublicKey| #[trigger]
            contexts(records(list), n).contains_key(k) ==> exists|i: int|
                0 <= i < n && (#[trigger] list[i]).signer == k && contexts(records(list), n)[k] == list[i],
        forall|i: int| 0 <= i < n ==> contexts(records(list), n).contains_key((#[trigger] list[i]).signer),
    decreases n,
{
    if n > 0 {
        lemma_contexts(list, (n - 1) as nat);
        lemma_records(list);
        law_record_roundtrip(list[n - 1]);
        let c = record_context(record_at(records(list), n - 1));
        assert(record_at(records(list), n - 1) == record_bytes(list[n - 1]));
        assert(c == list[n - 1]);
        let before = contexts(records(list), (n - 1) as nat);
        let all = contexts(records(list), n);
        assert forall|k: PublicKey| #[trigger] all.contains_key(k) implies exists|i: int|
            0 <= i < n && (#[trigger] list[i]).signer == k && all[k] == list[i] by {
            if k == c.signer {
                assert(list[n - 1].signer == k && all[k] == list[n - 1]);
            } else {
                assert(before.contains_key(k));
                let i = choose|i: int| 0 <= i < n - 1 && (#[trigger] list[i]).signer == k && before[k] == list[i];
                assert(list[i].signer == k && all[k] == list[i]);
            }
        }
        assert forall|i: int| 0 <= i < n implies all.contains_key((#[trigger] list[i]).signer) by {
            if i < n - 1 {
                assert(before.contains_key(list[i].signer));
            }
        }
    }
}

/// A restart forgets nothing: loading the stored state of a guard that has
/// signed gives the same contexts back, unsealed.
pub proof fn law_restart_keeps_every_vote(last: Map<PublicKey, SignedContext>, keys: Seq<PublicKey>, stored: Vec<u8>)
    requires
        ascending(keys),
        keys.to_set() == last.dom(),
        keys.len() > 0,
        forall|k: PublicKey| #[trigger] last.contains_key(k) ==> last[k].signer == k && ed25519_key_decodes(k@),
        stored@ == records(context_list(last)),
    ensures
        guard_of(StoredState::Bytes(stored)) == (GuardModel { last, sealed: false }),
{
    let list = context_list(last);
    let b = stored@;
    lemma_sorted_members(keys);
    lemma_records(list);
    let n = list.len();
    assert(b.len() == RECORD_LEN * n);
    assert(b.len() / (RECORD_LEN as nat) == n);
    assert forall|i: int| 0 <= i < n implies record_fault(#[trigger] record_at(b, i)) is None by {
        assert(keys.to_set().contains(keys[i]));
        assert(last.contains_key(keys[i]));
        law_record_roundtrip(list[i]);
    }
    assert(readable(b));
    lemma_contexts(list, n);
    let all = contexts(b, n);
    assert forall|k: PublicKey| all.contains_key(k) == last.contains_key(k) by {
        if all.contains_key(k) {
            let i = choose|i: int| 0 <= i < n && (#[trigger] list[i]).signer == k && all[k] == list[i];
            assert(keys.to_set().contains(keys[i]));
            assert(last.contains_key(keys[i]));
        }
        if last.contains_key(k) {
            assert(keys.to_set().contains(k));
            let i = choose|i: int| 0 <= i < keys.len() && keys[i] == k;
            assert(list[i] == last[k]);
            assert(all.contains_key(list[i].signer));
        }
    }
    assert forall|k: PublicKey| #[trigger] all.contains_key(k) implies all[k] == last[k] by {
        let i = choose|i: int| 0 <= i < n && (#[trigger] list[i]).signer == k && all[k] == list[i];
        assert(keys.to_set().contains(keys[i]));
        assert(last.contains_key(keys[i]));
    }
    assert(all =~= last);
}

/// One key, one vote per epoch: once a key has signed a checkpoint, it may
/// sign none of an earlier epoch and no other content of that epoch, while
/// the same content may be signed again; other keys are not affected.
pub proof fn law_one_vote_per_epoch(
    g: GuardModel,
    signer: PublicKey,
    d: CheckpointData,
    h: Digest,
    other: PublicKey,
    epoch: u64,
    other_hash: Digest,
)
    requires
        sign_fault(g, signer, d.epoch, h) is None,
    ensures
        ({
            let after = signed(g, signer, d, h);
            &&& sign_fault(after, signer, d.epoch, h) is None
            &&& epoch < d.epoch ==> sign_fault(after, signer, epoch, other_hash) is Some
            &&& other_hash != h ==> sign_fault(after, signer, d.epoch, other_hash) is Some
            &&& epoch > d.epoch ==> sign_fault(after, signer, epoch, other_hash) is None
            &&& other != signer ==> sign_fault(after, other, epoch, other_hash) == sign_fault(
                g,
                other,
                epoch,
                other_hash,
            )
        }),
{
}

/// A sealed guard signs nothing.
pub proof fn law_sealed_guard_signs_nothing(g: GuardModel, signer: PublicKey, epoch: u64, h: Digest)
    requires
        g.sealed,
    ensures
        sign_fault(g, signer, epoch, h) is Some,
{
}

impl<C: Consensus> Blockchain<C> {
    /// Signs a checkpoint proposal through the signer guard. The signature
    /// stays withheld until its context is stored.
    pub fn sign_checkpoint(
        &self,
        guard: &mut SignerGuard,
        sk: &SigningKey,
        data: &CheckpointData,
        signing_hash: &Digest,
    ) -> (r: Result<PendingSignature, BlockchainError>)
        requires
            old(guard).wf(),
        ensures
            final(guard).wf(),
            ({
                let key = digest_of(ed25519_public(sk.seed()));
                match sign_fault(old(guard)@, key, data.epoch, *signing_hash) {
                    Some(f) => {
                        &&& r == Err::<PendingSignature, BlockchainError>(BlockchainError::Signer(f))
                        &&& final(guard)@ == old(guard)@
                    },
                    None => {
                        &&& r is Ok
                        &&& final(guard)@ == signed(old(guard)@, key, *data, *signing_hash)
                        &&& r->Ok_0.withheld() == ed25519_signature(sk.seed(), signing_hash@)
                        &&& r->Ok_0.to_store() == records(context_list(final(guard)@.last))
                    },
                }
            }),
    {
        guard.authorize(sk, data, signing_hash)
    }
}

} // verus!

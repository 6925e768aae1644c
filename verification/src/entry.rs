//! Registered entries: their stored form and their commitment leaves.
use vstd::prelude::*;
use vstd::bytes::spec_u64_from_le_bytes;
use crate::bytes::be8;
use crate::bytes::digest_at;
use crate::bytes::le8;
use crate::bytes::le8_at;
use crate::bytes::lemma_le8;
use crate::bytes::push_be8;
use crate::bytes::push_le8;
use crate::digest::append_bytes;
use crate::digest::blake3_digest;
use crate::digest::hash256;
use crate::ids::Digest;
use crate::ids::DomainId;
use crate::ids::OwnerId;
use crate::ids::RecordHash;
use crate::ids::TldId;
use crate::ids::lemma_same_bytes;
use crate::ids::same_id;
use crate::ids::zero_digest;
use crate::ids::zeros;

verus! {

/// Tag of a domain leaf: `SCONE-LEAF-DOM-V2`.
pub const DOMAIN_LEAF_TAG: [u8; 17] = [83, 67, 79, 78, 69, 45, 76, 69, 65, 70, 45, 68, 79, 77, 45, 86, 50];

/// Tag of a namespace leaf: `SCONE-LEAF-TLD-V2`.
pub const TLD_LEAF_TAG: [u8; 17] = [83, 67, 79, 78, 69, 45, 76, 69, 65, 70, 45, 84, 76, 68, 45, 86, 50];

/// State of one registered domain.
#[derive(Clone, Copy, Debug, PartialEq, Eq)]
pub struct DomainState {
    /// Current owner.
    pub owner: OwnerId,
    /// Latest applied update sequence; 0 right after registration.
    pub sequence: u64,
    /// Commitment to the record set, once an update was applied.
    pub record_hash: Option<RecordHash>,
    /// Block time at registration.
    pub registered_at: u64,
    /// Registration expiry.
    pub valid_until: u64,
}

/// State of one registered namespace.
#[derive(Clone, Copy, Debug, PartialEq, Eq)]
pub struct TldState {
    /// Current owner.
    pub owner: OwnerId,
    /// Whether anyone may register free domains under it.
    pub open: bool,
}

impl TldState {
    /// State right after a claim: owned and closed.
    pub fn claimed_by(owner: OwnerId) -> (st: TldState)
        ensures
            st == (TldState { owner, open: false }),
    {
        TldState { owner, open: false }
    }
}

/// A registered entry.
#[derive(Clone, Copy, Debug, PartialEq, Eq)]
pub enum Entry {
    Domain(DomainState),
    Tld(TldState),
}

/// The 32 bytes in which a record hash is stored: zeros for none.
pub open spec fn record_or_zero(r: Option<RecordHash>) -> RecordHash {
    match r {
        Some(h) => h,
        None => zero_digest(),
    }
}

/// What a domain state reads back as: an all-zero record hash is none.
pub open spec fn normal(st: DomainState) -> DomainState {
    if st.record_hash == Some(zero_digest()) {
        DomainState { record_hash: None, ..st }
    } else {
        st
    }
}

/// Stored form of a domain: owner, sequence, record hash, registration
/// time, expiry; 88 bytes, integers least significant byte first.
pub open spec fn domain_bytes(st: DomainState) -> Seq<u8> {
    st.owner@ + le8(st.sequence) + record_or_zero(st.record_hash)@ + le8(st.registered_at) + le8(
        st.valid_until,
    )
}

/// Stored form of a namespace: owner and open flag; 33 bytes.
pub open spec fn tld_bytes(st: TldState) -> Seq<u8> {
    st.owner@.push(if st.open { 1u8 } else { 0u8 })
}

/// The 32-byte value with the given bytes.
pub open spec fn digest_of(s: Seq<u8>) -> Digest {
    choose|d: Digest| #[trigger] d@ == s
}

/// The domain that stored bytes spell.
pub open spec fn domain_from(b: Seq<u8>) -> DomainState {
    DomainState {
        owner: digest_of(b.subrange(0, 32)),
        sequence: spec_u64_from_le_bytes(b.subrange(32, 40)),
        record_hash: if digest_of(b.subrange(40, 72)) == zero_digest() {
            None
        } else {
            Some(digest_of(b.subrange(40, 72)))
        },
        registered_at: spec_u64_from_le_bytes(b.subrange(72, 80)),
        valid_until: spec_u64_from_le_bytes(b.subrange(80, 88)),
    }
}

/// The namespace that stored bytes spell.
pub open spec fn tld_from(b: Seq<u8>) -> TldState {
    TldState { owner: digest_of(b.subrange(0, 32)), open: b[32] != 0 }
}

/// Whether stored bytes have the length of an entry.
pub open spec fn entry_sized(b: Seq<u8>) -> bool {
    b.len() == 88 || b.len() == 33
}

/// The entry that stored bytes spell.
pub open spec fn entry_from(b: Seq<u8>) -> Entry {
    if b.len() == 88 {
        Entry::Domain(domain_from(b))
    } else {
        Entry::Tld(tld_from(b))
    }
}

/// Commitment leaf of a domain.
pub open spec fn domain_leaf(id: DomainId, st: DomainState) -> Digest {
    blake3_digest(
        DOMAIN_LEAF_TAG@ + id@ + st.owner@ + be8(st.sequence) + be8(st.registered_at) + be8(st.valid_until)
            + record_or_zero(st.record_hash)@,
    )
}

/// Commitment leaf of a namespace.
pub open spec fn tld_leaf(id: TldId, st: TldState) -> Digest {
    blake3_digest((TLD_LEAF_TAG@ + id@ + st.owner@).push(if st.open { 1u8 } else { 0u8 }))
}

/// Commitment leaf of an entry.
pub open spec fn entry_leaf(id: Digest, e: Entry) -> Digest {
    match e {
        Entry::Domain(st) => domain_leaf(id, st),
        Entry::Tld(st) => tld_leaf(id, st),
    }
}

pub proof fn lemma_digest_of(d: Digest)
    ensures
        digest_of(d@) == d,
{
    lemma_same_bytes(digest_of(d@), d);
}

/// A stored domain reads back as its normal form.
pub proof fn law_domain_entry_roundtrip(st: DomainState)
    ensures
        domain_bytes(st).len() == 88,
        domain_from(domain_bytes(st)) == normal(st),
        entry_from(domain_bytes(st)) == Entry::Domain(normal(st)),
{
    let b = domain_bytes(st);
    lemma_le8(st.sequence);
    lemma_le8(st.registered_at);
    lemma_le8(st.valid_until);
    let r = record_or_zero(st.record_hash);
    assert(b.subrange(0, 32) =~= st.owner@);
    assert(b.subrange(32, 40) =~= le8(st.sequence));
    assert(b.subrange(40, 72) =~= r@);
    assert(b.subrange(72, 80) =~= le8(st.registered_at));
    assert(b.subrange(80, 88) =~= le8(st.valid_until));
    lemma_digest_of(st.owner);
    lemma_digest_of(r);
}

/// A stored namespace reads back as it was.
pub proof fn law_tld_entry_roundtrip(st: TldState)
    ensures
        tld_bytes(st).len() == 33,
        tld_from(tld_bytes(st)) == st,
        entry_from(tld_bytes(st)) == Entry::Tld(st),
{
    let b = tld_bytes(st);
    assert(b.subrange(0, 32) =~= st.owner@);
    lemma_digest_of(st.owner);
}

/// The leaf does not depend on how a missing record hash is held.
pub proof fn lemma_leaf_normal(id: DomainId, st: DomainState)
    ensures
        domain_leaf(id, normal(st)) == domain_leaf(id, st),
{
}

/// Stored form of a domain.
pub fn encode_domain_entry(st: &DomainState) -> (b: Vec<u8>)
    ensures
        b@ == domain_bytes(*st),
{
    let mut b: Vec<u8> = Vec::new();
    append_bytes(&mut b, st.owner.as_slice());
    push_le8(&mut b, st.sequence);
    let r: RecordHash = match st.record_hash {
        Some(h) => h,
        None => zeros(),
    };
    append_bytes(&mut b, r.as_slice());
    push_le8(&mut b, st.registered_at);
    push_le8(&mut b, st.valid_until);
    assert(b@ =~= domain_bytes(*st));
    b
}

/// Reads a stored domain; none if the length is another.
pub fn decode_domain_entry(b: &Vec<u8>) -> (st: Option<DomainState>)
    ensures
        st == (if b@.len() == 88 {
            Some(domain_from(b@))
        } else {
            None
        }),
{
    if b.len() != 88 {
        return None;
    }
    let s = b.as_slice();
    let owner = digest_at(s, 0);
    let sequence = le8_at(s, 32);
    let record = digest_at(s, 40);
    let registered_at = le8_at(s, 72);
    let valid_until = le8_at(s, 80);
    let none = zeros();
    let all_zero = same_id(&record, &none);
    proof {
        lemma_digest_of(owner);
        lemma_digest_of(record);
    }
    Some(
        DomainState {
            owner,
            sequence,
            record_hash: if all_zero {
                None
            } else {
                Some(record)
            },
            registered_at,
            valid_until,
        },
    )
}

/// Stored form of a namespace.
pub fn encode_tld_entry(st: &TldState) -> (b: Vec<u8>)
    ensures
        b@ == tld_bytes(*st),
{
    let mut b: Vec<u8> = Vec::new();
    append_bytes(&mut b, st.owner.as_slice());
    b.push(if st.open { 1 } else { 0 });
    assert(b@ =~= tld_bytes(*st));
    b
}

/// Reads a stored namespace; none if the length is another.
pub fn decode_tld_entry(b: &Vec<u8>) -> (st: Option<TldState>)
    ensures
        st == (if b@.len() == 33 {
            Some(tld_from(b@))
        } else {
            None
        }),
{
    if b.len() != 33 {
        return None;
    }
    let owner = digest_at(b.as_slice(), 0);
    proof {
        lemma_digest_of(owner);
    }
    Some(TldState { owner, open: b[32] != 0 })
}

/// Commitment leaf of a domain.
pub fn domain_leaf_v2(id: &DomainId, st: &DomainState) -> (leaf: Digest)
    ensures
        leaf == domain_leaf(*id, *st),
{
    let tag: [u8; 17] = DOMAIN_LEAF_TAG;
    let mut b: Vec<u8> = Vec::new();
    append_bytes(&mut b, tag.as_slice());
    append_bytes(&mut b, id.as_slice());
    append_bytes(&mut b, st.owner.as_slice());
    push_be8(&mut b, st.sequence);
    push_be8(&mut b, st.registered_at);
    push_be8(&mut b, st.valid_until);
    let r: RecordHash = match st.record_hash {
        Some(h) => h,
        None => zeros(),
    };
    append_bytes(&mut b, r.as_slice());
    assert(b@ =~= DOMAIN_LEAF_TAG@ + id@ + st.owner@ + be8(st.sequence) + be8(st.registered_at) + be8(
        st.valid_until,
    ) + record_or_zero(st.record_hash)@);
    hash256(&b)
}

/// Commitment leaf of a namespace.
pub fn tld_leaf_v2(id: &TldId, st: &TldState) -> (leaf: Digest)
    ensures
        leaf == tld_leaf(*id, *st),
{
    let tag: [u8; 17] = TLD_LEAF_TAG;
    let mut b: Vec<u8> = Vec::new();
    append_bytes(&mut b, tag.as_slice());
    append_bytes(&mut b, id.as_slice());
    append_bytes(&mut b, st.owner.as_slice());
    b.push(if st.open { 1 } else { 0 });
    assert(b@ =~= (TLD_LEAF_TAG@ + id@ + st.owner@).push(if st.open { 1u8 } else { 0u8 }));
    hash256(&b)
}

} // verus!

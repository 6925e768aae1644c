//! Fixed-width identifiers and their byte order.
use vstd::prelude::*;

verus! {

/// A 32-byte value: a digest, an identifier or a public key.
pub type Digest = [u8; 32];

/// Identifier of a domain.
pub type DomainId = [u8; 32];

/// Identifier of a top-level domain.
pub type TldId = [u8; 32];

/// Identifier of an owner.
pub type OwnerId = [u8; 32];

/// Digest of a record set.
pub type RecordHash = [u8; 32];

/// Digest of a block header.
pub type BlockHash = [u8; 32];

/// Root of a Merkle tree.
pub type MerkleRoot = [u8; 32];

/// An Ed25519 public key, as bytes.
pub type PublicKey = [u8; 32];

/// An Ed25519 signature, as bytes.
pub type Signature = [u8; 64];

/// 32 zero bytes.
pub open spec fn zero_digest() -> Digest {
    [
        0u8, 0, 0, 0, 0, 0, 0, 0, 0, 0, 0, 0, 0, 0, 0, 0, 0, 0, 0, 0, 0, 0, 0, 0, 0, 0, 0, 0, 0, 0, 0, 0,
    ]
}

/// 32 zero bytes.
pub fn zeros() -> (digest: Digest)
    ensures
        digest == zero_digest(),
        forall|i: int| 0 <= i < 32 ==> digest@[i] == 0,
{
    let digest: Digest = [0u8; 32];
    assert(digest =~= zero_digest());
    digest
}

/// The number that a byte string spells in base 256, most significant byte
/// first.
pub open spec fn big_endian(s: Seq<u8>) -> nat
    decreases s.len(),
{
    if s.len() == 0 {
        0
    } else {
        big_endian(s.drop_last()) * 256 + s.last() as nat
    }
}

/// Rank of an identifier in byte order: comparing ranks is comparing the
/// bytes from the first one on.
pub open spec fn ordinal(id: Digest) -> nat {
    big_endian(id@)
}

/// A sequence of identifiers in strictly ascending byte order.
pub open spec fn ascending(s: Seq<Digest>) -> bool {
    forall|i: int, j: int| 0 <= i < j < s.len() ==> ordinal(#[trigger] s[i]) < ordinal(#[trigger] s[j])
}

/// Two byte strings of one length that differ first at `i` compare as their
/// bytes at `i` do.
pub proof fn lemma_first_difference(a: Seq<u8>, b: Seq<u8>, i: int)
    requires
        a.len() == b.len(),
        0 <= i < a.len(),
        forall|j: int| 0 <= j < i ==> a[j] == b[j],
        a[i] < b[i],
    ensures
        big_endian(a) < big_endian(b),
    decreases a.len(),
{
    if i == a.len() - 1 {
        assert(a.drop_last() =~= b.drop_last());
    } else {
        lemma_first_difference(a.drop_last(), b.drop_last(), i);
    }
}

/// Two byte strings of one length that differ have different ranks.
proof fn lemma_big_endian_injective(a: Seq<u8>, b: Seq<u8>)
    requires
        a.len() == b.len(),
        big_endian(a) == big_endian(b),
    ensures
        a == b,
    decreases a.len(),
{
    if a.len() > 0 {
        lemma_big_endian_injective(a.drop_last(), b.drop_last());
        assert(a =~= a.drop_last().push(a.last()));
        assert(b =~= b.drop_last().push(b.last()));
    } else {
        assert(a =~= b);
    }
}

/// Byte order is total: identifiers of equal rank are equal.
pub proof fn lemma_ordinal_injective(a: Digest, b: Digest)
    requires
        ordinal(a) == ordinal(b),
    ensures
        a == b,
{
    lemma_big_endian_injective(a@, b@);
    assert(a =~= b);
}

/// Identifiers with equal bytes are equal.
pub proof fn lemma_same_bytes(a: Digest, b: Digest)
    requires
        a@ == b@,
    ensures
        a == b,
{
    assert forall|i: int| 0 <= i < 32 implies a[i] == b[i] by {
        assert(a@[i] == b@[i]);
    }
    assert(a =~= b);
}

/// Whether two identifiers are equal.
pub fn same_id(a: &Digest, b: &Digest) -> (same: bool)
    ensures
        same == (*a == *b),
{
    let mut i: usize = 0;
    while i < 32
        invariant
            i <= 32,
            forall|j: int| 0 <= j < i ==> a[j] == b[j],
        decreases 32 - i,
    {
        if a[i] != b[i] {
            return false;
        }
        i += 1;
    }
    assert(*a =~= *b);
    true
}

/// Whether `a` comes strictly before `b` in byte order.
pub fn id_before(a: &Digest, b: &Digest) -> (before: bool)
    ensures
        before == (ordinal(*a) < ordinal(*b)),
{
    let mut i: usize = 0;
    while i < 32
        invariant
            i <= 32,
            forall|j: int| 0 <= j < i ==> a[j] == b[j],
        decreases 32 - i,
    {
        if a[i] < b[i] {
            proof {
                lemma_first_difference(a@, b@, i as int);
            }
            return true;
        }
        if b[i] < a[i] {
            proof {
                lemma_first_difference(b@, a@, i as int);
            }
            return false;
        }
        i += 1;
    }
    assert(*a =~= *b);
    false
}

/// Two ascending sequences with the same members are the same sequence.
pub proof fn lemma_ascending_unique(a: Seq<Digest>, b: Seq<Digest>)
    requires
        ascending(a),
        ascending(b),
        a.to_set() == b.to_set(),
    ensures
        a == b,
    decreases a.len(),
{
    if a.len() == 0 {
        if b.len() > 0 {
            assert(b.to_set().contains(b[0]));
            assert(a.to_set().contains(b[0]));
            assert(a.contains(b[0]));
        }
        assert(a =~= b);
    } else {
        assert(a.to_set().contains(a.last()));
        assert(b.contains(a.last()));
        let j = choose|j: int| 0 <= j < b.len() && b[j] == a.last();
        assert(b.to_set().contains(b.last()));
        assert(a.contains(b.last()));
        let i = choose|i: int| 0 <= i < a.len() && a[i] == b.last();
        assert(i == a.len() - 1) by {
            if i < a.len() - 1 {
                assert(ordinal(a[i]) < ordinal(a[a.len() - 1]));
                assert(j < b.len() - 1 ==> ordinal(b[j]) < ordinal(b[b.len() - 1]));
            }
        }
        let a1 = a.drop_last();
        let b1 = b.drop_last();
        assert(a1.to_set() =~= b1.to_set()) by {
            assert forall|x: Digest| a1.to_set().contains(x) == b1.to_set().contains(x) by {
                if a1.contains(x) {
                    let n = choose|n: int| 0 <= n < a1.len() && a1[n] == x;
                    assert(a[n] == x);
                    assert(a.to_set().contains(x));
                    assert(b.contains(x));
                    let k = choose|k: int| 0 <= k < b.len() && b[k] == x;
                    assert(ordinal(a[n]) < ordinal(a[a.len() - 1]));
                    assert(k < b.len() - 1);
                    assert(b1[k] == x);
                }
                if b1.contains(x) {
                    let n = choose|n: int| 0 <= n < b1.len() && b1[n] == x;
                    assert(b[n] == x);
                    assert(b.to_set().contains(x));
                    assert(a.contains(x));
                    let k = choose|k: int| 0 <= k < a.len() && a[k] == x;
                    assert(ordinal(b[n]) < ordinal(b[b.len() - 1]));
                    assert(k < a.len() - 1);
                    assert(a1[k] == x);
                }
            }
        }
        assert forall|p: int, q: int| 0 <= p < q < a1.len() implies ordinal(#[trigger] a1[p]) < ordinal(
            #[trigger] a1[q],
        ) by {
            assert(ordinal(a[p]) < ordinal(a[q]));
        }
        assert forall|p: int, q: int| 0 <= p < q < b1.len() implies ordinal(#[trigger] b1[p]) < ordinal(
            #[trigger] b1[q],
        ) by {
            assert(ordinal(b[p]) < ordinal(b[q]));
        }
        lemma_ascending_unique(a1, b1);
        assert(a =~= a1.push(a.last()));
        assert(b =~= b1.push(b.last()));
    }
}

/// A copy of a list of digests.
pub fn copy_digests(v: &Vec<Digest>) -> (copy: Vec<Digest>)
    ensures
        copy@ == v@,
{
    let mut copy: Vec<Digest> = Vec::new();
    let mut i: usize = 0;
    while i < v.len()
        invariant
            i <= v@.len(),
            copy@ =~= v@.subrange(0, i as int),
        decreases v@.len() - i,
    {
        copy.push(v[i]);
        i += 1;
    }
    assert(copy@ =~= v@);
    copy
}

/// Whether a key is among some keys.
pub fn holds_member(keys: &Vec<PublicKey>, key: &PublicKey) -> (r: bool)
    ensures
        r == keys@.contains(*key),
{
    let mut i: usize = 0;
    while i < keys.len()
        invariant
            i <= keys@.len(),
            forall|j: int| 0 <= j < i ==> keys@[j] != *key,
        decreases keys@.len() - i,
    {
        if same_id(&keys[i], key) {
            assert(keys@[i as int] == *key);
            return true;
        }
        i += 1;
    }
    false
}

} // verus!

//! Fixed-width integers and arrays inside byte strings.
use vstd::prelude::*;
use vstd::bytes::spec_u64_from_le_bytes;
use vstd::bytes::spec_u64_to_le_bytes;
use vstd::bytes::u64_from_le_bytes;
use vstd::bytes::u64_to_le_bytes;
use vstd::slice::slice_subrange;
use crate::digest::append_bytes;
use crate::ids::Digest;
use crate::ids::Signature;

verus! {

/// The 8 bytes of an integer, least significant first.
pub open spec fn le8(x: u64) -> Seq<u8> {
    spec_u64_to_le_bytes(x)
}

/// The 8 bytes of an integer, most significant first.
pub open spec fn be8(x: u64) -> Seq<u8> {
    le8(x).reverse()
}

/// Eight bytes spell the integer they were written from.
pub proof fn lemma_le8(x: u64)
    ensures
        le8(x).len() == 8,
        be8(x).len() == 8,
        spec_u64_from_le_bytes(le8(x)) == x,
{
    vstd::bytes::lemma_auto_spec_u64_to_from_le_bytes();
}

/// Appends an integer, least significant byte first.
pub fn push_le8(buf: &mut Vec<u8>, x: u64)
    ensures
        final(buf)@ == old(buf)@ + le8(x),
{
    let b = u64_to_le_bytes(x);
    append_bytes(buf, b.as_slice());
}

/// Appends an integer, most significant byte first.
pub fn push_be8(buf: &mut Vec<u8>, x: u64)
    ensures
        final(buf)@ == old(buf)@ + be8(x),
{
    let b = u64_to_le_bytes(x);
    let mut i: usize = 8;
    while i > 0
        invariant
            i <= 8,
            b@ == le8(x),
            b@.len() == 8,
            buf@ == old(buf)@ + be8(x).subrange(0, 8 - i),
        decreases i,
    {
        i -= 1;
        buf.push(b[i]);
        assert(be8(x).subrange(0, 8 - i) =~= be8(x).subrange(0, 7 - i).push(be8(x)[7 - i]));
        assert(be8(x)[7 - i] == b@[i as int]);
    }
    assert(be8(x).subrange(0, 8) =~= be8(x));
}

/// The 32 bytes at position `at`.
pub fn digest_at(bytes: &[u8], at: usize) -> (d: Digest)
    requires
        at + 32 <= bytes@.len(),
    ensures
        d@ == bytes@.subrange(at as int, at + 32),
{
    let mut d: Digest = [0u8; 32];
    let n: usize = bytes.len();
    let mut i: usize = 0;
    while i < 32
        invariant
            i <= 32,
            at + 32 <= n == bytes@.len(),
            forall|j: int| 0 <= j < i ==> d@[j] == bytes@[at + j],
        decreases 32 - i,
    {
        d[i] = bytes[at + i];
        i += 1;
    }
    assert(d@ =~= bytes@.subrange(at as int, at + 32));
    d
}

/// The 64 bytes at position `at`.
pub fn signature_at(bytes: &[u8], at: usize) -> (d: Signature)
    requires
        at + 64 <= bytes@.len(),
    ensures
        d@ == bytes@.subrange(at as int, at + 64),
{
    let mut d: Signature = [0u8; 64];
    let n: usize = bytes.len();
    let mut i: usize = 0;
    while i < 64
        invariant
            i <= 64,
            at + 64 <= n == bytes@.len(),
            forall|j: int| 0 <= j < i ==> d@[j] == bytes@[at + j],
        decreases 64 - i,
    {
        d[i] = bytes[at + i];
        i += 1;
    }
    assert(d@ =~= bytes@.subrange(at as int, at + 64));
    d
}

/// The integer in the 8 bytes at position `at`, least significant first.
pub fn le8_at(bytes: &[u8], at: usize) -> (x: u64)
    requires
        at + 8 <= bytes@.len(),
    ensures
        x == spec_u64_from_le_bytes(bytes@.subrange(at as int, at + 8)),
{
    let n: usize = bytes.len();
    assert(at + 8 <= n);
    u64_from_le_bytes(slice_subrange(bytes, at, at + 8))
}

/// A copy of a byte string.
pub fn copy_bytes(v: &Vec<u8>) -> (copy: Vec<u8>)
    ensures
        copy@ == v@,
{
    let mut copy: Vec<u8> = Vec::new();
    append_bytes(&mut copy, v.as_slice());
    assert(copy@ =~= v@);
    copy
}

/// Whether two byte strings are equal.
pub fn same_bytes(a: &[u8], b: &[u8]) -> (same: bool)
    ensures
        same == (a@ == b@),
{
    if a.len() != b.len() {
        return false;
    }
    let mut i: usize = 0;
    while i < a.len()
        invariant
            i <= a@.len(),
            a@.len() == b@.len(),
            forall|j: int| 0 <= j < i ==> a@[j] == b@[j],
        decreases a@.len() - i,
    {
        if a[i] != b[i] {
            return false;
        }
        i += 1;
    }
    assert(a@ =~= b@);
    true
}

} // verus!

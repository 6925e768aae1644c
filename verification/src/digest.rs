//! The one hash function of the chain.
use vstd::prelude::*;
use crate::ids::Digest;

verus! {

/// The 32-byte BLAKE3 hash of a byte string.
pub uninterp spec fn blake3_digest(data: Seq<u8>) -> Digest;

/// `blake3::hash`: the default hash mode of BLAKE3, with 32 bytes of output.
/// Trusted: the result is a function of the input bytes alone, named
/// `blake3_digest`.
#[verifier::external_body]
pub(crate) fn blake3_hash(data: &[u8]) -> (digest: Digest)
    ensures
        digest == blake3_digest(data@),
{
    *blake3::hash(data).as_bytes()
}

/// Hashes a byte string.
pub fn hash256(data: &Vec<u8>) -> (digest: Digest)
    ensures
        digest == blake3_digest(data@),
{
    blake3_hash(data.as_slice())
}

/// Appends the bytes of `tail` to `buf`.
pub fn append_bytes(buf: &mut Vec<u8>, tail: &[u8])
    ensures
        final(buf)@ == old(buf)@ + tail@,
{
    let mut i: usize = 0;
    while i < tail.len()
        invariant
            i <= tail@.len(),
            buf@ == old(buf)@ + tail@.subrange(0, i as int),
        decreases tail@.len() - i,
    {
        buf.push(tail[i]);
        i += 1;
        assert(tail@.subrange(0, i as int) =~= tail@.subrange(0, i - 1).push(tail@[i - 1]));
    }
    assert(tail@.subrange(0, i as int) =~= tail@);
}

} // verus!

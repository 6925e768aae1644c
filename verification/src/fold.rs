//! Binary Merkle fold over digests.
use vstd::prelude::*;
use crate::digest::append_bytes;
use crate::digest::blake3_digest;
use crate::digest::hash256;
use crate::ids::Digest;
use crate::ids::copy_digests;
use crate::ids::zero_digest;
use crate::ids::zeros;

verus! {

/// Hash of two neighbours under a tag.
pub open spec fn pair_value(tag: Seq<u8>, left: Digest, right: Digest) -> Digest {
    blake3_digest(tag + left@ + right@)
}

/// One level up: neighbours are paired, an odd last one with itself.
pub open spec fn level_up(tag: Seq<u8>, level: Seq<Digest>) -> Seq<Digest> {
    Seq::new(
        ((level.len() + 1) / 2) as nat,
        |i: int|
            pair_value(
                tag,
                level[2 * i],
                if 2 * i + 1 < level.len() {
                    level[2 * i + 1]
                } else {
                    level[2 * i]
                },
            ),
    )
}

/// Root over a level: zeros for none, the digest itself for one.
pub open spec fn fold_root(tag: Seq<u8>, level: Seq<Digest>) -> Digest
    decreases level.len(),
{
    if level.len() == 0 {
        zero_digest()
    } else if level.len() == 1 {
        level[0]
    } else {
        fold_root(tag, level_up(tag, level))
    }
}

/// Hash of two neighbours under a tag.
fn pair_hash(tag: &Vec<u8>, left: &Digest, right: &Digest) -> (h: Digest)
    ensures
        h == pair_value(tag@, *left, *right),
{
    let mut buf: Vec<u8> = Vec::new();
    append_bytes(&mut buf, tag.as_slice());
    append_bytes(&mut buf, left.as_slice());
    append_bytes(&mut buf, right.as_slice());
    assert(buf@ =~= tag@ + left@ + right@);
    hash256(&buf)
}

/// Root over a list of digests.
pub fn fold_hashes(tag: &Vec<u8>, leaves: &Vec<Digest>) -> (root: Digest)
    ensures
        root == fold_root(tag@, leaves@),
{
    if leaves.len() == 0 {
        return zeros();
    }
    let mut level: Vec<Digest> = copy_digests(leaves);
    while level.len() > 1
        invariant
            level@.len() > 0,
            fold_root(tag@, level@) == fold_root(tag@, leaves@),
        decreases level@.len(),
    {
        let mut next: Vec<Digest> = Vec::new();
        let half: usize = level.len() / 2 + level.len() % 2;
        let mut j: usize = 0;
        while j < half
            invariant
                level@.len() > 1,
                level@.len() <= usize::MAX,
                half == (level@.len() + 1) / 2,
                j <= half,
                next@.len() == j,
                forall|n: int| 0 <= n < next@.len() ==> next@[n] == level_up(tag@, level@)[n],
            decreases half - j,
        {
            let right: Digest = if 2 * j + 1 < level.len() {
                level[2 * j + 1]
            } else {
                level[2 * j]
            };
            next.push(pair_hash(tag, &level[2 * j], &right));
            j += 1;
        }
        assert(next@ =~= level_up(tag@, level@));
        level = next;
    }
    level[0]
}

} // verus!

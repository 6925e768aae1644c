//! Merkle tree over transaction ids, in block order.
use vstd::prelude::*;
use crate::digest::append_bytes;
use crate::digest::blake3_digest;
use crate::digest::hash256;
use crate::error::BlockchainError;
use crate::fold::fold_hashes;
use crate::fold::fold_root;
use crate::fold::pair_value;
use crate::ids::Digest;
use crate::ids::MerkleRoot;
use crate::txid::TxId;
use crate::txid::transaction_id;
use crate::txid::tx_id;
use crate::types::ProtocolError;
use crate::types::Transaction;
use crate::types::TxModel;
use crate::types::tx_models;

verus! {

/// Domain-separation prefix of this tree: `SCONE-MERKLE-V1`.
pub const MERKLE_VERSION: [u8; 15] = [83, 67, 79, 78, 69, 45, 77, 69, 82, 75, 76, 69, 45, 86, 49];

/// Label of the root over no transaction: `EMPTY`.
pub const EMPTY_ROOT_LABEL: [u8; 5] = [69, 77, 80, 84, 89];

/// Tag of a leaf.
pub const LEAF_TAG: u8 = 0;

/// Tag of an inner node.
pub const NODE_TAG: u8 = 1;

/// Leaf over a transaction id.
pub open spec fn merkle_leaf(id: Digest) -> Digest {
    blake3_digest(MERKLE_VERSION@.push(LEAF_TAG) + id@)
}

/// Inner node.
pub open spec fn merkle_node(left: Digest, right: Digest) -> Digest {
    pair_value(MERKLE_VERSION@.push(NODE_TAG), left, right)
}

/// Root over transaction ids in the given order.
pub open spec fn merkle_root_of(ids: Seq<Digest>) -> MerkleRoot {
    if ids.len() == 0 {
        blake3_digest(MERKLE_VERSION@ + EMPTY_ROOT_LABEL@)
    } else {
        fold_root(MERKLE_VERSION@.push(NODE_TAG), ids.map_values(|id: Digest| merkle_leaf(id)))
    }
}

/// First encoding error among some transactions.
pub open spec fn first_encoding_error(txs: Seq<TxModel>) -> Option<ProtocolError>
    decreases txs.len(),
{
    if txs.len() == 0 {
        None
    } else if first_encoding_error(txs.drop_last()) is Some {
        first_encoding_error(txs.drop_last())
    } else {
        match tx_id(txs.last()) {
            Ok(_) => None,
            Err(e) => Some(e),
        }
    }
}

/// Ids of some transactions.
pub open spec fn tx_ids(txs: Seq<TxModel>) -> Seq<Digest> {
    txs.map_values(|t: TxModel| tx_id(t)->Ok_0)
}

/// Commitment of a transaction list.
pub open spec fn tx_root_of(txs: Seq<TxModel>) -> Result<MerkleRoot, BlockchainError> {
    match first_encoding_error(txs) {
        Some(e) => Err(BlockchainError::Protocol(e)),
        None => Ok(merkle_root_of(tx_ids(txs))),
    }
}

/// Leaf over a transaction id.
pub fn leaf_hash(id: &TxId) -> (h: Digest)
    ensures
        h == merkle_leaf(id@),
{
    let tag: [u8; 15] = MERKLE_VERSION;
    let mut buf: Vec<u8> = Vec::new();
    append_bytes(&mut buf, tag.as_slice());
    buf.push(LEAF_TAG);
    append_bytes(&mut buf, id.as_bytes().as_slice());
    assert(buf@ =~= MERKLE_VERSION@.push(LEAF_TAG) + id@@);
    hash256(&buf)
}

/// Inner node.
pub fn node_hash(left: &Digest, right: &Digest) -> (h: Digest)
    ensures
        h == merkle_node(*left, *right),
{
    let tag: [u8; 15] = MERKLE_VERSION;
    let mut buf: Vec<u8> = Vec::new();
    append_bytes(&mut buf, tag.as_slice());
    buf.push(NODE_TAG);
    append_bytes(&mut buf, left.as_slice());
    append_bytes(&mut buf, right.as_slice());
    assert(buf@ =~= MERKLE_VERSION@.push(NODE_TAG) + left@ + right@);
    hash256(&buf)
}

/// The values of a list of ids.
pub open spec fn id_values(ids: Seq<TxId>) -> Seq<Digest> {
    ids.map_values(|i: TxId| i@)
}

/// Merkle root over transaction ids, in the given order.
pub fn merkle_root(txids: &[TxId]) -> (root: MerkleRoot)
    ensures
        root == merkle_root_of(id_values(txids@)),
{
    let tag: [u8; 15] = MERKLE_VERSION;
    if txids.len() == 0 {
        let label: [u8; 5] = EMPTY_ROOT_LABEL;
        let mut buf: Vec<u8> = Vec::new();
        append_bytes(&mut buf, tag.as_slice());
        append_bytes(&mut buf, label.as_slice());
        assert(buf@ =~= MERKLE_VERSION@ + EMPTY_ROOT_LABEL@);
        return hash256(&buf);
    }
    let mut leaves: Vec<Digest> = Vec::new();
    let mut i: usize = 0;
    while i < txids.len()
        invariant
            i <= txids@.len(),
            leaves@.len() == i,
            forall|j: int| 0 <= j < i ==> leaves@[j] == merkle_leaf(txids@[j]@),
        decreases txids@.len() - i,
    {
        leaves.push(leaf_hash(&txids[i]));
        i += 1;
    }
    let mut node_tag: Vec<u8> = Vec::new();
    append_bytes(&mut node_tag, tag.as_slice());
    node_tag.push(NODE_TAG);
    proof {
        assert(node_tag@ =~= MERKLE_VERSION@.push(NODE_TAG));
        assert(leaves@ =~= id_values(txids@).map_values(|id: Digest| merkle_leaf(id)));
    }
    fold_hashes(&node_tag, &leaves)
}

/// Commitment of a block's transaction list, in block order.
pub fn tx_root(transactions: &Vec<Transaction>) -> (root: Result<MerkleRoot, BlockchainError>)
    ensures
        root == tx_root_of(tx_models(transactions@)),
{
    let ghost txs = tx_models(transactions@);
    let mut ids: Vec<TxId> = Vec::new();
    let mut i: usize = 0;
    assert(txs.subrange(0, 0) =~= Seq::empty());
    while i < transactions.len()
        invariant
            i <= transactions@.len(),
            txs == tx_models(transactions@),
            ids@.len() == i,
            forall|j: int| 0 <= j < i ==> tx_id(txs[j]) == Ok::<Digest, ProtocolError>((#[trigger] ids@[j])@),
            first_encoding_error(txs.subrange(0, i as int)) is None,
        decreases transactions@.len() - i,
    {
        proof {
            let next = txs.subrange(0, i + 1);
            assert(next.drop_last() =~= txs.subrange(0, i as int));
            assert(next.last() == txs[i as int]);
        }
        match transaction_id(&transactions[i]) {
            Ok(id) => {
                ids.push(id);
            },
            Err(e) => {
                proof {
                    lemma_first_error(txs, i + 1);
                }
                return Err(e);
            },
        }
        i += 1;
    }
    proof {
        assert(txs.subrange(0, i as int) =~= txs);
        assert(id_values(ids@) =~= tx_ids(txs)) by {
            assert forall|j: int| 0 <= j < ids@.len() implies id_values(ids@)[j] == tx_ids(txs)[j] by {
                assert(tx_id(txs[j]) == Ok::<Digest, ProtocolError>(ids@[j]@));
            }
        }
    }
    Ok(merkle_root(ids.as_slice()))
}

/// An error in a prefix is the first error of the whole.
pub proof fn lemma_first_error(txs: Seq<TxModel>, n: int)
    requires
        0 <= n <= txs.len(),
        first_encoding_error(txs.subrange(0, n)) is Some,
    ensures
        first_encoding_error(txs) == first_encoding_error(txs.subrange(0, n)),
    decreases txs.len() - n,
{
    if n == txs.len() {
        assert(txs.subrange(0, n) =~= txs);
    } else {
        assert(txs.subrange(0, n + 1).drop_last() =~= txs.subrange(0, n));
        lemma_first_error(txs, n + 1);
    }
}

} // verus!

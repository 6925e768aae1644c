//! Genesis block, one per network.
use vstd::prelude::*;
use crate::block_hash::BLOCK_HASH_VERSION;
use crate::block_hash::block_hash;
use crate::block_hash::hash_of_header;
use crate::bytes::copy_bytes;
use crate::digest::append_bytes;
use crate::digest::blake3_digest;
use crate::error::BlockchainError;
use crate::ids::BlockHash;
use crate::ids::zero_digest;
use crate::ids::zeros;
use crate::merkle::id_values;
use crate::merkle::merkle_root;
use crate::merkle::merkle_root_of;
use crate::txid::TxId;
use crate::types::Block;
use crate::types::BlockHeader;
use crate::types::BlockModel;
use crate::types::Encoded;
use crate::types::HeaderModel;
use crate::types::NetworkId;
use crate::types::NetworkModel;
use crate::types::NetworkParams;

verus! {

/// Timestamp of the genesis block.
pub const GENESIS_TIMESTAMP: u64 = 0;

/// Canonical name of the main network: `scone-mainnet`.
pub const MAINNET_ID: [u8; 13] = [115, 99, 111, 110, 101, 45, 109, 97, 105, 110, 110, 101, 116];

/// Canonical name of the test network: `scone-testnet`.
pub const TESTNET_ID: [u8; 13] = [115, 99, 111, 110, 101, 45, 116, 101, 115, 116, 110, 101, 116];

/// Canonical name of a network.
pub open spec fn network_name(id: NetworkId) -> Seq<u8> {
    match id {
        NetworkId::Mainnet => MAINNET_ID@,
        NetworkId::Testnet => TESTNET_ID@,
    }
}

/// The genesis block of a network: protocol version, height 0, no parent,
/// no transaction, timestamp 0, and the network's name as consensus payload.
pub open spec fn genesis_model(p: NetworkModel) -> BlockModel {
    BlockModel {
        header: HeaderModel {
            version: p.protocol.version,
            height: 0,
            prev_hash: zero_digest(),
            tx_root: merkle_root_of(Seq::empty()),
            timestamp: GENESIS_TIMESTAMP,
            consensus: network_name(p.network_id),
            encoding: Ok(p.genesis_encoding),
            signing_encoding: Ok(p.genesis_signing_encoding),
        },
        txs: Seq::empty(),
    }
}

/// Hash of the genesis block of a network.
pub open spec fn genesis_digest(p: NetworkModel) -> BlockHash {
    blake3_digest(BLOCK_HASH_VERSION@ + p.genesis_encoding)
}

impl NetworkId {
    /// Canonical name.
    pub fn as_bytes(&self) -> (name: Vec<u8>)
        ensures
            name@ == network_name(*self),
    {
        let name: [u8; 13] = match self {
            NetworkId::Mainnet => MAINNET_ID,
            NetworkId::Testnet => TESTNET_ID,
        };
        let mut out: Vec<u8> = Vec::new();
        append_bytes(&mut out, name.as_slice());
        assert(out@ =~= network_name(*self));
        out
    }
}

/// The genesis block of a network.
pub fn genesis_of(params: &NetworkParams) -> (block: Block)
    ensures
        block@ == genesis_model(params@),
{
    let none: Vec<TxId> = Vec::new();
    let root = merkle_root(none.as_slice());
    let block = Block {
        header: BlockHeader {
            version: params.protocol.version,
            height: 0,
            prev_hash: zeros(),
            tx_root: root,
            timestamp: GENESIS_TIMESTAMP,
            consensus: params.network_id.as_bytes(),
            encoding: Encoded::Bytes(copy_bytes(&params.genesis_encoding)),
            signing_encoding: Encoded::Bytes(copy_bytes(&params.genesis_signing_encoding)),
        },
        transactions: Vec::new(),
    };
    proof {
        assert(id_values(none@) =~= Seq::empty());
        assert(block@.txs =~= Seq::empty());
    }
    block
}

/// Hash of the genesis block of a network.
pub fn genesis_hash_of(params: &NetworkParams) -> (h: BlockHash)
    ensures
        h == genesis_digest(params@),
        hash_of_header(genesis_model(params@).header) == Ok::<BlockHash, BlockchainError>(h),
{
    let b = genesis_of(params);
    match block_hash(&b.header) {
        Ok(h) => h,
        Err(_) => {
            assert(false);
            zeros()
        },
    }
}

/// The genesis blocks of two networks differ, in their consensus payload.
pub proof fn law_networks_have_disjoint_genesis(a: NetworkModel, b: NetworkModel)
    requires
        a.network_id != b.network_id,
    ensures
        genesis_model(a).header.consensus != genesis_model(b).header.consensus,
        genesis_model(a) != genesis_model(b),
{
    assert(MAINNET_ID@[6] == 109);
    assert(TESTNET_ID@[6] == 116);
}

} // verus!

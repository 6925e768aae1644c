//! Block identity.
use vstd::prelude::*;
use crate::digest::append_bytes;
use crate::digest::blake3_digest;
use crate::digest::hash256;
use crate::error::BlockchainError;
use crate::ids::BlockHash;
use crate::types::BlockHeader;
use crate::types::Encoded;
use crate::types::HeaderModel;
use crate::types::ProtocolError;

verus! {

/// Domain-separation prefix of block hashes: `SCONE-BLOCK-V1`.
pub const BLOCK_HASH_VERSION: [u8; 14] = [83, 67, 79, 78, 69, 45, 66, 76, 79, 67, 75, 45, 86, 49];

/// Hash of an encoded header.
pub open spec fn header_digest(encoding: Result<Seq<u8>, ProtocolError>) -> Result<BlockHash, ProtocolError> {
    match encoding {
        Ok(b) => Ok(blake3_digest(BLOCK_HASH_VERSION@ + b)),
        Err(e) => Err(e),
    }
}

/// Hash of a block, from its header: the prefix and the canonical encoding.
pub open spec fn hash_of_header(h: HeaderModel) -> Result<BlockHash, BlockchainError> {
    match header_digest(h.encoding) {
        Ok(d) => Ok(d),
        Err(e) => Err(BlockchainError::Protocol(e)),
    }
}

/// Hashes an encoded header.
pub fn encoded_header_hash(encoding: &Encoded) -> (r: Result<BlockHash, ProtocolError>)
    ensures
        r == header_digest(encoding@),
{
    match encoding {
        Encoded::Bytes(b) => {
            let tag: [u8; 14] = BLOCK_HASH_VERSION;
            let mut buf: Vec<u8> = Vec::new();
            append_bytes(&mut buf, tag.as_slice());
            append_bytes(&mut buf, b.as_slice());
            assert(buf@ =~= BLOCK_HASH_VERSION@ + b@);
            Ok(hash256(&buf))
        },
        Encoded::Failed(e) => Err(*e),
    }
}

/// Hash of a block. The transactions enter through the header's root.
pub fn block_hash(header: &BlockHeader) -> (r: Result<BlockHash, BlockchainError>)
    ensures
        r == hash_of_header(header@),
{
    match encoded_header_hash(&header.encoding) {
        Ok(h) => Ok(h),
        Err(e) => Err(BlockchainError::Protocol(e)),
    }
}

} // verus!

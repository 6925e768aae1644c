//! Transaction identity.
use vstd::prelude::*;
use crate::digest::append_bytes;
use crate::digest::blake3_digest;
use crate::digest::hash256;
use crate::error::BlockchainError;
use crate::ids::Digest;
use crate::types::Encoded;
use crate::types::ProtocolError;
use crate::types::Transaction;
use crate::types::TxModel;

verus! {

/// Domain-separation prefix of transaction ids: `SCONE-TX-V1`.
pub const TX_ID_VERSION: [u8; 11] = [83, 67, 79, 78, 69, 45, 84, 88, 45, 86, 49];

/// Identifier of a transaction, by content.
#[derive(Clone, Copy, Debug, PartialEq, Eq, PartialOrd, Ord, Hash)]
pub struct TxId([u8; 32]);

impl View for TxId {
    type V = Digest;

    closed spec fn view(&self) -> Digest {
        self.0
    }
}

impl TxId {
    /// Raw bytes.
    pub fn as_bytes(&self) -> (bytes: &[u8; 32])
        ensures
            *bytes == self@,
    {
        &self.0
    }

    /// Wraps raw bytes.
    pub fn from_bytes(bytes: [u8; 32]) -> (id: TxId)
        ensures
            id@ == bytes,
    {
        TxId(bytes)
    }
}

impl From<[u8; 32]> for TxId {
    fn from(bytes: [u8; 32]) -> (id: TxId)
        ensures
            id@ == bytes,
    {
        TxId(bytes)
    }
}

impl vstd::std_specs::convert::FromSpecImpl<[u8; 32]> for TxId {
    open spec fn obeys_from_spec() -> bool {
        true
    }

    closed spec fn from_spec(bytes: [u8; 32]) -> TxId {
        TxId(bytes)
    }
}

/// An id is its bytes: the conversion from bytes gives the id of those
/// bytes, and two ids of the same bytes are one.
pub proof fn law_id_is_its_bytes(bytes: [u8; 32], a: TxId, b: TxId)
    ensures
        <TxId as vstd::std_specs::convert::FromSpec<[u8; 32]>>::from_spec(bytes)@ == bytes,
        a@ == b@ ==> a == b,
{
}

/// The id of a transaction: the hash of the prefix and its canonical
/// encoding.
pub open spec fn tx_id(tx: TxModel) -> Result<Digest, ProtocolError> {
    match tx.encoding {
        Ok(b) => Ok(blake3_digest(TX_ID_VERSION@ + b)),
        Err(e) => Err(e),
    }
}

/// Computes the id of a transaction.
pub fn transaction_id(tx: &Transaction) -> (id: Result<TxId, BlockchainError>)
    ensures
        match tx_id(tx@) {
            Ok(d) => id matches Ok(i) && i@ == d,
            Err(e) => id == Err::<TxId, BlockchainError>(BlockchainError::Protocol(e)),
        },
{
    match &tx.checks.encoding {
        Encoded::Bytes(b) => {
            let tag: [u8; 11] = TX_ID_VERSION;
            let mut buf: Vec<u8> = Vec::new();
            append_bytes(&mut buf, tag.as_slice());
            append_bytes(&mut buf, b.as_slice());
            assert(buf@ =~= TX_ID_VERSION@ + b@);
            Ok(TxId(hash256(&buf)))
        },
        Encoded::Failed(e) => Err(BlockchainError::Protocol(*e)),
    }
}

} // verus!

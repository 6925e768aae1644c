//! Cryptographic validation of transactions.
use vstd::prelude::*;
use crate::crypto::ed25519_verifies;
use crate::crypto::verify_strict;
use crate::error::BlockchainError;
use crate::ids::same_id;
use crate::types::Encoded;
use crate::types::Transaction;
use crate::types::TxModel;

verus! {

/// What is wrong with a signed transaction, if anything: owner binding,
/// core invariants, encoding, signature, in this order.
pub open spec fn signature_fault(tx: TxModel) -> Option<BlockchainError> {
    if tx.owner != tx.key_owner {
        Some(BlockchainError::OwnerKeyMismatch)
    } else if tx.violation is Some {
        Some(BlockchainError::Core(tx.violation->0))
    } else {
        match tx.signing_payload {
            Err(e) => Some(BlockchainError::Protocol(e)),
            Ok(payload) => if ed25519_verifies(tx.public_key@, payload, tx.signature@) {
                None
            } else {
                Some(BlockchainError::InvalidSignature)
            },
        }
    }
}

/// Full validation of a signed transaction: the owner is the one of the
/// key, the core invariants hold, and the signature verifies strictly over
/// the canonical payload.
pub fn validate_transaction(tx: &Transaction) -> (r: Result<(), BlockchainError>)
    ensures
        match signature_fault(tx@) {
            Some(e) => r == Err::<(), BlockchainError>(e),
            None => r is Ok,
        },
{
    if !same_id(&tx.owner, &tx.checks.key_owner) {
        return Err(BlockchainError::OwnerKeyMismatch);
    }
    match tx.checks.violation {
        Some(e) => {
            return Err(BlockchainError::Core(e));
        },
        None => {},
    }
    match &tx.checks.signing_payload {
        Encoded::Failed(e) => Err(BlockchainError::Protocol(*e)),
        Encoded::Bytes(payload) => {
            if verify_strict(&tx.public_key, payload.as_slice(), &tx.signature) {
                Ok(())
            } else {
                Err(BlockchainError::InvalidSignature)
            }
        },
    }
}

} // verus!

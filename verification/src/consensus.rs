//! Consensus hooks of the chain validation.
use vstd::prelude::*;
use crate::error::BlockchainError;
use crate::types::BlockHeader;
use crate::types::HeaderModel;
use crate::types::Transaction;
use crate::types::TxModel;

verus! {

/// Consensus validation hooks. A verdict is a function of the hook and of
/// what it is asked about.
pub trait Consensus: Sized {
    /// Verdict on a header.
    spec fn header_fault(&self, header: HeaderModel) -> Option<BlockchainError>;

    /// Verdict on a transaction.
    spec fn tx_hook_fault(&self, tx: TxModel) -> Option<BlockchainError>;

    /// Validates the consensus fields of a header.
    fn validate_header(&self, header: &BlockHeader) -> (r: Result<(), BlockchainError>)
        ensures
            match self.header_fault(header@) {
                Some(e) => r == Err::<(), BlockchainError>(e),
                None => r is Ok,
            },
    ;

    /// Validates the consensus aspects of a transaction.
    fn validate_tx(&self, tx: &Transaction) -> (r: Result<(), BlockchainError>)
        ensures
            match self.tx_hook_fault(tx@) {
                Some(e) => r == Err::<(), BlockchainError>(e),
                None => r is Ok,
            },
    ;
}

/// Consensus that accepts everything.
#[derive(Clone, Copy, Debug)]
pub struct PermissiveConsensus;

impl Consensus for PermissiveConsensus {
    open spec fn header_fault(&self, header: HeaderModel) -> Option<BlockchainError> {
        None
    }

    open spec fn tx_hook_fault(&self, tx: TxModel) -> Option<BlockchainError> {
        None
    }

    fn validate_header(&self, header: &BlockHeader) -> (r: Result<(), BlockchainError>) {
        Ok(())
    }

    fn validate_tx(&self, tx: &Transaction) -> (r: Result<(), BlockchainError>) {
        Ok(())
    }
}

} // verus!

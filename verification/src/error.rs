//! Why the chain refuses something.
use vstd::prelude::*;
use vstd::string::*;
use crate::text::decimal;
use crate::text::decimal_text;
use crate::text::joined;
use crate::types::CoreError;
use crate::types::NetworkId;
use crate::types::ProtocolError;

verus! {

/// What is wrong with a block's producer payload.
#[derive(Clone, Copy, Debug, PartialEq, Eq, Structural)]
pub enum ProducerFault {
    /// The consensus payload is not a signed producer payload.
    NotAPayload,
    /// The header has no canonical encoding.
    NotEncodable,
    /// The signature does not verify over the block's signing hash.
    BadSignature,
    /// The producer is not in the allowed set.
    NotAllowed,
}

/// Why a checkpoint is refused.
#[derive(Clone, Copy, Debug, PartialEq, Eq, Structural)]
pub enum CheckpointFault {
    /// It references a block that is not in our chain.
    NotInOurChain,
    /// The first checkpoint must chain the genesis.
    FirstMustChainGenesis,
    /// The epoch must advance by exactly one.
    EpochNotNext,
    /// It does not chain our last finalized checkpoint.
    DoesNotChain,
    /// The height must advance.
    HeightNotAdvancing,
    /// The recovery counter is beyond the protocol limit.
    RecoveryBeyondLimit,
    /// The recovery delay, in consensus time, is not reached.
    RecoveryTooEarly,
    /// The committee is below the floor: finality is deferred.
    CommitteeBelowFloor,
    /// Too few committee signatures.
    QuorumNotMet { need: usize },
    /// The state root is not ours.
    StateRootMismatch,
}

/// A rejection by consensus.
#[derive(Debug, PartialEq, Eq)]
pub enum ConsensusFault {
    /// A consensus hook refused, with its reason.
    Rule(String),
    /// A checkpoint rule.
    Checkpoint(CheckpointFault),
    /// A branch whose blocks do not chain.
    BranchDoesNotChain,
    /// A branch that would undo a finalized block.
    ContradictsFinalized,
}

/// Why the signer guard withheld a signature.
#[derive(Clone, Copy, Debug, PartialEq, Eq, Structural)]
pub enum SignerFault {
    /// The stored state cannot be read: nothing is signed.
    Sealed,
    /// The key already signed an epoch with which the new one conflicts.
    Conflict { signed_epoch: u64, signed_height: u64, epoch: u64 },
    /// The new context could not be stored.
    NotPersisted,
    /// A stored record has another length or tag.
    BadRecord,
    /// The key of a stored record does not decode.
    BadKey,
}

/// Why the chain refuses a block, a transaction or a checkpoint.
#[derive(Debug, PartialEq, Eq)]
pub enum BlockchainError {
    /// The parent was never seen.
    UnknownParent,
    /// The parent is known but is not the canonical tip.
    ParentNotTip,
    /// The height is not the parent's plus one.
    InvalidHeight { expected: u64, got: u64 },
    /// The header version is not the local one.
    InvalidVersion(u32),
    /// The recomputed transaction root is not the header's.
    MerkleMismatch,
    /// More transactions than a block may hold.
    TooManyTransactions(usize),
    /// A transaction was already included within the replay window.
    TxReplay,
    /// The block at this height left memory.
    BlockPruned { height: u64 },
    /// The block's producer payload is not acceptable.
    InvalidProducer(ProducerFault),
    /// The domain is registered, or frozen for its previous owner.
    DomainAlreadyRegistered,
    /// The namespace is registered.
    TldAlreadyRegistered,
    /// The namespace belongs to the legacy root zone.
    IcannTldReserved(String),
    /// The namespace is not registered.
    UnknownTld,
    /// The domain is not registered.
    UnknownDomain,
    /// The signer does not own the domain.
    NotOwner,
    /// The update sequence is not the next one.
    InvalidSequence { expected: u64, got: u64 },
    /// The transaction is built for another network.
    WrongNetwork { tx: NetworkId, chain: NetworkId },
    /// The namespace takes no self-registration.
    TldClosed,
    /// The signer does not own the namespace.
    NotTldOwner,
    /// The renewal does not extend the registration.
    RenewalNotExtending { current: u64, proposed: u64 },
    /// The renewal goes beyond the horizon.
    RenewalExceedsTerm { max: u64, proposed: u64 },
    /// The slashed key is not in the eligibility pool.
    SlashOffenderNotInPool,
    /// A consensus rule refused.
    Consensus(ConsensusFault),
    /// The owner is not the one of the public key.
    OwnerKeyMismatch,
    /// The signature does not verify.
    InvalidSignature,
    /// A core invariant is violated.
    Core(CoreError),
    /// The canonical encoding failed.
    Protocol(ProtocolError),
    /// The signer guard refused.
    Signer(SignerFault),
}

/// Text of what is wrong with a producer payload.
pub open spec fn producer_text(f: ProducerFault) -> Seq<char> {
    match f {
        ProducerFault::NotAPayload => "consensus payload is not a signed producer payload"@,
        ProducerFault::NotEncodable => "header is not encodable"@,
        ProducerFault::BadSignature => "producer signature does not verify over the block hash"@,
        ProducerFault::NotAllowed => "producer is not in the allowed set (not an anchor, not an owner of a live domain)"@,
    }
}

/// Text of a checkpoint refusal.
pub open spec fn checkpoint_text(f: CheckpointFault) -> Seq<char> {
    match f {
        CheckpointFault::NotInOurChain => "invalid checkpoint: checkpoint references a block not in our chain"@,
        CheckpointFault::FirstMustChainGenesis => "invalid checkpoint: first checkpoint must chain genesis"@,
        CheckpointFault::EpochNotNext => "invalid checkpoint: checkpoint epoch must advance by exactly one"@,
        CheckpointFault::DoesNotChain => "invalid checkpoint: checkpoint does not chain our last finalized"@,
        CheckpointFault::HeightNotAdvancing => "invalid checkpoint: checkpoint height must advance"@,
        CheckpointFault::RecoveryBeyondLimit => "invalid checkpoint: recovery counter beyond protocol limit"@,
        CheckpointFault::RecoveryTooEarly => "invalid checkpoint: recovery delay (consensus time) not reached"@,
        CheckpointFault::CommitteeBelowFloor => "committee below BFT floor: finality deferred"@,
        CheckpointFault::QuorumNotMet { need } => "checkpoint quorum not met (need "@ + decimal(need as nat) + ")"@,
        CheckpointFault::StateRootMismatch => "checkpoint state root mismatch"@,
    }
}

/// Text of a rejection by consensus.
pub open spec fn consensus_text(f: ConsensusFault) -> Seq<char> {
    match f {
        ConsensusFault::Rule(reason) => reason@,
        ConsensusFault::Checkpoint(c) => checkpoint_text(c),
        ConsensusFault::BranchDoesNotChain => "branch does not chain internally"@,
        ConsensusFault::ContradictsFinalized => "branch contradicts a finalized checkpoint"@,
    }
}

/// Text of a withheld signature.
pub open spec fn signer_text(f: SignerFault) -> Seq<char> {
    match f {
        SignerFault::Sealed => "signer state sealed (unreadable) \u{2014} refusing to sign anything"@,
        SignerFault::Conflict { signed_epoch, signed_height, epoch } => "key already signed epoch "@ + decimal(
            signed_epoch as nat,
        ) + " (height "@ + decimal(signed_height as nat)
            + ") \u{2014} refusing conflicting checkpoint of epoch "@ + decimal(epoch as nat)
            + " (double-signing is slashable)"@,
        SignerFault::NotPersisted => "signer state persist failed \u{2014} signature withheld, do not broadcast"@,
        SignerFault::BadRecord => "bad signer record"@,
        SignerFault::BadKey => "bad signer public key"@,
    }
}

impl ProducerFault {
    /// Text of the fault.
    pub fn message(&self) -> (text: String)
        ensures
            text@ == producer_text(*self),
    {
        match self {
            ProducerFault::NotAPayload => String::from_str("consensus payload is not a signed producer payload"),
            ProducerFault::NotEncodable => String::from_str("header is not encodable"),
            ProducerFault::BadSignature => String::from_str(
                "producer signature does not verify over the block hash",
            ),
            ProducerFault::NotAllowed => String::from_str(
                "producer is not in the allowed set (not an anchor, not an owner of a live domain)",
            ),
        }
    }
}

impl CheckpointFault {
    /// Text of the refusal.
    pub fn message(&self) -> (text: String)
        ensures
            text@ == checkpoint_text(*self),
    {
        match self {
            CheckpointFault::NotInOurChain => String::from_str(
                "invalid checkpoint: checkpoint references a block not in our chain",
            ),
            CheckpointFault::FirstMustChainGenesis => String::from_str(
                "invalid checkpoint: first checkpoint must chain genesis",
            ),
            CheckpointFault::EpochNotNext => String::from_str(
                "invalid checkpoint: checkpoint epoch must advance by exactly one",
            ),
            CheckpointFault::DoesNotChain => String::from_str(
                "invalid checkpoint: checkpoint does not chain our last finalized",
            ),
            CheckpointFault::HeightNotAdvancing => String::from_str(
                "invalid checkpoint: checkpoint height must advance",
            ),
            CheckpointFault::RecoveryBeyondLimit => String::from_str(
                "invalid checkpoint: recovery counter beyond protocol limit",
            ),
            CheckpointFault::RecoveryTooEarly => String::from_str(
                "invalid checkpoint: recovery delay (consensus time) not reached",
            ),
            CheckpointFault::CommitteeBelowFloor => String::from_str(
                "committee below BFT floor: finality deferred",
            ),
            CheckpointFault::QuorumNotMet { need } => {
                let number = decimal_text(*need as u64);
                let mut text = joined("checkpoint quorum not met (need ", number.as_str());
                text.append(")");
                text
            },
            CheckpointFault::StateRootMismatch => String::from_str("checkpoint state root mismatch"),
        }
    }
}

impl ConsensusFault {
    /// Text of the rejection.
    pub fn message(&self) -> (text: String)
        ensures
            text@ == consensus_text(*self),
    {
        match self {
            ConsensusFault::Rule(reason) => reason.clone(),
            ConsensusFault::Checkpoint(c) => c.message(),
            ConsensusFault::BranchDoesNotChain => String::from_str("branch does not chain internally"),
            ConsensusFault::ContradictsFinalized => String::from_str(
                "branch contradicts a finalized checkpoint",
            ),
        }
    }
}

impl SignerFault {
    /// Text of the refusal.
    pub fn message(&self) -> (text: String)
        ensures
            text@ == signer_text(*self),
    {
        match self {
            SignerFault::Sealed => String::from_str(
                "signer state sealed (unreadable) \u{2014} refusing to sign anything",
            ),
            SignerFault::Conflict { signed_epoch, signed_height, epoch } => {
                let a = decimal_text(*signed_epoch);
                let b = decimal_text(*signed_height);
                let c = decimal_text(*epoch);
                let mut text = joined("key already signed epoch ", a.as_str());
                text.append(" (height ");
                text.append(b.as_str());
                text.append(") \u{2014} refusing conflicting checkpoint of epoch ");
                text.append(c.as_str());
                text.append(" (double-signing is slashable)");
                text
            },
            SignerFault::NotPersisted => String::from_str(
                "signer state persist failed \u{2014} signature withheld, do not broadcast",
            ),
            SignerFault::BadRecord => String::from_str("bad signer record"),
            SignerFault::BadKey => String::from_str("bad signer public key"),
        }
    }
}

} // verus!

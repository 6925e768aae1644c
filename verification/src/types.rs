//! Transactions, headers, blocks and network parameters.
//!
//! A value carries what the wire and core layers computed for it: its
//! canonical encoding and the verdicts on its content. The chain rules take
//! these as they are and never re-derive them.
use vstd::prelude::*;
use crate::bytes::copy_bytes;
use crate::ids::BlockHash;
use crate::ids::Digest;
use crate::ids::DomainId;
use crate::ids::MerkleRoot;
use crate::ids::OwnerId;
use crate::ids::PublicKey;
use crate::ids::RecordHash;
use crate::ids::Signature;
use crate::ids::TldId;
use crate::ids::copy_digests;

verus! {

/// The two networks. Their chains share no block.
#[derive(Clone, Copy, Debug, PartialEq, Eq, Structural)]
pub enum NetworkId {
    Mainnet,
    Testnet,
}

/// A violated rule of the core layer, by its number there.
#[derive(Clone, Copy, Debug, PartialEq, Eq, Structural)]
pub struct CoreError {
    pub code: u32,
}

/// A failed canonical encoding, by the wire layer's number for the cause.
#[derive(Clone, Copy, Debug, PartialEq, Eq, Structural)]
pub struct ProtocolError {
    pub code: u32,
}

/// Outcome of a canonical encoding.
#[derive(Debug, PartialEq, Eq)]
pub enum Encoded {
    Bytes(Vec<u8>),
    Failed(ProtocolError),
}

impl View for Encoded {
    type V = Result<Seq<u8>, ProtocolError>;

    open spec fn view(&self) -> Result<Seq<u8>, ProtocolError> {
        match self {
            Encoded::Bytes(b) => Ok(b@),
            Encoded::Failed(e) => Err(*e),
        }
    }
}

impl Clone for Encoded {
    fn clone(&self) -> (copy: Encoded)
        ensures
            copy@ == self@,
    {
        match self {
            Encoded::Bytes(b) => Encoded::Bytes(copy_bytes(b)),
            Encoded::Failed(e) => Encoded::Failed(*e),
        }
    }
}

/// What a transaction asks for.
#[derive(Debug, PartialEq, Eq)]
pub enum TxBody {
    /// Claim of a free domain under an open namespace.
    RegisterDomain { name: String, domain_id: DomainId, parent: TldId },
    /// New record set of a domain.
    UpdateDomain { domain_id: DomainId, sequence: u64, record_hash: RecordHash },
    /// Claim of a free namespace.
    RegisterTld { name: String, tld_id: TldId },
    /// Hand-over of a namespace.
    TransferTld { tld_id: TldId, new_owner: OwnerId },
    /// Release of a namespace.
    RevokeTld { tld_id: TldId },
    /// Opening or closing of a namespace for self-registration.
    SetTldOpen { tld_id: TldId, open: bool },
    /// Assignment of a free domain by the owner of its namespace.
    AssignDomain { name: String, domain_id: DomainId, parent: TldId, assignee: OwnerId },
    /// Longer registration of a domain.
    RenewDomain { domain_id: DomainId, valid_until: u64 },
    /// Proof that a key signed two checkpoints of one epoch.
    Slash { offender: PublicKey },
}

impl Clone for TxBody {
    fn clone(&self) -> (copy: TxBody)
        ensures
            copy == *self,
    {
        match self {
            TxBody::RegisterDomain { name, domain_id, parent } => TxBody::RegisterDomain {
                name: name.clone(),
                domain_id: *domain_id,
                parent: *parent,
            },
            TxBody::UpdateDomain { domain_id, sequence, record_hash } => TxBody::UpdateDomain {
                domain_id: *domain_id,
                sequence: *sequence,
                record_hash: *record_hash,
            },
            TxBody::RegisterTld { name, tld_id } => TxBody::RegisterTld {
                name: name.clone(),
                tld_id: *tld_id,
            },
            TxBody::TransferTld { tld_id, new_owner } => TxBody::TransferTld {
                tld_id: *tld_id,
                new_owner: *new_owner,
            },
            TxBody::RevokeTld { tld_id } => TxBody::RevokeTld { tld_id: *tld_id },
            TxBody::SetTldOpen { tld_id, open } => TxBody::SetTldOpen { tld_id: *tld_id, open: *open },
            TxBody::AssignDomain { name, domain_id, parent, assignee } => TxBody::AssignDomain {
                name: name.clone(),
                domain_id: *domain_id,
                parent: *parent,
                assignee: *assignee,
            },
            TxBody::RenewDomain { domain_id, valid_until } => TxBody::RenewDomain {
                domain_id: *domain_id,
                valid_until: *valid_until,
            },
            TxBody::Slash { offender } => TxBody::Slash { offender: *offender },
        }
    }
}

/// What the wire and core layers computed for a transaction.
#[derive(Debug, PartialEq, Eq)]
pub struct TxChecks {
    /// Canonical encoding of the whole transaction.
    pub encoding: Encoded,
    /// Canonical signing payload: the transaction without its signature.
    pub signing_payload: Encoded,
    /// Core invariant that the transaction violates, slashing evidence included.
    pub violation: Option<CoreError>,
    /// Owner identity derived from the public key.
    pub key_owner: OwnerId,
    /// What is wrong with the registration proof of work over the name that
    /// `ChainState::pow_name` gives, on the network and at the difficulty that
    /// `pow_task` gives.
    pub pow_fault: Option<CoreError>,
    /// Whether the claimed namespace belongs to the legacy root zone.
    pub reserved_tld: bool,
}

/// A signed transaction.
#[derive(Debug, PartialEq, Eq)]
pub struct Transaction {
    pub network: NetworkId,
    pub owner: OwnerId,
    pub public_key: PublicKey,
    pub signature: Signature,
    pub body: TxBody,
    pub checks: TxChecks,
}

/// A transaction as a value.
#[verifier::ext_equal]
pub struct TxModel {
    pub network: NetworkId,
    pub owner: OwnerId,
    pub public_key: PublicKey,
    pub signature: Signature,
    pub body: TxBody,
    pub encoding: Result<Seq<u8>, ProtocolError>,
    pub signing_payload: Result<Seq<u8>, ProtocolError>,
    pub violation: Option<CoreError>,
    pub key_owner: OwnerId,
    pub pow_fault: Option<CoreError>,
    pub reserved_tld: bool,
}

impl View for Transaction {
    type V = TxModel;

    open spec fn view(&self) -> TxModel {
        TxModel {
            network: self.network,
            owner: self.owner,
            public_key: self.public_key,
            signature: self.signature,
            body: self.body,
            encoding: self.checks.encoding@,
            signing_payload: self.checks.signing_payload@,
            violation: self.checks.violation,
            key_owner: self.checks.key_owner,
            pow_fault: self.checks.pow_fault,
            reserved_tld: self.checks.reserved_tld,
        }
    }
}

impl Clone for Transaction {
    fn clone(&self) -> (copy: Transaction)
        ensures
            copy@ == self@,
    {
        Transaction {
            network: self.network,
            owner: self.owner,
            public_key: self.public_key,
            signature: self.signature,
            body: self.body.clone(),
            checks: TxChecks {
                encoding: self.checks.encoding.clone(),
                signing_payload: self.checks.signing_payload.clone(),
                violation: self.checks.violation,
                key_owner: self.checks.key_owner,
                pow_fault: self.checks.pow_fault,
                reserved_tld: self.checks.reserved_tld,
            },
        }
    }
}

/// The values of a list of transactions.
pub open spec fn tx_models(txs: Seq<Transaction>) -> Seq<TxModel> {
    txs.map_values(|t: Transaction| t@)
}

/// A copy of a list of transactions.
pub fn copy_txs(txs: &Vec<Transaction>) -> (copy: Vec<Transaction>)
    ensures
        tx_models(copy@) == tx_models(txs@),
        copy@.len() == txs@.len(),
{
    let mut copy: Vec<Transaction> = Vec::new();
    let mut i: usize = 0;
    while i < txs.len()
        invariant
            i <= txs@.len(),
            copy@.len() == i,
            forall|j: int| 0 <= j < i ==> (#[trigger] copy@[j])@ == txs@[j]@,
        decreases txs@.len() - i,
    {
        copy.push(txs[i].clone());
        i += 1;
    }
    assert(tx_models(copy@) =~= tx_models(txs@));
    copy
}

/// A block header. The canonical encodings stand beside the fields: of the
/// header itself, and of the header with its consensus payload emptied.
#[derive(Debug, PartialEq, Eq)]
pub struct BlockHeader {
    pub version: u32,
    pub height: u64,
    pub prev_hash: BlockHash,
    pub tx_root: MerkleRoot,
    pub timestamp: u64,
    pub consensus: Vec<u8>,
    pub encoding: Encoded,
    pub signing_encoding: Encoded,
}

/// A header as a value.
#[verifier::ext_equal]
pub struct HeaderModel {
    pub version: u32,
    pub height: u64,
    pub prev_hash: BlockHash,
    pub tx_root: MerkleRoot,
    pub timestamp: u64,
    pub consensus: Seq<u8>,
    pub encoding: Result<Seq<u8>, ProtocolError>,
    pub signing_encoding: Result<Seq<u8>, ProtocolError>,
}

impl View for BlockHeader {
    type V = HeaderModel;

    open spec fn view(&self) -> HeaderModel {
        HeaderModel {
            version: self.version,
            height: self.height,
            prev_hash: self.prev_hash,
            tx_root: self.tx_root,
            timestamp: self.timestamp,
            consensus: self.consensus@,
            encoding: self.encoding@,
            signing_encoding: self.signing_encoding@,
        }
    }
}

impl Clone for BlockHeader {
    fn clone(&self) -> (copy: BlockHeader)
        ensures
            copy@ == self@,
    {
        BlockHeader {
            version: self.version,
            height: self.height,
            prev_hash: self.prev_hash,
            tx_root: self.tx_root,
            timestamp: self.timestamp,
            consensus: copy_bytes(&self.consensus),
            encoding: self.encoding.clone(),
            signing_encoding: self.signing_encoding.clone(),
        }
    }
}

/// A block: header and ordered transactions.
#[derive(Debug, PartialEq, Eq)]
pub struct Block {
    pub header: BlockHeader,
    pub transactions: Vec<Transaction>,
}

/// A block as a value.
#[verifier::ext_equal]
pub struct BlockModel {
    pub header: HeaderModel,
    pub txs: Seq<TxModel>,
}

impl View for Block {
    type V = BlockModel;

    open spec fn view(&self) -> BlockModel {
        BlockModel { header: self.header@, txs: tx_models(self.transactions@) }
    }
}

impl Clone for Block {
    fn clone(&self) -> (copy: Block)
        ensures
            copy@ == self@,
    {
        Block { header: self.header.clone(), transactions: copy_txs(&self.transactions) }
    }
}

/// The values of a list of blocks.
pub open spec fn block_models(blocks: Seq<Block>) -> Seq<BlockModel> {
    blocks.map_values(|b: Block| b@)
}

/// Finality and production parameters of a network.
#[derive(Clone, Copy, Debug, PartialEq, Eq, Structural)]
pub struct ConsensusParams {
    /// Seats of an elected committee.
    pub committee_size: usize,
    /// Number of recovery draws that can unlock.
    pub recovery_max_epochs: u32,
    /// Consensus seconds per recovery draw.
    pub epoch_secs: u64,
    /// Blocks between two checkpoints.
    pub epoch_min_blocks: u64,
}

/// Limits of the wire format that the chain enforces.
#[derive(Clone, Copy, Debug, PartialEq, Eq, Structural)]
pub struct ProtocolParams {
    /// The one accepted header version.
    pub version: u32,
    /// Transactions per block.
    pub max_txs_per_block: usize,
    /// Bytes of consensus payload per header.
    pub max_consensus_len: usize,
    /// Smallest committee that may finalize.
    pub min_finality_committee: usize,
}

/// Parameters of one network.
#[derive(Debug, PartialEq, Eq)]
pub struct NetworkParams {
    pub network_id: NetworkId,
    /// Proof-of-work difficulty of a namespace claim.
    pub tld_pow_difficulty: u32,
    /// Proof-of-work difficulty of a domain registration.
    pub domain_pow_difficulty: u32,
    pub consensus: ConsensusParams,
    pub protocol: ProtocolParams,
    /// Canonical encoding of the genesis header.
    pub genesis_encoding: Vec<u8>,
    /// Canonical encoding of the genesis header without consensus payload.
    pub genesis_signing_encoding: Vec<u8>,
}

/// Network parameters as a value.
#[verifier::ext_equal]
pub struct NetworkModel {
    pub network_id: NetworkId,
    pub tld_pow_difficulty: u32,
    pub domain_pow_difficulty: u32,
    pub consensus: ConsensusParams,
    pub protocol: ProtocolParams,
    pub genesis_encoding: Seq<u8>,
    pub genesis_signing_encoding: Seq<u8>,
}

impl View for NetworkParams {
    type V = NetworkModel;

    open spec fn view(&self) -> NetworkModel {
        NetworkModel {
            network_id: self.network_id,
            tld_pow_difficulty: self.tld_pow_difficulty,
            domain_pow_difficulty: self.domain_pow_difficulty,
            consensus: self.consensus,
            protocol: self.protocol,
            genesis_encoding: self.genesis_encoding@,
            genesis_signing_encoding: self.genesis_signing_encoding@,
        }
    }
}

impl Clone for NetworkParams {
    fn clone(&self) -> (copy: NetworkParams)
        ensures
            copy@ == self@,
    {
        NetworkParams {
            network_id: self.network_id,
            tld_pow_difficulty: self.tld_pow_difficulty,
            domain_pow_difficulty: self.domain_pow_difficulty,
            consensus: self.consensus,
            protocol: self.protocol,
            genesis_encoding: copy_bytes(&self.genesis_encoding),
            genesis_signing_encoding: copy_bytes(&self.genesis_signing_encoding),
        }
    }
}

/// Content of a checkpoint.
#[derive(Clone, Copy, Debug, PartialEq, Eq)]
pub struct CheckpointData {
    pub epoch: u64,
    pub height: u64,
    pub block_hash: BlockHash,
    pub prev_checkpoint_hash: Digest,
    pub state_root: Digest,
    pub recovery: u32,
}

/// A checkpoint with its signatures. The hash of its content, which its
/// members sign, and its own hash, by which the next one chains, stand
/// beside.
#[derive(Debug, PartialEq, Eq)]
pub struct Checkpoint {
    pub data: CheckpointData,
    pub signing_hash: Digest,
    pub signatures: Vec<(PublicKey, Signature)>,
    pub hash: Digest,
}

/// A checkpoint as a value.
#[verifier::ext_equal]
pub struct CheckpointModel {
    pub data: CheckpointData,
    pub signing_hash: Digest,
    pub signatures: Seq<(PublicKey, Signature)>,
    pub hash: Digest,
}

impl View for Checkpoint {
    type V = CheckpointModel;

    open spec fn view(&self) -> CheckpointModel {
        CheckpointModel {
            data: self.data,
            signing_hash: self.signing_hash,
            signatures: self.signatures@,
            hash: self.hash,
        }
    }
}

impl Clone for Checkpoint {
    fn clone(&self) -> (copy: Checkpoint)
        ensures
            copy@ == self@,
    {
        let mut signatures: Vec<(PublicKey, Signature)> = Vec::new();
        let mut i: usize = 0;
        while i < self.signatures.len()
            invariant
                i <= self.signatures@.len(),
                signatures@ =~= self.signatures@.subrange(0, i as int),
            decreases self.signatures@.len() - i,
        {
            signatures.push(self.signatures[i]);
            i += 1;
        }
        assert(signatures@ =~= self.signatures@);
        Checkpoint { data: self.data, signing_hash: self.signing_hash, signatures, hash: self.hash }
    }
}

/// The values of a list of checkpoints.
pub open spec fn checkpoint_models(cps: Seq<Checkpoint>) -> Seq<CheckpointModel> {
    cps.map_values(|c: Checkpoint| c@)
}

/// A copy of a list of checkpoints.
pub(crate) fn copy_checkpoints(cps: &Vec<Checkpoint>) -> (copy: Vec<Checkpoint>)
    ensures
        checkpoint_models(copy@) == checkpoint_models(cps@),
{
    let mut copy: Vec<Checkpoint> = Vec::new();
    let mut i: usize = 0;
    while i < cps.len()
        invariant
            i <= cps@.len(),
            checkpoint_models(copy@) =~= checkpoint_models(cps@.subrange(0, i as int)),
        decreases cps@.len() - i,
    {
        let ghost before = copy@;
        copy.push(cps[i].clone());
        proof {
            assert(checkpoint_models(copy@) =~= checkpoint_models(before).push(cps@[i as int]@));
            assert(checkpoint_models(cps@.subrange(0, i + 1)) =~= checkpoint_models(
                cps@.subrange(0, i as int),
            ).push(cps@[i as int]@));
        }
        i += 1;
    }
    assert(cps@.subrange(0, i as int) =~= cps@);
    copy
}

/// The frozen finality base: the last finalized checkpoint and the
/// eligibility pool at its block.
#[derive(Debug)]
pub struct FinalizedBase {
    /// The finalized checkpoint.
    pub checkpoint: Checkpoint,
    /// Eligibility pool frozen at the finalized block.
    pub pool: Vec<PublicKey>,
    /// Timestamp of the finalized block.
    pub block_ts: u64,
    /// Seed of the next epoch.
    pub seed: Digest,
}

/// A finality base as a value.
#[verifier::ext_equal]
pub struct BaseModel {
    pub checkpoint: CheckpointModel,
    pub pool: Seq<PublicKey>,
    pub block_ts: u64,
    pub seed: Digest,
}

impl View for FinalizedBase {
    type V = BaseModel;

    open spec fn view(&self) -> BaseModel {
        BaseModel {
            checkpoint: self.checkpoint@,
            pool: self.pool@,
            block_ts: self.block_ts,
            seed: self.seed,
        }
    }
}

impl Clone for FinalizedBase {
    fn clone(&self) -> (copy: FinalizedBase)
        ensures
            copy@ == self@,
    {
        FinalizedBase {
            checkpoint: self.checkpoint.clone(),
            pool: copy_digests(&self.pool),
            block_ts: self.block_ts,
            seed: self.seed,
        }
    }
}

} // verus!

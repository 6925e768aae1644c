//! Block assembly from a queue of transactions.
use vstd::prelude::*;
use crate::block_hash::block_hash;
use crate::block_hash::encoded_header_hash;
use crate::block_hash::header_digest;
use crate::bytes::copy_bytes;
use crate::crypto::SigningKey;
use crate::crypto::ed25519_public;
use crate::crypto::ed25519_signature;
use crate::error::BlockchainError;
use crate::ids::BlockHash;
use crate::ids::MerkleRoot;
use crate::merkle::tx_root;
use crate::merkle::tx_root_of;
use crate::producer::BLOCK_SIGN_TAG;
use crate::producer::encode_producer_payload;
use crate::producer::producer_message;
use crate::producer::sign_block_hash;
use crate::types::Block;
use crate::types::BlockHeader;
use crate::types::BlockModel;
use crate::types::Encoded;
use crate::types::HeaderModel;
use crate::types::ProtocolParams;
use crate::types::Transaction;
use crate::types::TxModel;
use crate::types::tx_models;

verus! {

/// Header fields of a block to be encoded.
#[derive(Debug, PartialEq, Eq)]
pub struct HeaderDraft {
    pub version: u32,
    pub height: u64,
    pub prev_hash: BlockHash,
    pub tx_root: MerkleRoot,
    pub timestamp: u64,
    pub consensus: Vec<u8>,
}

/// Assembles a block on top of a parent.
pub struct BlockBuilder {
    prev_hash: BlockHash,
    height: u64,
    timestamp: u64,
    consensus: Vec<u8>,
    transactions: Vec<Transaction>,
    limits: ProtocolParams,
}

/// A builder as a value.
#[verifier::ext_equal]
pub struct BuilderModel {
    pub prev_hash: BlockHash,
    pub height: u64,
    pub timestamp: u64,
    pub consensus: Seq<u8>,
    pub txs: Seq<TxModel>,
    pub limits: ProtocolParams,
}

/// A count plus one, within the machine's range.
pub open spec fn one_more(n: nat) -> usize {
    if n < usize::MAX {
        (n + 1) as usize
    } else {
        usize::MAX
    }
}

impl View for BlockBuilder {
    type V = BuilderModel;

    closed spec fn view(&self) -> BuilderModel {
        BuilderModel {
            prev_hash: self.prev_hash,
            height: self.height,
            timestamp: self.timestamp,
            consensus: self.consensus@,
            txs: tx_models(self.transactions@),
            limits: self.limits,
        }
    }
}

impl BlockBuilder {
    /// A builder for the block after `parent_height` on top of `prev_hash`.
    pub fn after(parent_height: u64, prev_hash: BlockHash, limits: ProtocolParams) -> (b: Self)
        requires
            parent_height < u64::MAX,
        ensures
            b@ == (BuilderModel {
                prev_hash,
                height: (parent_height + 1) as u64,
                timestamp: 0,
                consensus: Seq::empty(),
                txs: Seq::empty(),
                limits,
            }),
    {
        let b = BlockBuilder {
            prev_hash,
            height: parent_height + 1,
            timestamp: 0,
            consensus: Vec::new(),
            transactions: Vec::new(),
            limits,
        };
        assert(b@.txs =~= Seq::empty());
        b
    }

    /// Sets the timestamp.
    pub fn with_timestamp(self, timestamp: u64) -> (b: Self)
        ensures
            b@ == (BuilderModel { timestamp, ..self@ }),
    {
        let mut b = self;
        b.timestamp = timestamp;
        b
    }

    /// Sets the consensus payload.
    pub fn with_consensus(self, consensus: Vec<u8>) -> (b: Self)
        ensures
            b@ == (BuilderModel { consensus: consensus@, ..self@ }),
    {
        let mut b = self;
        b.consensus = consensus;
        b
    }

    /// Signs the block as its producer. `signing_encoding` is the encoding of
    /// the drafted header with its consensus payload emptied: the payload
    /// becomes the key and its signature over the hash of that.
    pub fn with_producer(self, sk: &SigningKey, signing_encoding: &Encoded) -> (r: Result<Self, BlockchainError>)
        ensures
            match header_digest(signing_encoding@) {
                Err(e) => r is Err && r->Err_0 == BlockchainError::Protocol(e),
                Ok(h) => r is Ok && r->Ok_0@ == (BuilderModel {
                    consensus: BLOCK_SIGN_TAG@ + ed25519_public(sk.seed()) + ed25519_signature(
                        sk.seed(),
                        producer_message(h),
                    ),
                    ..self@
                }),
            },
    {
        match encoded_header_hash(signing_encoding) {
            Err(e) => Err(BlockchainError::Protocol(e)),
            Ok(h) => {
                let signature = sign_block_hash(sk, &h);
                let key = sk.public_key();
                let payload = encode_producer_payload(&key, &signature);
                Ok(self.with_consensus(payload))
            },
        }
    }

    /// Takes a whole list of transactions in place of the queue.
    pub fn with_txs(self, txs: Vec<Transaction>) -> (b: Self)
        ensures
            b@ == (BuilderModel { txs: tx_models(txs@), ..self@ }),
    {
        let mut b = self;
        b.transactions = txs;
        b
    }

    /// Appends a transaction, unless the block is full.
    pub fn push_tx(&mut self, tx: Transaction) -> (r: Result<(), BlockchainError>)
        ensures
            if old(self)@.txs.len() >= old(self)@.limits.max_txs_per_block {
                &&& r == Err::<(), BlockchainError>(
                    BlockchainError::TooManyTransactions(one_more(old(self)@.txs.len())),
                )
                &&& final(self)@ == old(self)@
            } else {
                &&& r is Ok
                &&& final(self)@ == (BuilderModel { txs: old(self)@.txs.push(tx@), ..old(self)@ })
            },
    {
        let n: usize = self.transactions.len();
        if n >= self.limits.max_txs_per_block {
            return Err(BlockchainError::TooManyTransactions(n.saturating_add(1)));
        }
        self.transactions.push(tx);
        assert(self@.txs =~= old(self)@.txs.push(tx@));
        Ok(())
    }

    /// Number of queued transactions.
    pub fn len(&self) -> (n: usize)
        ensures
            n == self@.txs.len(),
    {
        self.transactions.len()
    }

    /// Whether no transaction is queued.
    pub fn is_empty(&self) -> (r: bool)
        ensures
            r == (self@.txs.len() == 0),
    {
        self.transactions.len() == 0
    }

    /// The header of the block, to be encoded: the transaction root is
    /// recomputed over the queue.
    pub fn draft(&self) -> (r: Result<HeaderDraft, BlockchainError>)
        ensures
            match tx_root_of(self@.txs) {
                Err(e) => r == Err::<HeaderDraft, BlockchainError>(e),
                Ok(root) => {
                    &&& r is Ok
                    &&& r->Ok_0.version == self@.limits.version
                    &&& r->Ok_0.height == self@.height
                    &&& r->Ok_0.prev_hash == self@.prev_hash
                    &&& r->Ok_0.tx_root == root
                    &&& r->Ok_0.timestamp == self@.timestamp
                    &&& r->Ok_0.consensus@ == self@.consensus
                },
            },
    {
        match tx_root(&self.transactions) {
            Err(e) => Err(e),
            Ok(tx_root) => Ok(
                HeaderDraft {
                    version: self.limits.version,
                    height: self.height,
                    prev_hash: self.prev_hash,
                    tx_root,
                    timestamp: self.timestamp,
                    consensus: copy_bytes(&self.consensus),
                },
            ),
        }
    }

    /// Assembles the block, given the encodings of the header that `draft`
    /// gave. An encoding that failed is refused.
    pub fn build(self, encoding: Encoded, signing_encoding: Encoded) -> (r: Result<Block, BlockchainError>)
        ensures
            match tx_root_of(self@.txs) {
                Err(e) => r == Err::<Block, BlockchainError>(e),
                Ok(root) => match encoding@ {
                    Err(e) => r == Err::<Block, BlockchainError>(BlockchainError::Protocol(e)),
                    Ok(bytes) => r is Ok && r->Ok_0@ == (BlockModel {
                        header: HeaderModel {
                            version: self@.limits.version,
                            height: self@.height,
                            prev_hash: self@.prev_hash,
                            tx_root: root,
                            timestamp: self@.timestamp,
                            consensus: self@.consensus,
                            encoding: Ok(bytes),
                            signing_encoding: signing_encoding@,
                        },
                        txs: self@.txs,
                    }),
                },
            },
    {
        let root: MerkleRoot = match tx_root(&self.transactions) {
            Err(e) => {
                return Err(e);
            },
            Ok(r) => r,
        };
        let header = BlockHeader {
            version: self.limits.version,
            height: self.height,
            prev_hash: self.prev_hash,
            tx_root: root,
            timestamp: self.timestamp,
            consensus: self.consensus,
            encoding,
            signing_encoding,
        };
        match block_hash(&header) {
            Err(e) => Err(e),
            Ok(_) => Ok(Block { header, transactions: self.transactions }),
        }
    }
}

} // verus!

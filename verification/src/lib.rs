//! Verified core of a name-registry chain: state, state commitment, blocks,
//! finality, fork choice and the deterministic network model around them.

pub mod archive;
pub mod block_hash;
pub mod builder;
pub mod bytes;
pub mod chain;
pub mod chain_laws;
pub mod chain_model;
pub mod commitment_laws;
pub mod consensus;
pub mod crypto;
pub mod digest;
pub mod entry;
pub mod error;
pub mod expiry;
pub mod finality;
pub mod finality_laws;
pub mod fold;
pub mod fork_choice;
pub mod fork_laws;
pub mod fork_model;
pub mod genesis;
pub mod gui;
pub mod idmap;
pub mod ids;
pub mod json;
pub mod merkle;
pub mod net;
pub mod net_laws;
pub mod node;
pub mod node_laws;
pub mod page;
pub mod parking;
pub mod producer;
pub mod push_laws;
pub mod registry_laws;
pub mod rejections;
pub mod relay;
pub mod signer;
pub mod smt;
pub mod smt_model;
pub mod snapshot_verify;
pub mod state;
pub mod state_backend;
pub mod state_laws;
pub mod state_model;
pub mod store_laws;
pub mod text;
pub mod transport;
pub mod txid;
pub mod types;
pub mod validate;
pub mod vote_laws;

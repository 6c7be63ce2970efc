//! The op-DAG keyring: its authority rules, quorum policy, op codec, checkpoints, anchors and verifiers.

pub mod access;
pub mod admission;
pub mod anchor;
pub mod anchor_verifier;
pub mod blob_sync;
pub mod canonical;
pub mod checkpoint;
pub mod codec;
pub mod compact;
pub mod history;
pub mod laws;
pub mod mint;
pub mod op_verifier;
pub mod quorum;
pub mod recovery;
pub mod resolve;
pub mod shown;
pub mod upkeep;


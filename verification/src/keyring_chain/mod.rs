//! The linear keyring: one signed document per revision, each chained onto the one before.

pub mod message;
pub mod wire;
pub mod doc;
pub mod chain;
pub mod keyring;
pub mod blob_sync;
pub mod chain_verifier;
pub mod admission;
pub mod commitment;
pub mod exchange;
pub mod fields;
pub mod laws;

//! The verified core of openom: the family-tree projection, the keyring engines' rules and wire forms, the
//! claim tree's clock and op log, and the sealing rules around them.

pub mod authoring;
pub mod clock;
pub mod digest;
pub mod keyring_api;
pub mod keyring_chain;
pub mod keyring_dag;
pub mod layout;
pub mod order;
pub mod projection;
pub mod protobuf;
pub mod sealer;
pub mod sealing;
pub mod sorted;
pub mod sorting;
pub mod sync;
pub mod tables;
pub mod text;
pub mod tree;

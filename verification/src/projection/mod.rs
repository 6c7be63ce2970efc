//! The read model: people, relationships, families and events, drawn from a set of claims.

pub mod value;
pub mod union_find;
pub mod record;
pub mod collect;
pub mod resolve;
pub mod views;
pub mod events;
pub mod names;
pub mod people;
pub mod families;
pub mod project;
pub mod laws;
pub mod chronicle;
pub mod kinship;
pub mod meaning;
pub mod particulars;
pub mod portrait;
pub mod renderings;

//! Core logic of a small launcher that keeps a registry of game instances.
//!
//! An instance is registered under an identifier derived from its display
//! name; records are persisted as one JSON document per instance. This crate
//! holds the verified logic: identifier derivation, the in-memory registry,
//! the JSON codec for instance records, and the listing rules. The thin shell
//! that touches the filesystem and the terminal lives outside it.

pub mod ident;
pub mod json;
pub mod listing;
pub mod record;
pub mod registry;

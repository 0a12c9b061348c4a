//! A personal directory-frecency tracker: records directory visits in a
//! sorted on-disk store and ranks stored directories against a fuzzy query.
//!
//! This crate is the verified core: the entry model, the binary record
//! codec, the retention/dedup/upsert transaction on the stored sequence,
//! and the ranking of entries against a query. File handling, locking and
//! process plumbing live outside, in the unverified shell.

pub mod cli;
pub mod codec;
pub mod entry;
pub mod error;
pub mod order;
pub mod rank;
pub mod store;

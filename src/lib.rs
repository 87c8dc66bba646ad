//! Incremental IMAP mail archiving: the deduplication ledger, the fetch
//! decisions and the single-flight run coordinator, with their contracts.

pub mod config;
pub mod text;
pub mod sums;
pub mod database;
pub mod fetcher;
pub mod server;

//! A transactional key-value store built from a multi-version in-memory table, a write-ahead
//! log and levels of immutable sorted tables.
pub mod block;
pub mod coding;
pub mod db;
pub mod error;
pub mod key;
pub mod memtable;
pub mod merging_iter;
pub mod options;
pub mod storage;
pub mod table;
pub mod transaction;
pub mod utils;
pub mod version;
pub mod wal;
pub mod workload;

pub use crate::db::Db;
pub use crate::error::Error;
pub use crate::options::DbOptions;
pub use crate::table::BlockTableOptions;
pub use crate::transaction::Transaction;

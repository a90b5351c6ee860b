//! What is logged of transactions.
use crate::transaction::Timestamp;
use crate::wal::log_record::LogRecord;
use vstd::prelude::*;

verus! {

/// A transaction committed.
#[derive(Clone, Copy, Debug)]
pub struct TxnCommitLog {
    pub commit_ts: Timestamp,
    pub min_xip: Timestamp,
}

/// The end of a transaction.
#[derive(Clone, Copy, Debug)]
pub enum TransactionLogRecord {
    Commit(TxnCommitLog),
    Abort,
}

impl TransactionLogRecord {
    /// The log record of a commit.
    pub fn create_transaction_commit_log(commit_ts: Timestamp, min_xip: Timestamp) -> (r: LogRecord)
        ensures
            r == LogRecord::Transaction(
                TransactionLogRecord::Commit(TxnCommitLog { commit_ts, min_xip }),
            ),
    {
        let txn_commit_record = TxnCommitLog { commit_ts, min_xip };
        LogRecord::create_transaction_record(TransactionLogRecord::Commit(txn_commit_record))
    }

    /// The log record of an abort.
    pub fn create_transaction_abort_log() -> (r: LogRecord)
        ensures
            r == LogRecord::Transaction(TransactionLogRecord::Abort),
    {
        LogRecord::create_transaction_record(TransactionLogRecord::Abort)
    }
}

} // verus!

//! What is logged of the log itself.
use crate::table::TableFileSet;
use crate::transaction::Timestamp;
use crate::wal::log_record::LogRecord;
use crate::wal::segment::LogPointer;
use vstd::prelude::*;

verus! {

/// The state of the store that a recovery starts from.
pub struct CheckpointLog {
    pub min_xip: Timestamp,
    pub min_recovery_point: LogPointer,
    pub next_file_num: usize,
    pub file_set: TableFileSet,
}

/// A record on the log itself.
pub enum WalLogRecord {
    Checkpoint(CheckpointLog),
}

impl WalLogRecord {
    /// The log record of a checkpoint.
    pub fn create_checkpoint_log(
        min_xip: Timestamp,
        min_recovery_point: LogPointer,
        next_file_num: usize,
        file_set: TableFileSet,
    ) -> (r: LogRecord)
        ensures
            r == LogRecord::Wal(
                WalLogRecord::Checkpoint(
                    CheckpointLog { min_xip, min_recovery_point, next_file_num, file_set },
                ),
            ),
    {
        let checkpoint_record = CheckpointLog {
            min_xip,
            min_recovery_point,
            next_file_num,
            file_set,
        };
        LogRecord::create_wal_record(WalLogRecord::Checkpoint(checkpoint_record))
    }
}

} // verus!

//! What is logged of changes to the memory table.
use crate::wal::log_record::LogRecord;
use vstd::prelude::*;
use vstd::slice::slice_to_vec;

verus! {

/// A key was given a value.
pub struct PutLog {
    pub key: Vec<u8>,
    pub value: Vec<u8>,
}

/// A key was deleted.
pub struct DeleteLog {
    pub key: Vec<u8>,
}

/// A change to the memory table.
pub enum MemTableLogRecord {
    Put(PutLog),
    Delete(DeleteLog),
}

impl MemTableLogRecord {
    /// The log record of a key and its value.
    pub fn create_put_log(key: &[u8], value: &[u8]) -> (r: LogRecord)
        ensures
            r matches LogRecord::MemTable(MemTableLogRecord::Put(p)) && p.key@ == key@ && p.value@
                == value@,
    {
        let put_record = PutLog { key: slice_to_vec(key), value: slice_to_vec(value) };
        LogRecord::create_memtable_record(MemTableLogRecord::Put(put_record))
    }

    /// The log record of a deleted key.
    pub fn create_delete_log(key: &[u8]) -> (r: LogRecord)
        ensures
            r matches LogRecord::MemTable(MemTableLogRecord::Delete(d)) && d.key@ == key@,
    {
        let delete_record = DeleteLog { key: slice_to_vec(key) };
        LogRecord::create_memtable_record(MemTableLogRecord::Delete(delete_record))
    }
}

} // verus!

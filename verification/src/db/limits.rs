//! Tells whether operations are within the limits of what can be numbered, logged and built.
use crate::db;
use crate::db::compact;
use crate::db::flush::Flush;
use crate::db::Db;
use crate::key::KeyOrder;
use crate::table::{TableFileMeta, TableStore};
use crate::transaction;
use crate::transaction::{Timestamp, Transaction, TransactionLogRecord};
use crate::version;
use crate::version::builder;
use crate::version::contents;
use crate::version::Compaction;
use crate::wal::log_record;
use crate::wal::log_record::{encode_record, RecordView};
use vstd::prelude::*;

verus! {

/// The greatest number that is given out.
pub const MAX_TIMESTAMP: u64 = 0x2000_0000_0000_0000;

impl<O: KeyOrder, S: TableStore> Db<O, S> {
    /// Whether the tables of all files can be opened once more.
    pub fn can_read(&self) -> (r: bool)
        requires
            self.wf(),
        ensures
            r == self.can_open_all(),
    {
        let current = self.vset.current();
        let levels = current.levels();
        let ghost all = self@.vset.files();
        let mut count: u128 = self.tables.opened() as u128;
        let size: usize = levels.len();
        let mut l: usize = 0;
        proof {
            assert(all.take(0).len() == 0);
        }
        while l < size
            invariant
                l <= size,
                size == levels@.len(),
                all == crate::table::file_set_view(levels@),
                count == self.tables_opened() + version::file_count(all.take(l as int)),
                count <= u32::MAX + l * usize::MAX,
                self.tables_opened() <= u32::MAX,
            decreases size - l,
        {
            proof {
                assert(all[l as int] == crate::table::level_view(levels@[l as int]@));
                assert(all.take(l + 1).drop_last() =~= all.take(l as int));
                let a = l as int;
                let m = usize::MAX as int;
                assert(a * m + m == (a + 1) * m) by (nonlinear_arith);
                assert((a + 1) * m <= m * m) by (nonlinear_arith)
                    requires
                        a + 1 <= m,
                        m >= 0,
                ;
                assert(m * m <= 0xffff_ffff_ffff_ffff * 0xffff_ffff_ffff_ffff) by (nonlinear_arith)
                    requires
                        0 <= m <= 0xffff_ffff_ffff_ffff,
                ;
            }
            let n: usize = levels[l].len();
            count = count + n as u128;
            l = l + 1;
        }
        proof {
            assert(all.take(size as int) =~= all);
        }
        count < u32::MAX as u128
    }

    /// Whether a transaction can be committed: its number has been given out, there are numbers
    /// left, and the log has room for what it says.
    pub fn can_commit(&self, txn: &Transaction) -> (r: bool)
        requires
            self.wf(),
        ensures
            r == self@.can_commit(*txn),
    {
        let counter = self.txnmgr.next_timestamp();
        if counter >= MAX_TIMESTAMP || txn.start_timestamp().0 >= counter {
            return false;
        }
        if txn.is_readonly() {
            return true;
        }
        let ghost all = self@.txnmgr.commit_records(*txn);
        let staged = txn.staged_log_records();
        let size: usize = staged.len();
        let min_xip = match self.txnmgr.cached_min_xip() {
            Some(min_xip) => min_xip,
            None => Timestamp::default(),
        };
        let last = encode_record(
            txn.start_timestamp(),
            &TransactionLogRecord::create_transaction_commit_log(
                Timestamp::from(counter),
                min_xip,
            ),
        );
        proof {
            assert(all.len() == size + 1);
            assert(all[size as int] == last@);
        }
        if !self.wal.fits_in_segment(last.len()) {
            return false;
        }
        let mut i: usize = 0;
        while i < size
            invariant
                i <= size,
                size == staged@.len(),
                self.wf(),
                all == txn.staged().push(last@),
                all == self@.txnmgr.commit_records(*txn),
                !txn.readonly(),
                transaction::bytes_view(staged@) == txn.staged(),
                forall|j: int|
                    0 <= j < i ==> crate::wal::segment::has_room(
                        self@.wal.segment_size(),
                        0,
                        0,
                        (#[trigger] all[j]).len(),
                    ),
            decreases size - i,
        {
            proof {
                assert(all[i as int] == txn.staged()[i as int]);
                assert(txn.staged()[i as int] == staged@[i as int]@);
            }
            if !self.wal.fits_in_segment(staged[i].len()) {
                return false;
            }
            i = i + 1;
        }
        size < usize::MAX && self.wal.can_go_on(size + 1)
    }

    /// Whether a transaction can be aborted: its number has been given out, and the log has room
    /// for the record of it.
    pub fn can_abort(&self, txn: &Transaction) -> (r: bool)
        requires
            self.wf(),
        ensures
            r == self@.can_abort(*txn),
    {
        let record = encode_record(
            txn.start_timestamp(),
            &TransactionLogRecord::create_transaction_abort_log(),
        );
        txn.start_timestamp().0 < self.txnmgr.next_timestamp() && self.wal.can_append(record.len())
    }

    /// Whether the file of a flush can be added: the sizes of the levels can be told then, and the
    /// log has room for the record of what there is.
    pub fn can_finish_flush(&self, f: &Flush, meta: &TableFileMeta) -> (r: bool)
        requires
            self.wf(),
            builder::bounds_valid::<O>(meta@),
        ensures
            r == self@.can_apply::<O>(contents::flush_edit(f.xip(), meta@), f.recovery_point()),
    {
        let edit = f.edit(meta);
        proof {
            contents::lemma_version_sound::<O>(self@.store.files(), self@.vset.files());
        }
        self.vset.can_log_and_apply::<O>(&self.wal, &edit, f.min_recovery_point())
    }

    /// Whether the files of a compaction can be put in their places: the sizes of the levels can be
    /// told then, and the log has room for the record of what there is.
    pub fn can_finish_compaction(&self, c: &Compaction) -> (r: bool)
        requires
            self.wf(),
            self@.can_finish::<O>(*c),
        ensures
            r == self@.can_apply::<O>(c.changes(), self@.vset.recovery_point()),
    {
        proof {
            contents::lemma_version_sound::<O>(self@.store.files(), self@.vset.files());
            compact::lemma_finish_valid::<O, S>(self@, *c);
        }
        self.vset.can_log_and_apply::<O>(
            &self.wal,
            c.planned(),
            self.vset.min_recovery_point(),
        )
    }

    /// Whether a table for a transaction is being flushed.
    pub fn is_flushing(&self, min_xip: Timestamp) -> (r: bool)
        ensures
            r == db::flush_times(self@.flushing).contains(min_xip),
    {
        let ghost times = db::flush_times(self@.flushing);
        let size: usize = self.imm_set.len();
        let mut i: usize = 0;
        while i < size
            invariant
                i <= size,
                size == self.imm_set@.len(),
                times == db::flush_times(self@.flushing),
                times.len() == size,
                forall|j: int| 0 <= j < i ==> times[j] != min_xip,
            decreases size - i,
        {
            assert(times[i as int] == self.imm_set@[i as int].0);
            if self.imm_set[i].0.0 == min_xip.0 {
                assert(times.contains(times[i as int]));
                return true;
            }
            i = i + 1;
        }
        false
    }
}

} // verus!

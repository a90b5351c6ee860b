//! The store.
//!
//! A store keeps what transactions write in a memory table until it is flushed. Flushing takes what
//! no transaction needs the memory table for into a table of its own, which is written to a file of
//! level 0. Compactions merge the files of a level into those of the next one.
pub mod compact;
pub mod durability;
pub mod flush;
pub mod flushing;
pub mod isolation;
pub mod jobs;
pub mod limits;
pub mod lookup;
pub mod overlap;
pub mod startup;
pub mod writes;

use crate::error::Error;
use crate::key::KeyOrder;
use crate::memtable;
use crate::memtable::{HashMemTable, ImmutableHashTable, ImmutableMemTable, MemTable};
use crate::options::DbOptions;
use crate::storage::RedoView;
use crate::table::block_table;
use crate::table::{TableCache, TableStore};
use crate::transaction::transaction_manager::Reader;
use crate::transaction::{Timestamp, Transaction, TransactionManager, TransactionMode};
use crate::version;
use crate::version::builder;
use crate::version::compaction;
use crate::version::contents;
use crate::version::outputs;
use crate::version::{EditView, Version, VersionSet};
use crate::wal::checkpoint;
use crate::wal::checkpoint::{CheckpointManager, Manifest, ManifestTime};
use crate::wal::log_record;
use crate::wal::log_record::RecordView;
use crate::wal::segment::LogPointer;
use crate::wal::Wal;
use std::marker::PhantomData;
use std::sync::Arc;
use vstd::prelude::*;

verus! {

/// What is to be done in the background.
#[derive(Clone, Copy, Debug, PartialEq, Eq, Structural)]
pub enum Job {
    /// A flush of the memory table.
    Flush,
    /// A compaction.
    Compaction,
}

/// The value that a table that is being flushed holds for a key, if it holds one that is no
/// deletion.
pub open spec fn held(entries: Seq<(Seq<u8>, Option<Seq<u8>>)>, key: Seq<u8>) -> Option<Seq<u8>> {
    if exists|v: Seq<u8>| entries.contains((key, Some(v))) {
        Some(choose|v: Seq<u8>| entries.contains((key, Some(v))))
    } else {
        None
    }
}

/// The value of a key in the last of several tables that has one.
pub open spec fn held_by_last(
    tables: Seq<(Timestamp, Seq<(Seq<u8>, Option<Seq<u8>>)>)>,
    key: Seq<u8>,
) -> Option<Seq<u8>>
    decreases tables.len(),
{
    if tables.len() == 0 {
        None
    } else {
        match held(tables.last().1, key) {
            Some(v) => Some(v),
            None => held_by_last(tables.drop_last(), key),
        }
    }
}

/// A table with keys in order holds one value for a key.
pub proof fn lemma_held<O: KeyOrder>(
    entries: Seq<(Seq<u8>, Option<Seq<u8>>)>,
    key: Seq<u8>,
    v: Option<Seq<u8>>,
)
    requires
        memtable::sorted_keys::<O>(entries),
        entries.contains((key, v)),
    ensures
        held(entries, key) == v,
{
    let i = choose|i: int| 0 <= i < entries.len() && entries[i] == (key, v);
    assert(O::valid(entries[i].0));
    O::irreflexive(key);
    assert forall|w: Seq<u8>| entries.contains((key, Some(w))) implies v == Some(w) by {
        let j = choose|j: int| 0 <= j < entries.len() && entries[j] == (key, Some(w));
        if i != j {
            assert(O::lt(entries[i].0, entries[j].0) || O::lt(entries[j].0, entries[i].0));
        }
    }
    if v is Some {
        assert(entries.contains((key, Some(v.unwrap()))));
    }
}

/// What is known of the tables that are being flushed.
pub open spec fn imm_view(
    tables: Seq<(Timestamp, Arc<ImmutableHashTable>)>,
) -> Seq<(Timestamp, Seq<(Seq<u8>, Option<Seq<u8>>)>)> {
    tables.map_values(|t: (Timestamp, Arc<ImmutableHashTable>)| (t.0, t.1.entries()))
}

/// A store. `O` is the order of the keys, `S` is where the table files lie.
pub struct Db<O, S: TableStore> {
    options: DbOptions,
    txnmgr: TransactionManager,
    wal: Wal,
    ckptmgr: CheckpointManager,
    mem_table: HashMemTable,
    /// The timestamps for which tables are being collected, the oldest first.
    collect_set: Vec<Timestamp>,
    /// The tables that are being flushed, the oldest first.
    imm_set: Vec<(Timestamp, Arc<ImmutableHashTable>)>,
    vset: VersionSet,
    tables: TableCache<S::Reader>,
    store: S,
    last_flush_size: usize,
    flushing_threads: usize,
    running_compactions: usize,
    /// The jobs that are to be started.
    jobs: Vec<Job>,
    order: PhantomData<O>,
}

/// The parts of a store.
pub struct DbView<S> {
    pub options: DbOptions,
    pub txnmgr: TransactionManager,
    pub wal: Wal,
    pub manifest: Manifest,
    /// The versions of each key in the memory table.
    pub memory: Map<Seq<u8>, Seq<RedoView>>,
    /// The timestamps for which tables are being collected, the oldest first.
    pub collecting: Seq<Timestamp>,
    /// The tables that are being flushed, the oldest first.
    pub flushing: Seq<(Timestamp, Seq<(Seq<u8>, Option<Seq<u8>>)>)>,
    pub vset: VersionSet,
    pub store: S,
    pub last_flush_size: nat,
    pub flushing_threads: nat,
    pub running_compactions: nat,
    /// The jobs that are to be started.
    pub jobs: Seq<Job>,
}

impl<O: KeyOrder, S: TableStore> Db<O, S> {
    /// The parts of the store.
    pub closed spec fn view(&self) -> DbView<S> {
        DbView {
            options: self.options,
            txnmgr: self.txnmgr,
            wal: self.wal,
            manifest: self.ckptmgr.current(),
            memory: self.mem_table.contents(),
            collecting: self.collect_set@,
            flushing: imm_view(self.imm_set@),
            vset: self.vset,
            store: self.store,
            last_flush_size: self.last_flush_size as nat,
            flushing_threads: self.flushing_threads as nat,
            running_compactions: self.running_compactions as nat,
            jobs: self.jobs@,
        }
    }
}

/// Whether timestamps come in strictly ascending order, none of them after `limit`, and their
/// numbers are in the first half of the range.
pub open spec fn in_line(times: Seq<Timestamp>, limit: nat) -> bool {
    &&& forall|i: int| 0 <= i < times.len() ==> 0 < (#[trigger] times[i]).0 <= limit && times[i].0
        < 0x2000_0000_0000_0000
    &&& forall|i: int, j: int|
        0 <= i < j < times.len() ==> (#[trigger] times[i]).0 < (#[trigger] times[j]).0
}

/// The timestamps of the tables that are being flushed.
pub open spec fn flush_times(
    flushing: Seq<(Timestamp, Seq<(Seq<u8>, Option<Seq<u8>>)>)>,
) -> Seq<Timestamp> {
    flushing.map_values(|t: (Timestamp, Seq<(Seq<u8>, Option<Seq<u8>>)>)| t.0)
}

/// Whether all keys are valid, in order, and not empty.
pub open spec fn entries_sound<O: KeyOrder>(entries: Seq<(Seq<u8>, Option<Seq<u8>>)>) -> bool {
    &&& memtable::sorted_keys::<O>(entries)
    &&& forall|i: int| 0 <= i < entries.len() ==> (#[trigger] entries[i]).0.len() > 0
}

impl<S: TableStore> DbView<S> {
    /// The value of a key outside the memory table: in the tables that are being flushed, the
    /// youngest first, and then in the table files.
    pub open spec fn stored<O: KeyOrder>(self, key: Seq<u8>) -> Option<Seq<u8>> {
        match held_by_last(self.flushing, key) {
            Some(v) => Some(v),
            None => version::value_from_level::<O>(self.store.files(), self.vset.files(), 0, key),
        }
    }

    /// The value of a key that a reader gets.
    pub open spec fn read<O: KeyOrder>(self, r: Reader, key: Seq<u8>) -> Option<Seq<u8>> {
        match memtable::seen_value(self.chain(key), r) {
            Some(v) => Some(v),
            None => self.stored::<O>(key),
        }
    }

    /// The value of a key that a transaction reads.
    pub open spec fn visible<O: KeyOrder>(self, txn: Transaction, key: Seq<u8>) -> Option<Seq<u8>> {
        self.read::<O>(self.txnmgr.reader(txn), key)
    }

    /// Whether the current version can be read and compacted: its files are sound, its last level
    /// is not to be compacted, and the sizes of its levels can be told.
    pub open spec fn version_ok<O: KeyOrder>(self) -> bool {
        &&& self.vset.opened_with() == self.options
        &&& self.options.num_levels > 0
        &&& self.vset.files().len() == self.options.num_levels
        &&& self.vset.version().scores().len() == self.vset.files().len()
        &&& !self.vset.version().scores().last().due()
        &&& compaction::sizes_fit(self.vset.files(), self.options)
        &&& contents::version_sound::<O>(self.store.files(), self.vset.files())
        &&& outputs::numbers_free(self.store.files(), self.vset.next_file())
    }

    /// Whether the tables that are being collected and flushed stand in the order of their age,
    /// none of them younger than the oldest transaction in progress.
    pub open spec fn flushes_ok<O: KeyOrder>(self) -> bool {
        &&& in_line(self.collecting, self.txnmgr.oldest())
        &&& in_line(flush_times(self.flushing), self.txnmgr.oldest())
        &&& forall|i: int, j: int|
            0 <= i < self.flushing.len() && 0 <= j < self.collecting.len() ==> (
            #[trigger] self.flushing[i]).0.0 <= (#[trigger] self.collecting[j]).0
        &&& forall|i: int|
            0 <= i < self.flushing.len() ==> entries_sound::<O>((#[trigger] self.flushing[i]).1)
    }

    /// Whether the keys in the memory table are valid and not empty.
    pub open spec fn memory_ok<O: KeyOrder>(self) -> bool {
        &&& forall|k: Seq<u8>| #[trigger]
            self.memory.contains_key(k) ==> O::valid(k) && k.len() > 0
        &&& self.memory.dom().finite()
        &&& self.memory.dom().len() <= usize::MAX
        &&& self.last_flush_size <= self.memory.dom().len()
    }

    /// What every operation keeps.
    pub open spec fn wf<O: KeyOrder>(self) -> bool {
        &&& self.txnmgr.wf()
        &&& self.wal.wf()
        &&& self.wal.tail().usable()
        &&& self.wal.segment_size() % 0x10000 == 0
        &&& self.version_ok::<O>()
        &&& self.flushes_ok::<O>()
        &&& self.memory_ok::<O>()
    }

    /// Whether so much was written since the last flush that another one is due.
    pub open spec fn flush_due(self) -> bool {
        self.memory.dom().len() - self.last_flush_size > self.options.write_buffer_size
    }

    /// The store after a flush was scheduled, if one is due and not too many are running.
    pub open spec fn flush_scheduled(self) -> DbView<S> {
        if !self.flush_due() {
            self
        } else if self.flushing_threads >= self.options.max_background_flushes {
            DbView { last_flush_size: self.memory.dom().len(), ..self }
        } else {
            DbView {
                last_flush_size: self.memory.dom().len(),
                flushing_threads: self.flushing_threads + 1,
                jobs: self.jobs.push(Job::Flush),
                ..self
            }
        }
    }

    /// The store after a compaction was scheduled, if not too many are running.
    pub open spec fn compaction_scheduled(self) -> DbView<S> {
        if self.running_compactions >= self.options.max_background_compactions {
            self
        } else {
            DbView {
                running_compactions: self.running_compactions + 1,
                jobs: self.jobs.push(Job::Compaction),
                ..self
            }
        }
    }

    /// Whether this state comes from another one by applying an edit, after what there is then was
    /// logged and noted in the manifest.
    pub open spec fn applied_from<O: KeyOrder>(
        self,
        before: DbView<S>,
        edit: EditView,
        min_recovery_point: LogPointer,
        now: ManifestTime,
    ) -> bool {
        &&& self.vset.files() == builder::edited::<O>(before.vset.files(), edit)
        &&& self.vset.version().scores() == Seq::new(
            self.vset.files().len(),
            |level: int| compaction::level_score(self.vset.files(), before.options, level),
        )
        &&& self.vset.opened_with() == before.vset.opened_with()
        &&& self.vset.next_file() == before.vset.next_file()
        &&& self.vset.flushed_xip() == before.vset.new_xip(edit)
        &&& self.vset.recovery_point() == min_recovery_point
        &&& self.manifest == (Manifest {
            db_state: before.manifest.db_state,
            last_checkpoint_pos: self.manifest.last_checkpoint_pos,
            prev_checkpoint_pos: before.manifest.last_checkpoint_pos,
            min_xip: before.vset.new_xip(edit),
            time: now,
        })
        &&& self.wal.logged_from(
            before.wal,
            log_record::full_encoding(
                Timestamp(0),
                before.vset.checkpoint_record::<O>(edit, min_recovery_point),
            ),
            self.manifest.last_checkpoint_pos as nat,
        )
    }

    /// Whether an edit can be applied: it fits, and so does the log record of what there is then.
    pub open spec fn can_apply<O: KeyOrder>(
        self,
        edit: EditView,
        min_recovery_point: LogPointer,
    ) -> bool {
        &&& compaction::sizes_fit(builder::edited::<O>(self.vset.files(), edit), self.options)
        &&& self.wal.fits(
            log_record::full_encoding(
                Timestamp(0),
                self.vset.checkpoint_record::<O>(edit, min_recovery_point),
            ).len(),
        )
    }

    /// The store with another chain of versions of a key.
    pub open spec fn with_chain(self, key: Seq<u8>, chain: Seq<RedoView>) -> DbView<S> {
        DbView { memory: self.memory.insert(key, chain), ..self }
    }

    /// Whether another state comes from this one by giving a key what a function makes of a value.
    pub open spec fn updated_to<F: Fn(&Vec<u8>) -> Vec<u8>>(
        self,
        after: DbView<S>,
        before_txn: Transaction,
        after_txn: Transaction,
        key: Seq<u8>,
        seen: Seq<u8>,
        f: F,
    ) -> bool {
        exists|arg: Vec<u8>, value: Vec<u8>|
            {
                &&& #[trigger] call_ensures(f, (&arg,), value)
                &&& arg@ == seen
                &&& after == self.with_chain(
                    key,
                    self.chain(key).push(
                        memtable::new_version(before_txn.own(), Some(value@)),
                    ),
                )
                &&& after_txn.wrote(before_txn, self.txnmgr, key, RecordView::Put(key, value@))
            }
    }

    /// Whether a transaction can be committed: its number has been given out, there are numbers
    /// left, and the log has room for what it says.
    pub open spec fn can_commit(self, txn: Transaction) -> bool {
        &&& self.txnmgr.counter() < 0x2000_0000_0000_0000
        &&& txn.start().0 < self.txnmgr.counter()
        &&& !txn.readonly() ==> self.wal.fits_all(self.txnmgr.commit_records(txn))
    }

    /// Whether this state comes from another one by committing a transaction: its versions get the
    /// next number, and what it says is in the log. One that wrote nothing changes neither.
    pub open spec fn committed_from(self, before: DbView<S>, txn: Transaction) -> bool {
        &&& self == (DbView {
            txnmgr: self.txnmgr,
            wal: self.wal,
            memory: if txn.readonly() {
                before.memory
            } else {
                memtable::stamped_all(
                    before.memory,
                    txn.written(),
                    txn.own(),
                    Timestamp(before.txnmgr.counter() as u64),
                )
            },
            ..before
        })
        &&& self.txnmgr.committed_from(before.txnmgr, txn)
        &&& if txn.readonly() {
            self.wal == before.wal
        } else {
            exists|mid: Wal| #[trigger]
                mid.appended_all(before.wal, before.txnmgr.commit_records(txn))
                    && self.wal.flushed_from(mid)
        }
    }

    /// Whether a transaction can be aborted: its number has been given out, and the log has room
    /// for the record of it.
    pub open spec fn can_abort(self, txn: Transaction) -> bool {
        &&& txn.start().0 < self.txnmgr.counter()
        &&& self.wal.fits(log_record::full_encoding(txn.start(), RecordView::Abort).len())
    }

    /// Whether this state comes from another one by aborting a transaction: its versions are gone,
    /// and the log says so.
    pub open spec fn aborted_from(self, before: DbView<S>, txn: Transaction) -> bool {
        &&& self == (DbView {
            txnmgr: self.txnmgr,
            wal: self.wal,
            memory: memtable::rolled_back_all(before.memory, txn.written(), txn.own()),
            ..before
        })
        &&& self.txnmgr.aborted_from(before.txnmgr, txn)
        &&& exists|pos: nat| #[trigger]
            self.wal.logged_from(
                before.wal,
                log_record::full_encoding(txn.start(), RecordView::Abort),
                pos,
            )
    }

    /// The chain of versions of a key.
    pub open spec fn chain(self, key: Seq<u8>) -> Seq<RedoView> {
        memtable::chain_of(self.memory, key)
    }
}

impl<O: KeyOrder, S: TableStore> Db<O, S> {
    /// What every operation keeps.
    pub closed spec fn wf(self) -> bool {
        &&& self@.wf::<O>()
        &&& self.mem_table.slots_ok()
        &&& self.tables.ok(self.store.files(), self.store.reliable())
    }

    /// What is known of a store from outside.
    pub proof fn lemma_wf(self)
        requires
            self.wf(),
        ensures
            self@.wf::<O>(),
    {
    }

    /// The number of tables that were opened so far.
    pub closed spec fn tables_opened(self) -> nat {
        self.tables.next_id() as nat
    }

    /// Whether the tables of all files can be opened once more.
    pub open spec fn can_open_all(self) -> bool {
        self.tables_opened() + version::file_count(self@.vset.files()) < u32::MAX
    }

    /// The value of a key outside the memory table.
    fn get_from_storage(&mut self, key: &[u8]) -> (r: Result<Option<Vec<u8>>, Error>)
        requires
            old(self).wf(),
            old(self).can_open_all(),
            O::valid(key@),
        ensures
            final(self).wf(),
            final(self)@ == old(self)@,
            old(self).tables_opened() <= final(self).tables_opened() <= old(self).tables_opened()
                + version::file_count(old(self)@.vset.files()),
            match r {
                Ok(v) => {
                    &&& key@.len() == 0 ==> v is None
                    &&& key@.len() > 0 ==> block_table::value_bytes(v) == old(self)@.stored::<O>(key@)
                },
                Err(_) => !old(self)@.store.reliable(),
            },
    {
        let ghost flushing = self@.flushing;
        let mut n: usize = self.imm_set.len();
        proof {
            assert(flushing.take(n as int) =~= flushing);
        }
        while n > 0
            invariant
                n <= self.imm_set@.len(),
                *self == *old(self),
                self.wf(),
                O::valid(key@),
                flushing == self@.flushing,
                held_by_last(flushing, key@) == held_by_last(flushing.take(n as int), key@),
            decreases n,
        {
            let imt = &self.imm_set[n - 1].1;
            proof {
                let i = n - 1;
                assert(flushing[i].1 == self.imm_set@[i].1.entries());
                assert(entries_sound::<O>(flushing[i].1));
                assert(flushing.take(n as int).last() == flushing[i]);
                assert(flushing.take(n as int).drop_last() =~= flushing.take(i));
            }
            match imt.get::<O>(key) {
                Ok(Some(value)) => {
                    let value = value.clone();
                    proof {
                        lemma_held::<O>(flushing[n - 1].1, key@, Some(value@));
                    }
                    return Ok(Some(value));
                },
                Ok(None) => {
                    proof {
                        assert(held(flushing[n - 1].1, key@) is None) by {
                            assert forall|v: Seq<u8>| !flushing[n - 1].1.contains(
                                (key@, Some(v)),
                            ) by {}
                        }
                    }
                },
                Err(e) => {
                    return Err(e);
                },
            }
            n = n - 1;
        }
        let current = self.vset.current();
        proof {
            assert(flushing.take(0).len() == 0);
            contents::lemma_version_sound::<O>(self@.store.files(), self@.vset.files());
        }
        current.get::<O, S>(&mut self.tables, &self.store, key)
    }

    /// The value of a key that a transaction reads. An empty key has none.
    pub fn get(&mut self, txn: &mut Transaction, key: &[u8]) -> (r: Result<Option<Vec<u8>>, Error>)
        requires
            old(self).wf(),
            old(self).can_open_all(),
            O::valid(key@),
        ensures
            final(self).wf(),
            final(self)@ == old(self)@,
            old(self).tables_opened() <= final(self).tables_opened() <= old(self).tables_opened()
                + version::file_count(old(self)@.vset.files()),
            final(txn).read_from(*old(txn), old(self)@.txnmgr),
            match r {
                Ok(v) => {
                    &&& key@.len() == 0 ==> v is None
                    &&& key@.len() > 0 ==> block_table::value_bytes(v) == old(self)@.visible::<O>(
                        *old(txn),
                        key@,
                    )
                },
                Err(_) => !old(self)@.store.reliable(),
            },
    {
        match self.mem_table.get(&self.txnmgr, txn, key) {
            Ok(Some(value)) => Ok(Some(value)),
            Ok(None) => self.get_from_storage(key),
            Err(e) => Err(e),
        }
    }

    /// Whether so much was written since the last flush that another one is due.
    fn should_flush(&self) -> (r: bool)
        requires
            self.wf(),
        ensures
            r == self@.flush_due(),
    {
        self.mem_table.size() - self.last_flush_size > self.options.write_buffer_size
    }

    /// Schedules a flush if one is due, unless too many are running.
    pub fn flush_memtable(&mut self)
        requires
            old(self).wf(),
        ensures
            final(self).wf(),
            final(self)@ == old(self)@.flush_scheduled(),
            final(self).tables_opened() == old(self).tables_opened(),
    {
        if !self.should_flush() {
            return;
        }
        self.last_flush_size = self.mem_table.size();
        if self.flushing_threads >= self.options.max_background_flushes {
            return;
        }
        self.flushing_threads = self.flushing_threads + 1;
        self.jobs.push(Job::Flush);
    }

    /// Makes room for what is written next.
    pub fn make_room_for_write(&mut self)
        requires
            old(self).wf(),
        ensures
            final(self).wf(),
            final(self)@ == old(self)@.flush_scheduled(),
            final(self).tables_opened() == old(self).tables_opened(),
    {
        if self.should_flush() {
            self.flush_memtable();
        }
    }

    /// Schedules a compaction, unless too many are running.
    pub fn schedule_compaction(&mut self)
        requires
            old(self).wf(),
        ensures
            final(self).wf(),
            final(self)@ == old(self)@.compaction_scheduled(),
            final(self).tables_opened() == old(self).tables_opened(),
    {
        if self.running_compactions >= self.options.max_background_compactions {
            return;
        }
        self.running_compactions = self.running_compactions + 1;
        self.jobs.push(Job::Compaction);
    }

    /// Takes out the jobs that are to be started.
    pub fn take_jobs(&mut self) -> (r: Vec<Job>)
        requires
            old(self).wf(),
        ensures
            r@ == old(self)@.jobs,
            final(self).wf(),
            final(self)@ == (DbView { jobs: Seq::empty(), ..old(self)@ }),
            final(self).tables_opened() == old(self).tables_opened(),
    {
        let mut jobs: Vec<Job> = Vec::new();
        std::mem::swap(&mut jobs, &mut self.jobs);
        jobs
    }

    /// Gives up a job that could not be started.
    pub fn give_up(&mut self, job: Job)
        requires
            old(self).wf(),
            job is Flush ==> old(self)@.flushing_threads > 0,
            job is Compaction ==> old(self)@.running_compactions > 0,
        ensures
            final(self).wf(),
            final(self).tables_opened() == old(self).tables_opened(),
            final(self)@ == match job {
                Job::Flush => DbView {
                    flushing_threads: (old(self)@.flushing_threads - 1) as nat,
                    ..old(self)@
                },
                Job::Compaction => DbView {
                    running_compactions: (old(self)@.running_compactions - 1) as nat,
                    ..old(self)@
                },
            },
    {
        match job {
            Job::Flush => {
                self.flushing_threads = self.flushing_threads - 1;
            },
            Job::Compaction => {
                self.running_compactions = self.running_compactions - 1;
            },
        }
    }

    /// Whether no flush and no compaction is running.
    pub fn is_idle(&self) -> (r: bool)
        ensures
            r == (self@.flushing_threads == 0 && self@.running_compactions == 0),
    {
        self.flushing_threads == 0 && self.running_compactions == 0
    }

    /// Gives a key a value.
    pub fn put(&mut self, txn: &mut Transaction, key: &[u8], value: Vec<u8>) -> (r: Result<
        bool,
        Error,
    >)
        requires
            old(self).wf(),
            O::valid(key@),
            key@.len() > 0,
            old(self)@.memory.dom().len() < usize::MAX,
        ensures
            final(self).wf(),
            final(self).tables_opened() == old(self).tables_opened(),
            ({
                let before = old(self)@.flush_scheduled();
                let chain = before.chain(key@);
                if memtable::write_conflict(chain, before.txnmgr.reader(*old(txn))) {
                    &&& r matches Err(e) && e.is_aborted("ww-conflict detected in put()"@)
                    &&& final(self)@ == before
                    &&& final(txn).read_from(*old(txn), before.txnmgr)
                } else {
                    &&& r == Ok::<bool, Error>(true)
                    &&& final(self)@ == before.with_chain(
                        key@,
                        chain.push(memtable::new_version(old(txn).own(), Some(value@))),
                    )
                    &&& final(txn).wrote(
                        *old(txn),
                        before.txnmgr,
                        key@,
                        RecordView::Put(key@, value@),
                    )
                }
            }),
    {
        self.make_room_for_write();
        let ghost before = self@;
        let r = self.mem_table.put(&self.txnmgr, &self.wal, txn, key, value);
        proof {
            lemma_memory_grows::<O, S>(before, self@, key@);
        }
        r
    }

    /// Gives a key the value that a function makes of the one that the transaction reads.
    pub fn update<F: Fn(&Vec<u8>) -> Vec<u8>>(
        &mut self,
        txn: &mut Transaction,
        key: &[u8],
        f: &F,
    ) -> (r: Result<bool, Error>)
        requires
            old(self).wf(),
            old(self).can_open_all(),
            O::valid(key@),
            key@.len() > 0,
            old(self)@.memory.dom().len() < usize::MAX,
            forall|v: &Vec<u8>| call_requires(*f, (v,)),
        ensures
            final(self).wf(),
            old(self).tables_opened() <= final(self).tables_opened() <= old(self).tables_opened()
                + version::file_count(old(self)@.vset.files()),
            ({
                let before = old(self)@.flush_scheduled();
                let chain = before.chain(key@);
                let reader = before.txnmgr.reader(*old(txn));
                if memtable::write_conflict(chain, reader) {
                    &&& r matches Err(e) && e.is_aborted("ww-conflict detected in update()"@)
                    &&& final(self)@ == before
                    &&& final(txn).read_from(*old(txn), before.txnmgr)
                } else if chain.len() > 0 && chain.last().value is Some && memtable::seen_value(
                    chain,
                    reader,
                ) is Some {
                    // The memory table has a value.
                    &&& r == Ok::<bool, Error>(true)
                    &&& before.updated_to(
                        final(self)@,
                        *old(txn),
                        *final(txn),
                        key@,
                        memtable::seen_value(chain, reader).unwrap(),
                        *f,
                    )
                } else {
                    // The value is looked for in the storage.
                    match r {
                        Err(_) => {
                            &&& !before.store.reliable()
                            &&& final(self)@ == before
                            &&& final(txn).read_from(*old(txn), before.txnmgr)
                        },
                        Ok(true) => {
                            &&& before.stored::<O>(key@) is Some
                            &&& before.flush_scheduled().updated_to(
                                final(self)@,
                                *old(txn),
                                *final(txn),
                                key@,
                                before.stored::<O>(key@).unwrap(),
                                *f,
                            )
                        },
                        Ok(false) => {
                            &&& before.stored::<O>(key@) is None
                            &&& final(self)@ == before
                            &&& final(txn).read_from(*old(txn), before.txnmgr)
                        },
                    }
                }
            }),
    {
        self.make_room_for_write();
        let ghost before = self@;
        let ghost chain = before.chain(key@);
        let ghost txn0 = *txn;
        let res = self.mem_table.update(&self.txnmgr, &self.wal, txn, key, f);
        match res {
            Ok(true) => {
                proof {
                    let (seen, value) = choose|seen: Vec<u8>, value: Vec<u8>|
                        {
                            &&& #[trigger] call_ensures(*f, (&seen,), value)
                            &&& memtable::seen_value(chain, before.txnmgr.reader(txn0)) == Some(
                                seen@,
                            )
                            &&& self.mem_table.chains() == before.memory.insert(
                                key@,
                                chain.push(memtable::new_version(txn0.own(), Some(value@))),
                            )
                            &&& txn.wrote(
                                txn0,
                                before.txnmgr,
                                key@,
                                RecordView::Put(key@, value@),
                            )
                        };
                    assert(self@.memory == before.memory.insert(
                        key@,
                        chain.push(memtable::new_version(txn0.own(), Some(value@))),
                    ));
                    lemma_memory_grows::<O, S>(before, self@, key@);
                    assert(call_ensures(*f, (&seen,), value));
                    assert(self@ == before.with_chain(
                        key@,
                        chain.push(memtable::new_version(txn0.own(), Some(value@))),
                    ));
                }
                return Ok(true);
            },
            Ok(false) => {},
            Err(e) => {
                return Err(e);
            },
        }
        let new_value = match self.get_from_storage(key) {
            Ok(Some(value)) => {
                let ghost stored = value@;
                let new_value = f(&value);
                proof {
                    assert(call_ensures(*f, (&value,), new_value));
                    assert(before.stored::<O>(key@) == Some(value@));
                }
                new_value
            },
            Ok(None) => {
                return Ok(false);
            },
            Err(e) => {
                return Err(e);
            },
        };
        proof {
            assert(self@ == before);
            assert(before.txnmgr.reader(*txn) == before.txnmgr.reader(txn0));
        }
        self.put(txn, key, new_value)
    }

    /// Deletes a key whose latest version in the memory table is no deletion.
    pub fn delete(&mut self, txn: &mut Transaction, key: &[u8]) -> (r: Result<bool, Error>)
        requires
            old(self).wf(),
            O::valid(key@),
            key@.len() > 0,
        ensures
            final(self).wf(),
            final(self).tables_opened() == old(self).tables_opened(),
            ({
                let chain = old(self)@.chain(key@);
                if memtable::write_conflict(chain, old(self)@.txnmgr.reader(*old(txn))) {
                    &&& r matches Err(e) && e.is_aborted("ww-conflict detected in delete()"@)
                    &&& final(self)@ == old(self)@
                    &&& final(txn).read_from(*old(txn), old(self)@.txnmgr)
                } else if chain.len() == 0 || chain.last().value is None {
                    &&& r == Ok::<bool, Error>(false)
                    &&& final(self)@ == old(self)@
                    &&& final(txn).read_from(*old(txn), old(self)@.txnmgr)
                } else {
                    &&& r == Ok::<bool, Error>(true)
                    &&& final(self)@ == old(self)@.with_chain(
                        key@,
                        chain.push(memtable::new_version(old(txn).own(), None)),
                    )
                    &&& final(txn).wrote(
                        *old(txn),
                        old(self)@.txnmgr,
                        key@,
                        RecordView::Delete(key@),
                    )
                }
            }),
    {
        let ghost before = self@;
        let r = self.mem_table.delete(&self.txnmgr, &self.wal, txn, key);
        proof {
            if self@.memory != before.memory {
                lemma_memory_grows::<O, S>(before, self@, key@);
            }
        }
        r
    }

    /// Starts a transaction.
    fn start(&mut self, mode: TransactionMode) -> (r: Result<Transaction, Error>)
        requires
            old(self).wf(),
            old(self)@.txnmgr.counter() < 0x2000_0000_0000_0000,
        ensures
            final(self).wf(),
            final(self).tables_opened() == old(self).tables_opened(),
            final(self)@ == (DbView { txnmgr: final(self)@.txnmgr, ..old(self)@ }),
            final(self)@.txnmgr.started_from(old(self)@.txnmgr),
            r matches Ok(txn) && txn.fresh(mode, old(self)@.txnmgr.counter()),
    {
        proof {
            self.txnmgr.lemma_oldest();
        }
        self.txnmgr.start_transaction(mode)
    }

    /// Starts a transaction that marks what it writes when it commits.
    pub fn start_transaction(&mut self) -> (r: Result<Transaction, Error>)
        requires
            old(self).wf(),
            old(self)@.txnmgr.counter() < 0x2000_0000_0000_0000,
        ensures
            final(self).wf(),
            final(self).tables_opened() == old(self).tables_opened(),
            final(self)@ == (DbView { txnmgr: final(self)@.txnmgr, ..old(self)@ }),
            final(self)@.txnmgr.started_from(old(self)@.txnmgr),
            r matches Ok(txn) && txn.fresh(TransactionMode::Normal, old(self)@.txnmgr.counter()),
    {
        self.start(TransactionMode::Normal)
    }

    /// Starts a transaction that leaves what it writes marked with its start.
    pub fn start_transaction_fast_commit(&mut self) -> (r: Result<Transaction, Error>)
        requires
            old(self).wf(),
            old(self)@.txnmgr.counter() < 0x2000_0000_0000_0000,
        ensures
            final(self).wf(),
            final(self).tables_opened() == old(self).tables_opened(),
            final(self)@ == (DbView { txnmgr: final(self)@.txnmgr, ..old(self)@ }),
            final(self)@.txnmgr.started_from(old(self)@.txnmgr),
            r matches Ok(txn) && txn.fresh(
                TransactionMode::FastCommit,
                old(self)@.txnmgr.counter(),
            ),
    {
        self.start(TransactionMode::FastCommit)
    }

    /// Commits a transaction.
    pub fn commit_transaction(&mut self, txn: Transaction) -> (r: Result<(), Error>)
        requires
            old(self).wf(),
            old(self)@.can_commit(txn),
        ensures
            r is Ok,
            final(self).wf(),
            final(self).tables_opened() == old(self).tables_opened(),
            final(self)@.committed_from(old(self)@, txn),
    {
        let ghost before = self@;
        let r = self.txnmgr.commit(&mut self.mem_table, &mut self.wal, txn);
        proof {
            self.txnmgr.lemma_oldest_ended(before.txnmgr, txn.start());
            assert(self@.memory.dom() =~= before.memory.dom());
        }
        r
    }

    /// Aborts a transaction.
    pub fn abort_transaction(&mut self, txn: Transaction) -> (r: Result<(), Error>)
        requires
            old(self).wf(),
            old(self)@.can_abort(txn),
        ensures
            r is Ok,
            final(self).wf(),
            final(self).tables_opened() == old(self).tables_opened(),
            final(self)@.aborted_from(old(self)@, txn),
    {
        let ghost before = self@;
        let r = self.txnmgr.abort(&mut self.mem_table, &mut self.wal, txn);
        proof {
            self.txnmgr.lemma_oldest_ended(before.txnmgr, txn.start());
            assert(self@.memory.dom() =~= before.memory.dom());
        }
        r
    }

    /// Ends a transaction after its work is done: commits it where the work succeeded, and aborts it
    /// where it failed. Hands back what the work came to.
    pub fn end_transaction<R>(&mut self, txn: Transaction, work: Result<R, Error>) -> (r: Result<
        R,
        Error,
    >)
        requires
            old(self).wf(),
            work is Ok ==> old(self)@.can_commit(txn),
            work is Err ==> old(self)@.can_abort(txn),
        ensures
            r == work,
            final(self).wf(),
            final(self).tables_opened() == old(self).tables_opened(),
            work is Ok ==> final(self)@.committed_from(old(self)@, txn),
            work is Err ==> final(self)@.aborted_from(old(self)@, txn),
    {
        let ended = match &work {
            Ok(_) => self.commit_transaction(txn),
            Err(_) => self.abort_transaction(txn),
        };
        match ended {
            Ok(_) => work,
            Err(e) => Err(e),
        }
    }

    /// Notes a checkpoint and hands back the bytes of the new manifest.
    pub fn create_checkpoint(
        &mut self,
        min_xip: Timestamp,
        checkpoint: LogPointer,
        now: ManifestTime,
    ) -> (r: Vec<u8>)
        requires
            old(self).wf(),
        ensures
            final(self).wf(),
            final(self).tables_opened() == old(self).tables_opened(),
            final(self)@ == (DbView {
                manifest: Manifest {
                    db_state: old(self)@.manifest.db_state,
                    last_checkpoint_pos: checkpoint,
                    prev_checkpoint_pos: old(self)@.manifest.last_checkpoint_pos,
                    min_xip,
                    time: now,
                },
                ..old(self)@
            }),
            r@ == checkpoint::manifest_bytes(final(self)@.manifest),
    {
        self.ckptmgr.create_checkpoint(min_xip, checkpoint, now)
    }

    /// Gives unused memory back.
    pub fn optimize_space(&mut self)
        requires
            old(self).wf(),
        ensures
            final(self).wf(),
            final(self).tables_opened() == old(self).tables_opened(),
            final(self)@ == old(self)@,
    {
        self.mem_table.optimize_space();
    }

    /// Takes out what is to be written to the log: for each piece the number of a segment and bytes
    /// for the end of its file.
    pub fn take_log_output(&mut self) -> (r: Vec<(u32, Vec<u8>)>)
        requires
            old(self).wf(),
        ensures
            final(self).wf(),
            final(self).tables_opened() == old(self).tables_opened(),
            final(self)@ == (DbView { wal: final(self)@.wal, ..old(self)@ }),
            final(self)@.wal.taken_from(old(self)@.wal, crate::wal::output_view(r@)),
    {
        self.wal.take_output()
    }

    pub fn get_transaction_manager(&self) -> (r: &TransactionManager)
        ensures
            *r == self@.txnmgr,
    {
        &self.txnmgr
    }

    pub fn get_wal(&self) -> (r: &Wal)
        ensures
            *r == self@.wal,
    {
        &self.wal
    }

    /// The versions of the table files.
    pub fn version_set(&self) -> (r: &VersionSet)
        ensures
            *r == self@.vset,
    {
        &self.vset
    }

    /// The current version.
    pub fn current_version(&self) -> (r: Arc<Version>)
        ensures
            *r == self@.vset.version(),
    {
        self.vset.current()
    }

    /// The number of keys in the memory table.
    pub fn memory_size(&self) -> (r: usize)
        requires
            self.wf(),
        ensures
            r == self@.memory.dom().len(),
    {
        self.mem_table.size()
    }
}

/// A chain more or another chain keeps the memory table in order.
proof fn lemma_memory_grows<O: KeyOrder, S: TableStore>(
    before: DbView<S>,
    after: DbView<S>,
    key: Seq<u8>,
)
    requires
        before.memory_ok::<O>(),
        before.memory.dom().len() < usize::MAX || before.memory.contains_key(key),
        O::valid(key),
        key.len() > 0,
        after.last_flush_size == before.last_flush_size,
        after.memory == before.memory || exists|chain: Seq<RedoView>|
            after.memory == #[trigger] before.memory.insert(key, chain),
    ensures
        after.memory_ok::<O>(),
{
    if after.memory != before.memory {
        let chain = choose|chain: Seq<RedoView>|
            after.memory == #[trigger] before.memory.insert(key, chain);
        assert(after.memory.dom() =~= before.memory.dom().insert(key));
        if before.memory.contains_key(key) {
            assert(after.memory.dom() =~= before.memory.dom());
        }
    }
}

} // verus!

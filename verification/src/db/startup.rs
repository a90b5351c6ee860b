//! Opens a store.
use crate::db::{Db, DbView, Job};
use crate::error::Error;
use crate::key::KeyOrder;
use crate::memtable::HashMemTable;
use crate::options::DbOptions;
use crate::storage::RedoView;
use crate::table::{FileMeta, TableCache, TableFileRef, TableStore};
use crate::transaction;
use crate::transaction::{Timestamp, TransactionManager};
use crate::version::compaction;
use crate::version::contents;
use crate::version::outputs;
use crate::version::{CompactionScore, EditView, Version, VersionSet};
use crate::wal::checkpoint;
use crate::wal::checkpoint::{decode_manifest, CheckpointManager, DbState, Manifest, ManifestTime};
use crate::wal::files;
use crate::wal::log_record;
use crate::wal::log_record::RecordView;
use crate::wal::segment;
use crate::wal::segment::LogPointer;
use crate::wal::{Wal, WalOptions};
use std::marker::PhantomData;
use vstd::prelude::*;

verus! {

/// The manifest of a store: that of its file, or a new one where there is no file.
pub open spec fn manifest_read(contents: Option<Seq<u8>>, now: ManifestTime) -> Option<Manifest> {
    match contents {
        Some(c) => checkpoint::manifest_of(c),
        None => Some(checkpoint::initial_manifest(now)),
    }
}

/// The bytes of a file that may be missing.
pub open spec fn file_bytes(file: Option<Vec<u8>>) -> Option<Seq<u8>> {
    match file {
        Some(f) => Some(f@),
        None => None,
    }
}

/// The checkpoint that a store starts from, if there is one.
pub open spec fn start_point(m: Manifest, data: Seq<u8>, capacity: nat) -> Option<RecordView> {
    if m.last_checkpoint_pos == 0 {
        None
    } else {
        Wal::checkpoint_at(m.last_checkpoint_pos, data, capacity)
    }
}

/// Where in the log a recovery from a checkpoint starts.
pub open spec fn recovery_point_of(record: Option<RecordView>) -> nat {
    match record {
        Some(RecordView::Checkpoint(_, point, _, _)) => point as nat,
        _ => 0,
    }
}

/// Where a log goes on whose last segment has the given number and size.
pub open spec fn first_lsn(last_segno: u32, last_size: usize, capacity: usize) -> nat {
    if last_segno == 0 {
        0
    } else {
        ((last_segno - 1) * capacity) as nat + last_size as nat + segment::padding_of(
            last_size as nat,
        )
    }
}

/// Whether the files of a checkpoint are those of a sound version.
pub open spec fn checkpoint_sound<O: KeyOrder>(
    record: Option<RecordView>,
    files: Map<TableFileRef, Seq<u8>>,
    options: DbOptions,
) -> bool {
    match record {
        Some(RecordView::Checkpoint(_, _, next, levels)) => {
            &&& levels.len() == options.num_levels
            &&& compaction::sizes_fit(levels, options)
            &&& contents::version_sound::<O>(files, levels)
            &&& outputs::numbers_free(files, next as nat)
        },
        _ => outputs::numbers_free(files, 2),
    }
}

/// Whether a store can be opened with options: it has levels whose sizes can be told, its tables can
/// be cached, and the log can go on.
pub open spec fn can_open(options: DbOptions, last_segno: u32) -> bool {
    &&& options.num_levels > 0
    &&& forall|l: int| 0 <= l < options.num_levels - 1 ==> #[trigger] options.level_fits(l as nat)
    &&& options.max_open_files > 0
    &&& options.max_open_files / 32 <= crate::utils::cache::MAX_CACHE_CAPACITY
    &&& segment::capacity_fits(options.wal_options.segment_capacity as nat)
    &&& options.wal_options.segment_capacity % 0x10000 == 0
    &&& (last_segno + 1) * options.wal_options.segment_capacity + 0x20000 <= usize::MAX
}

/// The segment of the log that the last checkpoint is in, if there is one.
pub fn checkpoint_segment(manifest: &Option<Vec<u8>>, capacity: usize) -> (r: Result<
    Option<u32>,
    Error,
>)
    requires
        capacity > 0,
    ensures
        match *manifest {
            None => r == Ok::<Option<u32>, Error>(None),
            Some(c) => match checkpoint::manifest_of(c@) {
                None => r matches Err(e) && e is DataCorrupted,
                Some(m) => if m.last_checkpoint_pos == 0 {
                    r == Ok::<Option<u32>, Error>(None)
                } else if m.last_checkpoint_pos as nat / capacity as nat + 1 > u32::MAX {
                    r matches Err(e) && e is DataCorrupted
                } else {
                    r == Ok::<Option<u32>, Error>(
                        Some((m.last_checkpoint_pos as nat / capacity as nat + 1) as u32),
                    )
                },
            },
        },
{
    match manifest {
        None => Ok(None),
        Some(contents) => match decode_manifest(contents.as_slice()) {
            Err(e) => Err(e),
            Ok(m) => {
                if m.last_checkpoint_pos == 0 {
                    Ok(None)
                } else {
                    let number: u64 = m.last_checkpoint_pos / capacity as u64;
                    if number >= u32::MAX as u64 {
                        Err(Error::corrupted("invalid checkpoint position in the manifest"))
                    } else {
                        Ok(Some(number as u32 + 1))
                    }
                }
            },
        },
    }
}

/// The manifests that are written when a store starts: where the log goes on behind the point that a
/// recovery starts from, or the store was not shut down, one that says that it recovers, and then
/// one that says that it is in use.
pub open spec fn start_manifests(
    m: Manifest,
    lsn: nat,
    point: nat,
    now: ManifestTime,
) -> Seq<Seq<u8>> {
    let last = checkpoint::manifest_bytes(
        (Manifest { db_state: DbState::InProduction, time: now, ..m }),
    );
    if lsn > point || m.db_state != DbState::Shutdowned {
        seq![
            checkpoint::manifest_bytes(
                (Manifest { db_state: DbState::InCrashRecovery, time: now, ..m }),
            ),
            last,
        ]
    } else {
        seq![last]
    }
}

/// Where a log goes on that was just opened.
proof fn lemma_first_lsn(wal: Wal, last_segno: u32, last_size: usize, options: WalOptions)
    requires
        wal.wf(),
        wal.opened(last_segno, last_size, options),
    ensures
        wal.tail().log_start() + wal.tail().position() == first_lsn(
            last_segno,
            last_size,
            options.segment_capacity,
        ),
{
    let n = wal.tail().number() as int;
    let c = wal.tail().size() as int;
    assert(0 <= (n - 1) * c) by (nonlinear_arith)
        requires
            n >= 1,
            c >= 0,
    ;
    if last_segno == 0 {
        assert((n - 1) * c == 0) by (nonlinear_arith)
            requires
                n == 1,
        ;
    }
}

/// A store that starts notes that it is in use last of all. Before that it notes that it recovers
/// exactly where it was not shut down or the log goes on behind the point that a recovery starts from.
/// All else that the manifest says stays as it was, and can be read back.
pub proof fn lemma_start_manifests(m: Manifest, lsn: nat, point: nat, now: ManifestTime)
    ensures
        ({
            let written = start_manifests(m, lsn, point, now);
            &&& written.len() == if m.db_state == DbState::Shutdowned && lsn <= point {
                1nat
            } else {
                2
            }
            &&& checkpoint::manifest_of(written[written.len() - 1]) == Some(
                Manifest { db_state: DbState::InProduction, time: now, ..m },
            )
            &&& written.len() == 2 ==> checkpoint::manifest_of(written[0]) == Some(
                Manifest { db_state: DbState::InCrashRecovery, time: now, ..m },
            )
        }),
{
    checkpoint::lemma_manifest_round_trip(
        (Manifest { db_state: DbState::InProduction, time: now, ..m }),
    );
    checkpoint::lemma_manifest_round_trip(
        (Manifest { db_state: DbState::InCrashRecovery, time: now, ..m }),
    );
}

/// A store whose manifest has no checkpoint starts from none, and at the start of the log. Else it
/// starts from the one that stands at that place in its segment, and at the point that this one gives.
pub proof fn lemma_start_point(m: Manifest, data: Seq<u8>, capacity: nat)
    ensures
        m.last_checkpoint_pos == 0 ==> start_point(m, data, capacity) is None,
        start_point(m, data, capacity) is None ==> recovery_point_of(
            start_point(m, data, capacity),
        ) == 0,
        start_point(m, data, capacity) matches Some(record) ==> {
            &&& m.last_checkpoint_pos != 0
            &&& record matches RecordView::Checkpoint(_, point, _, _) && recovery_point_of(
                Some(record),
            ) == point
            &&& segment::read_result(data, m.last_checkpoint_pos as nat % capacity) matches Ok(
                Some((bytes, _)),
            ) && log_record::full_decoding(bytes) matches Some((_, found)) && found == record
        },
{
}

/// A log goes on in its last segment, behind what is there, at the start of a page.
pub proof fn lemma_goes_on(last_segno: u32, last_size: usize, capacity: usize)
    requires
        last_segno > 0,
        capacity % 0x10000 == 0,
    ensures
        first_lsn(last_segno, last_size, capacity) % 0x10000 == 0,
        (last_segno - 1) * capacity + last_size <= first_lsn(last_segno, last_size, capacity)
            < (last_segno - 1) * capacity + last_size + 0x10000,
        first_lsn(0, last_size, capacity) == 0,
{
    let n = last_segno - 1;
    let c = capacity as int;
    let k = c / 0x10000;
    let m = n * k;
    assert(n * c == 0x10000 * m) by (nonlinear_arith)
        requires
            c == 0x10000 * k,
            m == n * k,
    ;
    assert(n * c >= 0) by (nonlinear_arith)
        requires
            n >= 0,
            c >= 0,
    ;
    let rest = last_size as nat + segment::padding_of(last_size as nat);
    assert(rest % 0x10000 == 0);
    assert((0x10000 * m + rest) % 0x10000 == 0);
}

/// What a flush or a compaction wrote is taken up when the store is opened again: the manifest says
/// where in the log the checkpoint stands, and the checkpoint has the files. The files of the log
/// hold all that was appended up to then or later. Left out are a checkpoint at the start of the
/// log, whose place stands for none, and one that was written with one byte left in a page.
pub proof fn lemma_reopened<O: KeyOrder, S: TableStore>(
    before: DbView<S>,
    after: DbView<S>,
    edit: EditView,
    point: LogPointer,
    written: ManifestTime,
    now: ManifestTime,
    later: Wal,
    log: Map<u32, Seq<u8>>,
)
    requires
        before.wf::<O>(),
        after.applied_from::<O>(before, edit, point, written),
        log_record::record_fits(before.vset.checkpoint_record::<O>(edit, point)),
        later.keeps(after.wal),
        later.held_by(log),
        after.manifest.last_checkpoint_pos != 0,
        after.manifest.last_checkpoint_pos % 0x10000 != 0xffff,
    ensures
        manifest_read(Some(checkpoint::manifest_bytes(after.manifest)), now) == Some(
            after.manifest,
        ),
        start_point(
            after.manifest,
            files::file_of(
                log,
                after.manifest.last_checkpoint_pos as nat / before.wal.segment_size() + 1,
            ),
            before.wal.segment_size(),
        ) == Some(
            RecordView::Checkpoint(
                after.vset.flushed_xip(),
                after.vset.recovery_point(),
                after.vset.next_file() as usize,
                after.vset.files(),
            ),
        ),
{
    checkpoint::lemma_manifest_round_trip(after.manifest);
    after.wal.lemma_checkpoint_is_found(
        before.wal,
        Timestamp(0),
        before.vset.checkpoint_record::<O>(edit, point),
        after.manifest.last_checkpoint_pos,
        later,
        log,
    );
}

/// Takes up the last checkpoint and notes that the store is in use. Hands back the manifests that
/// are to be written, one after the other.
fn startup(
    wal: &Wal,
    ckptmgr: &mut CheckpointManager,
    vset: &mut VersionSet,
    data: &[u8],
    now: ManifestTime,
) -> (r: Result<Vec<Vec<u8>>, Error>)
    requires
        wal.wf(),
        old(ckptmgr).current().last_checkpoint_pos as nat / wal.segment_size() + 1 <= u32::MAX,
        start_point(old(ckptmgr).current(), data@, wal.segment_size()) matches Some(
            RecordView::Checkpoint(_, _, _, levels),
        ) ==> compaction::sizes_fit(levels, old(vset).opened_with()),
    ensures
        ({
            let m = old(ckptmgr).current();
            let record = start_point(m, data@, wal.segment_size());
            let lsn = wal.tail().log_start() + wal.tail().position();
            match r {
                Ok(writes) => {
                    &&& m.last_checkpoint_pos == 0 || record is Some
                    &&& lsn >= recovery_point_of(record)
                    &&& final(ckptmgr).current() == (Manifest {
                        db_state: DbState::InProduction,
                        time: now,
                        ..m
                    })
                    &&& transaction::bytes_view(writes@) == start_manifests(
                        m,
                        lsn as nat,
                        recovery_point_of(record),
                        now,
                    )
                    &&& final(vset).opened_with() == old(vset).opened_with()
                    &&& final(vset).level0_busy() == old(vset).level0_busy()
                    &&& match record {
                        Some(RecordView::Checkpoint(min_xip, point, next, levels)) => {
                            &&& final(vset).files() == levels
                            &&& final(vset).version().scores() == Seq::new(
                                levels.len(),
                                |level: int|
                                    compaction::level_score(
                                        levels,
                                        old(vset).opened_with(),
                                        level,
                                    ),
                            )
                            &&& final(vset).next_file() == next
                            &&& final(vset).flushed_xip() == min_xip
                            &&& final(vset).recovery_point() == point
                        },
                        _ => *final(vset) == *old(vset),
                    }
                },
                Err(e) => {
                    ||| Wal::checkpoint_fails(
                        m.last_checkpoint_pos,
                        data@,
                        wal.segment_size(),
                        e,
                    )
                    ||| {
                        &&& lsn < recovery_point_of(record)
                        &&& e.is_corrupted("invalid redo point in checkpoint record"@)
                    }
                },
            }
        }),
{
    let ghost m = ckptmgr.current();
    let last_checkpoint_pos = ckptmgr.manifest().last_checkpoint_pos();
    let ghost record = start_point(m, data@, wal.segment_size());
    let checkpoint_log = match wal.read_checkpoint_record(last_checkpoint_pos, data) {
        Ok(checkpoint_log) => checkpoint_log,
        Err(e) => {
            return Err(e);
        },
    };
    let min_recovery_point: LogPointer = match checkpoint_log {
        Some(checkpoint_log) => {
            let min_recovery_point = checkpoint_log.min_recovery_point;
            vset.recover(checkpoint_log);
            min_recovery_point
        },
        None => 0,
    };
    let current_lsn = wal.current_lsn();
    if current_lsn < min_recovery_point {
        return Err(Error::corrupted("invalid redo point in checkpoint record"));
    }
    let mut writes: Vec<Vec<u8>> = Vec::new();
    let need_recovery = current_lsn > min_recovery_point || ckptmgr.manifest().db_state()
        != DbState::Shutdowned;
    if need_recovery {
        writes.push(ckptmgr.set_db_state(DbState::InCrashRecovery, now));
    }
    writes.push(ckptmgr.set_db_state(DbState::InProduction, now));
    proof {
        let last = checkpoint::manifest_bytes(ckptmgr.current());
        if need_recovery {
            assert(transaction::bytes_view(writes@) =~= seq![
                checkpoint::manifest_bytes(
                    (Manifest { db_state: DbState::InCrashRecovery, time: now, ..m }),
                ),
                last,
            ]);
        } else {
            assert(transaction::bytes_view(writes@) =~= seq![last]);
        }
    }
    Ok(writes)
}

impl<O: KeyOrder, S: TableStore> Db<O, S> {
    /// Opens a store whose table files are given. The log goes on with its last segment, whose
    /// number and size are given; `data` are the bytes of the segment that the last checkpoint is
    /// in. Hands back the manifests that are to be written, one after the other.
    pub fn open(
        options: DbOptions,
        store: S,
        last_segno: u32,
        last_size: usize,
        manifest: Option<Vec<u8>>,
        data: &[u8],
        now: ManifestTime,
    ) -> (r: Result<(Self, Vec<Vec<u8>>), Error>)
        requires
            can_open(options, last_segno),
            manifest_read(file_bytes(manifest), now) matches Some(m) ==> {
                &&& m.last_checkpoint_pos as nat / options.wal_options.segment_capacity as nat + 1
                    <= u32::MAX
                &&& checkpoint_sound::<O>(
                    start_point(m, data@, options.wal_options.segment_capacity as nat),
                    store.files(),
                    options,
                )
            },
        ensures
            ({
                let capacity = options.wal_options.segment_capacity;
                let read = manifest_read(file_bytes(manifest), now);
                let m = read->Some_0;
                let record = start_point(m, data@, capacity as nat);
                match r {
                    Ok((db, writes)) => {
                        &&& db.wf()
                        &&& db.tables_opened() == 1
                        &&& read is Some
                        &&& m.last_checkpoint_pos == 0 || record is Some
                        &&& db@.options == options
                        &&& db@.store == store
                        &&& db@.txnmgr.counter() == 1
                        &&& db@.txnmgr.active() == Seq::<Timestamp>::empty()
                        &&& db@.memory == Map::<Seq<u8>, Seq<RedoView>>::empty()
                        &&& db@.collecting == Seq::<Timestamp>::empty()
                        &&& db@.flushing.len() == 0
                        &&& db@.jobs == Seq::<Job>::empty()
                        &&& db@.flushing_threads == 0
                        &&& db@.running_compactions == 0
                        &&& db@.manifest == (Manifest {
                            db_state: DbState::InProduction,
                            time: now,
                            ..m
                        })
                        &&& db@.wal.opened(last_segno, last_size, options.wal_options)
                        &&& recovery_point_of(record) <= first_lsn(last_segno, last_size, capacity)
                        &&& transaction::bytes_view(writes@) == (if manifest is None {
                            seq![checkpoint::manifest_bytes(m)]
                        } else {
                            Seq::<Seq<u8>>::empty()
                        }) + start_manifests(
                            m,
                            first_lsn(last_segno, last_size, capacity),
                            recovery_point_of(record),
                            now,
                        )
                        &&& match record {
                            Some(RecordView::Checkpoint(min_xip, point, next, levels)) => {
                                &&& db@.vset.files() == levels
                                &&& db@.vset.next_file() == next
                                &&& db@.vset.flushed_xip() == min_xip
                                &&& db@.vset.recovery_point() == point
                            },
                            _ => {
                                &&& db@.vset.files() == Seq::new(
                                    options.num_levels as nat,
                                    |l: int| Seq::<FileMeta>::empty(),
                                )
                                &&& db@.vset.next_file() == 2
                                &&& db@.vset.flushed_xip() == Timestamp(0)
                                &&& db@.vset.recovery_point() == 0
                            },
                        }
                    },
                    Err(e) => {
                        ||| e is InvalidArgument && (capacity <= 7 || (last_segno > 0 && last_size
                            > capacity))
                        ||| e is DataCorrupted && read is None
                        ||| read is Some && Wal::checkpoint_fails(
                            m.last_checkpoint_pos,
                            data@,
                            capacity as nat,
                            e,
                        )
                        ||| {
                            &&& read is Some
                            &&& recovery_point_of(record) > first_lsn(
                                last_segno,
                                last_size,
                                capacity,
                            )
                            &&& e.is_corrupted("invalid redo point in checkpoint record"@)
                        }
                    },
                }
            }),
    {
        let wal = match Wal::open(last_segno, last_size, &options.wal_options) {
            Ok(wal) => wal,
            Err(e) => {
                return Err(e);
            },
        };
        proof {
            lemma_first_lsn(wal, last_segno, last_size, options.wal_options);
        }
        let (mut ckptmgr, first) = match CheckpointManager::open(manifest, now) {
            Ok(opened) => opened,
            Err(e) => {
                return Err(e);
            },
        };
        let mut vset = VersionSet::new(options);
        let mut writes: Vec<Vec<u8>> = Vec::new();
        match first {
            Some(bytes) => {
                writes.push(bytes);
            },
            None => {},
        }
        let mut more = match startup(&wal, &mut ckptmgr, &mut vset, data, now) {
            Ok(more) => more,
            Err(e) => {
                return Err(e);
            },
        };
        let ghost earlier = writes@;
        let ghost later = more@;
        writes.append(&mut more);
        proof {
            assert(transaction::bytes_view(writes@) =~= transaction::bytes_view(earlier)
                + transaction::bytes_view(later));
            if manifest is None {
                assert(transaction::bytes_view(earlier) =~= seq![
                    checkpoint::manifest_bytes(checkpoint::initial_manifest(now)),
                ]);
            } else {
                assert(transaction::bytes_view(earlier) =~= Seq::<Seq<u8>>::empty());
            }
        }
        let db = Db {
            options,
            txnmgr: TransactionManager::new(),
            wal,
            ckptmgr,
            mem_table: HashMemTable::new(),
            collect_set: Vec::new(),
            imm_set: Vec::new(),
            vset,
            tables: TableCache::new(options.table_factory, options.max_open_files),
            store,
            last_flush_size: 0,
            flushing_threads: 0,
            running_compactions: 0,
            jobs: Vec::new(),
            order: PhantomData,
        };
        proof {
            let levels = db@.vset.files();
            let scores = db@.vset.version().scores();
            assert(scores[levels.len() - 1] == (CompactionScore { amount: 0, limit: 1 }));
            assert forall|l: int| 0 <= l < options.num_levels - 1 implies compaction::idle_size(
                #[trigger] levels[l],
            ) <= usize::MAX && options.level_fits(l as nat) by {}
            assert(db@.memory.dom() =~= Set::<Seq<u8>>::empty());
        }
        Ok((db, writes))
    }

    /// Takes up a version whose files are in the store, and the number that the next file gets.
    pub fn set_version(&mut self, version: Version, next_file_num: usize)
        requires
            old(self).wf(),
            version.files().len() == old(self)@.options.num_levels,
            version.scores().len() == version.files().len(),
            !version.scores().last().due(),
            compaction::sizes_fit(version.files(), old(self)@.options),
            contents::version_sound::<O>(old(self)@.store.files(), version.files()),
            outputs::numbers_free(old(self)@.store.files(), next_file_num as nat),
        ensures
            final(self).wf(),
            final(self).tables_opened() == old(self).tables_opened(),
            final(self)@ == (DbView { vset: final(self)@.vset, ..old(self)@ }),
            final(self)@.vset.version() == version,
            final(self)@.vset.next_file() == next_file_num,
            final(self)@.vset.opened_with() == old(self)@.vset.opened_with(),
            final(self)@.vset.flushed_xip() == old(self)@.vset.flushed_xip(),
            final(self)@.vset.recovery_point() == old(self)@.vset.recovery_point(),
            final(self)@.vset.level0_busy() == old(self)@.vset.level0_busy(),
    {
        self.vset.set_next_file_number(next_file_num);
        self.vset.set_current(version);
    }
}

} // verus!

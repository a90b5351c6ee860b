use kagi::db::flush::Flush;
use kagi::db::startup::checkpoint_segment;
use kagi::db::{Db, Job};
use kagi::key::{KeyOrder, StringKey, U32Key};
use kagi::table::block_table::default_table_factory;
use kagi::table::{MemoryTables, TableBuilder, TableFileMeta, TableFileRef, TableStore};
use kagi::transaction::{Timestamp, Transaction};
use kagi::version::{CompactionScore, Version};
use kagi::wal::checkpoint::{decode_manifest, ManifestTime};
use kagi::wal::DbState;
use kagi::{DbOptions, Error};

const NOW: ManifestTime = ManifestTime { secs: 1_600_000_000, nanos: 0 };

type Store<O> = Db<O, MemoryTables>;

fn open<O: KeyOrder>(options: DbOptions, store: MemoryTables) -> Store<O> {
    Db::open(options, store, 0, 0, None, &[], NOW).unwrap().0
}

fn temp_db() -> Store<U32Key> {
    open(DbOptions::default(), MemoryTables::new())
}

fn encode(n: u32) -> Vec<u8> {
    bincode::serialize(&n).unwrap()
}

fn decode(bytes: &[u8]) -> u32 {
    bincode::deserialize(bytes).unwrap()
}

fn put(db: &mut Store<U32Key>, txn: &mut Transaction, key: u32, value: u32) -> Result<bool, Error> {
    db.put(txn, &encode(key), encode(value))
}

fn get(db: &mut Store<U32Key>, txn: &mut Transaction, key: u32) -> Option<u32> {
    db.get(txn, &encode(key)).unwrap().map(|v| decode(&v))
}

/// Runs a flush up to the point where its file is to be added.
fn write_out<O: KeyOrder>(db: &mut Store<O>, flush: &Flush) -> TableFileMeta {
    assert!(db.cleanup(flush));
    db.write_level0_table(flush).unwrap()
}

/// Does what is to be done in the background, and hands back the manifests that were written.
fn run_jobs<O: KeyOrder>(db: &mut Store<O>) -> Vec<Vec<u8>> {
    let mut manifests = Vec::new();
    loop {
        let jobs = db.take_jobs();
        if jobs.is_empty() {
            return manifests;
        }
        for job in jobs {
            match job {
                Job::Flush => {
                    if let Some(flush) = db.collect().unwrap() {
                        let meta = write_out(db, &flush);
                        assert!(db.can_finish_flush(&flush, &meta));
                        manifests.extend(db.finish_flush(&flush, &meta, NOW).unwrap());
                    }
                }
                Job::Compaction => {
                    if let Some(mut c) = db.pick_compaction().unwrap() {
                        db.start_compaction(&mut c).unwrap();
                        assert!(db.can_finish_compaction(&c));
                        manifests.push(db.finish_compaction(&c, NOW).unwrap());
                    }
                }
            }
        }
    }
}

#[test]
fn files_that_the_log_has_no_room_for_are_told() {
    let options = DbOptions::new().write_buffer_size(10);
    let mut db = open::<StringKey>(options, MemoryTables::new());
    let mut txn = db.start_transaction().unwrap();
    for n in 0..20 {
        assert!(db.put(&mut txn, &string(&format!("key{}", n)), b"v".to_vec()).unwrap());
    }
    db.commit_transaction(txn).unwrap();
    db.flush_memtable();
    assert_eq!(db.take_jobs(), vec![Job::Flush]);
    let flush = db.collect().unwrap().unwrap();
    let mut meta = write_out(&mut db, &flush);
    assert!(db.can_finish_flush(&flush, &meta));
    // A bound that makes the checkpoint longer than a segment.
    meta.supremum = string(&"z".repeat(20 << 20));
    assert!(!db.can_finish_flush(&flush, &meta));
}

#[test]
fn db_can_insert() {
    let mut db = temp_db();
    let mut txns = Vec::new();
    for _ in 0..3 {
        txns.push(db.start_transaction().unwrap());
    }

    for (i, txn) in txns.iter_mut().enumerate() {
        let i = i as u32;
        for j in 0..30 {
            assert!(put(&mut db, txn, i * 30 + j, j).is_ok());
        }

        for j in 0..30 {
            // a txn can read its own updates
            assert_eq!(get(&mut db, txn, i * 30 + j), Some(j));
        }
    }

    for txn in txns.iter_mut() {
        let mut count = 0;
        for i in 0..90 {
            if get(&mut db, txn, i).is_some() {
                count += 1;
            }
        }
        // a txn cannot read uncommitted updates by other txns
        assert_eq!(count, 30);
    }

    for txn in txns {
        db.commit_transaction(txn).unwrap();
    }

    let mut txn = db.start_transaction().unwrap();
    for i in 0..90 {
        let val = get(&mut db, &mut txn, i);
        assert!(val.is_some());
        assert_eq!(val, Some(i % 30));
    }
    assert!(db.commit_transaction(txn).is_ok());
    assert!(db.is_idle());
}

#[test]
fn db_can_update() {
    let mut db = temp_db();

    let mut txn = db.start_transaction().unwrap();
    assert!(put(&mut db, &mut txn, 1, 2).unwrap());
    assert!(db.update(&mut txn, &encode(1), &|x: &Vec<u8>| encode(decode(x) + 1)).unwrap());

    assert_eq!(get(&mut db, &mut txn, 1), Some(3));
    assert!(db.commit_transaction(txn).is_ok());
}

#[test]
fn can_flush_memtable() {
    let mut db = open::<U32Key>(DbOptions::new().write_buffer_size(120), MemoryTables::new());

    let mut txn = db.start_transaction().unwrap();
    for i in 0..100 {
        put(&mut db, &mut txn, i, i + 1).unwrap();
    }
    assert!(db.commit_transaction(txn).is_ok());

    db.flush_memtable();
    run_jobs(&mut db);
    assert!(db.is_idle());

    let mut txn = db.start_transaction().unwrap();
    for i in 0..100 {
        assert_eq!(get(&mut db, &mut txn, i), Some(i + 1));
    }
    assert!(db.commit_transaction(txn).is_ok());
}

fn string(s: &str) -> Vec<u8> {
    bincode::serialize(s).unwrap()
}

fn write_table(
    store: &mut MemoryTables,
    contents: &[(&str, &str)],
    min_xip: Timestamp,
    file_num: usize,
) -> TableFileMeta {
    let file_ref = TableFileRef::new(0, file_num);
    let mut builder = default_table_factory().create_table_builder();
    for (key, value) in contents {
        builder.add(&string(key), &string(value)).unwrap();
    }
    builder.finish().unwrap();
    let bytes = builder.take_output();
    let size = bytes.len();
    store.create_table(file_ref, bytes).unwrap();
    TableFileMeta::new(
        file_ref,
        size,
        min_xip,
        string(contents[0].0),
        string(contents[contents.len() - 1].0),
    )
}

fn make_version(store: &mut MemoryTables) -> Version {
    // level 0
    let t3 = write_table(store, &[("caa", "val1"), ("cab", "val2")], Timestamp::from(30), 3);
    let f2 = [("aac", "val4"), ("aax", "val2"), ("aba", "val5"), ("bab", "val4"), ("bba", "val5")];
    let t2 = write_table(store, &f2, Timestamp::from(26), 2);
    let f1 = [("aaa", "val2"), ("aab", "val2"), ("aac", "val3"), ("aba", "val4")];
    let t1 = write_table(store, &f1, Timestamp::from(22), 1);

    // level 1
    let f4 = [("aaa", "val1"), ("cab", "val2"), ("cba", "val3")];
    let t4 = write_table(store, &f4, Timestamp::default(), 4);
    let f5 = [("daa", "val2"), ("dab", "val2"), ("dba", "val3"), ("dbb", "val4")];
    let t5 = write_table(store, &f5, Timestamp::default(), 5);
    let f6 = [("eaa", "val1"), ("eab", "val2"), ("fab", "val3")];
    let t6 = write_table(store, &f6, Timestamp::default(), 6);

    // level 2
    let f7 = [("cab", "val1"), ("daa", "val2"), ("fab", "val3"), ("fba", "val4")];
    let t7 = write_table(store, &f7, Timestamp::default(), 7);
    let f8 = [("gaa", "val1"), ("gab", "val2"), ("gba", "val3"), ("gca", "val4"), ("gda", "val5")];
    let t8 = write_table(store, &f8, Timestamp::default(), 8);

    // level 3
    let t9 = write_table(store, &[("haa", "val1"), ("hba", "val2")], Timestamp::default(), 9);
    let t10 = write_table(store, &[("iaa", "val1"), ("iba", "val2")], Timestamp::default(), 10);

    Version::from_files(vec![
        vec![t3, t2, t1],
        vec![t4, t5, t6],
        vec![t7, t8],
        vec![t9, t10],
        vec![],
        vec![],
    ])
}

fn string_get(db: &mut Store<StringKey>, key: &str) -> Option<String> {
    let mut txn = db.start_transaction().unwrap();
    let val = db.get(&mut txn, &string(key)).unwrap();
    db.commit_transaction(txn).unwrap();
    val.map(|v| bincode::deserialize(&v).unwrap())
}

const ALL_KEYS: [&str; 25] = [
    "aaa", "aab", "aac", "aax", "aba", "bab", "bba", "caa", "cab", "cba", "daa", "dab", "dba",
    "dbb", "eaa", "eab", "fab", "fba", "gaa", "gda", "haa", "hba", "iaa", "iba", "zzz",
];

fn compact_level(level: usize) -> Store<StringKey> {
    let mut store = MemoryTables::new();
    let mut version = make_version(&mut store);
    let mut scores = vec![CompactionScore { amount: 0, limit: 1 }; 6];
    scores[level] = CompactionScore { amount: 2, limit: 1 };
    version.set_compaction_score(scores);
    // The store takes up the files when it is open.
    let mut db = open::<StringKey>(DbOptions::default(), store);
    db.set_version(version, 20);
    let before: Vec<Option<String>> = ALL_KEYS.iter().map(|k| string_get(&mut db, k)).collect();

    db.schedule_compaction();
    run_jobs(&mut db);
    assert!(db.is_idle());

    // No value changes.
    let after: Vec<Option<String>> = ALL_KEYS.iter().map(|k| string_get(&mut db, k)).collect();
    assert_eq!(before, after);
    db
}

#[test]
fn can_do_l0_compaction() {
    let mut db = compact_level(0);
    assert_eq!(string_get(&mut db, "aaa"), Some("val2".to_owned()));
    let version = db.current_version();
    // The two oldest files of level 0 and the first one of level 1 have become one.
    assert_eq!(version.levels()[0].len(), 1);
    assert_eq!(version.levels()[1].len(), 3);
    assert_eq!(version.levels()[1][0].file_ref, TableFileRef::new(0, 20));
    assert_eq!(version.levels()[1][0].supremum, string("cba"));
}

#[test]
fn can_do_l1_compaction() {
    let mut db = compact_level(1);
    assert_eq!(string_get(&mut db, "daa"), Some("val2".to_owned()));
    let version = db.current_version();
    assert_eq!(version.levels()[1].len(), 2);
    assert_eq!(version.levels()[2].len(), 2);
    assert_eq!(version.levels()[2][0].file_ref, TableFileRef::new(0, 20));
}

/// A store with room for few keys in memory.
fn small_db() -> Store<U32Key> {
    let options = DbOptions::new().write_buffer_size(10).level0_file_num_compaction_trigger(3);
    open(options, MemoryTables::new())
}

fn write_all(db: &mut Store<U32Key>, keys: std::ops::Range<u32>, add: u32) {
    let mut txn = db.start_transaction().unwrap();
    for k in keys {
        assert!(put(db, &mut txn, k, k + add).unwrap());
    }
    db.commit_transaction(txn).unwrap();
}

#[test]
fn flushed_and_compacted_values_are_read() {
    let mut db = small_db();
    for round in 0..8u32 {
        write_all(&mut db, round * 7..round * 7 + 20, round);
        db.flush_memtable();
        run_jobs(&mut db);
    }
    assert!(db.is_idle());
    assert!(db.memory_size() < 76);
    let version = db.current_version();
    assert!(version.levels()[1].len() > 0);
    let mut txn = db.start_transaction().unwrap();
    for k in 0..69u32 {
        // The last round that wrote the key.
        let round = if k / 7 > 7 { 7 } else { k / 7 };
        assert_eq!(get(&mut db, &mut txn, k), Some(k + round));
    }
    assert_eq!(get(&mut db, &mut txn, 69), None);
    db.commit_transaction(txn).unwrap();
}

#[test]
fn flushes_wait_for_their_turn() {
    let mut db = small_db();
    write_all(&mut db, 0..11, 0);
    db.flush_memtable();
    assert_eq!(db.take_jobs(), vec![Job::Flush]);
    let first = db.collect().unwrap().unwrap();
    assert_eq!(first.size(), 11);
    write_all(&mut db, 11..22, 1);
    db.flush_memtable();
    assert_eq!(db.take_jobs(), vec![Job::Flush]);
    let second = db.collect().unwrap().unwrap();
    assert!(first.min_xip() < second.min_xip());
    assert_eq!(second.size(), 11);

    // The second table waits until the first one has been collected.
    assert!(!db.cleanup(&second));
    let a = write_out(&mut db, &first);
    assert_eq!(db.memory_size(), 11);
    let b = write_out(&mut db, &second);
    assert_eq!(db.memory_size(), 0);
    // And until the file of the first one is in its place.
    assert!(db.finish_flush(&second, &b, NOW).unwrap().is_none());
    assert!(db.finish_flush(&first, &a, NOW).unwrap().is_some());
    assert!(db.finish_flush(&second, &b, NOW).unwrap().is_some());
    let mut txn = db.start_transaction().unwrap();
    for k in 0..22 {
        assert_eq!(get(&mut db, &mut txn, k), Some(k + k / 11));
    }
    db.commit_transaction(txn).unwrap();
    run_jobs(&mut db);
    assert!(db.is_idle());
}

#[test]
fn flushes_for_the_same_transaction_are_given_up() {
    let mut db = small_db();
    write_all(&mut db, 0..11, 0);
    let blocker = db.start_transaction().unwrap();
    db.flush_memtable();
    let first = db.collect().unwrap().unwrap();
    assert_eq!(first.min_xip(), blocker.start_timestamp());
    write_all(&mut db, 11..22, 0);
    db.flush_memtable();
    assert_eq!(db.take_jobs().len(), 2);
    // A flush for this transaction is being collected.
    assert!(db.collect().unwrap().is_none());
    let meta = write_out(&mut db, &first);
    db.finish_flush(&first, &meta, NOW).unwrap().unwrap();
    db.commit_transaction(blocker).unwrap();
    run_jobs(&mut db);
    assert!(db.is_idle());
    let mut txn = db.start_transaction().unwrap();
    for k in 0..22 {
        assert_eq!(get(&mut db, &mut txn, k), Some(k));
    }
    db.commit_transaction(txn).unwrap();
}

#[test]
fn flushes_without_enough_keys_are_given_up() {
    let mut db = small_db();
    let blocker = db.start_transaction().unwrap();
    write_all(&mut db, 0..20, 0);
    db.flush_memtable();
    // Everything was committed after the oldest transaction in progress started.
    assert_eq!(db.take_jobs(), vec![Job::Flush]);
    assert!(db.collect().unwrap().is_none());
    assert!(db.is_idle());
    assert_eq!(db.memory_size(), 20);
    db.commit_transaction(blocker).unwrap();
}

#[test]
fn no_more_jobs_than_allowed() {
    let options = DbOptions::new()
        .write_buffer_size(1)
        .max_background_flushes(1)
        .max_background_compactions(2);
    let mut db = open::<U32Key>(options, MemoryTables::new());
    write_all(&mut db, 0..10, 0);
    db.flush_memtable();
    db.schedule_compaction();
    db.schedule_compaction();
    db.schedule_compaction();
    let jobs = db.take_jobs();
    assert_eq!(jobs, vec![Job::Flush, Job::Compaction, Job::Compaction]);
    assert!(!db.is_idle());
}

#[test]
fn updates_reach_the_storage() {
    let mut db = small_db();
    write_all(&mut db, 0..20, 0);
    db.flush_memtable();
    run_jobs(&mut db);
    assert_eq!(db.memory_size(), 0);
    let add = |x: &Vec<u8>| encode(decode(x) + 100);
    let mut txn = db.start_transaction().unwrap();
    assert!(db.update(&mut txn, &encode(7), &add).unwrap());
    assert_eq!(get(&mut db, &mut txn, 7), Some(107));
    assert!(!db.update(&mut txn, &encode(77), &add).unwrap());
    // Only what is in memory is deleted.
    assert!(!db.delete(&mut txn, &encode(8)).unwrap());
    assert!(db.delete(&mut txn, &encode(7)).unwrap());
    db.commit_transaction(txn).unwrap();
}

#[test]
fn aborted_writes_are_taken_back() {
    let mut db = temp_db();
    write_all(&mut db, 0..3, 0);
    let mut txn = db.start_transaction().unwrap();
    assert!(put(&mut db, &mut txn, 1, 9).unwrap());
    assert!(db.delete(&mut txn, &encode(2)).unwrap());
    db.abort_transaction(txn).unwrap();
    let mut fast = db.start_transaction_fast_commit().unwrap();
    assert_eq!(get(&mut db, &mut fast, 1), Some(1));
    assert_eq!(get(&mut db, &mut fast, 2), Some(2));
    assert!(put(&mut db, &mut fast, 1, 5).unwrap());
    assert_eq!(get(&mut db, &mut fast, 1), Some(5));
    db.abort_transaction(fast).unwrap();
    let mut txn = db.start_transaction().unwrap();
    assert_eq!(get(&mut db, &mut txn, 1), Some(1));
    db.commit_transaction(txn).unwrap();
}

/// The bytes of the segments that a store has logged.
fn log_segments(db: &mut Store<U32Key>) -> Vec<Vec<u8>> {
    let mut segments: Vec<Vec<u8>> = Vec::new();
    for (segno, bytes) in db.take_log_output() {
        while segments.len() < segno as usize {
            segments.push(Vec::new());
        }
        segments[segno as usize - 1].extend(bytes);
    }
    segments
}

#[test]
fn stores_are_opened_again() {
    let mut db = small_db();
    write_all(&mut db, 0..20, 3);
    db.flush_memtable();
    let manifests = run_jobs(&mut db);
    let manifest = manifests[manifests.len() - 1].clone();
    let m = decode_manifest(&manifest).unwrap();
    assert_eq!(m.db_state(), DbState::InProduction);
    assert!(m.last_checkpoint_pos() > 0);
    let capacity = 16 << 20;
    assert_eq!(checkpoint_segment(&Some(manifest.clone()), capacity).unwrap(), Some(1));
    let segments = log_segments(&mut db);

    // The table files of the first store.
    let mut store = MemoryTables::new();
    let version = db.current_version();
    let file = version.levels()[0][0].file_ref;
    let mut builder = default_table_factory().create_table_builder();
    for k in 0..20u32 {
        builder.add(&encode(k), &encode(k + 3)).unwrap();
    }
    builder.finish().unwrap();
    store.create_table(file, builder.take_output()).unwrap();

    let options = DbOptions::default();
    let (mut again, writes) = Db::<U32Key, MemoryTables>::open(
        options,
        store,
        1,
        segments[0].len(),
        Some(manifest),
        &segments[0],
        NOW,
    )
    .unwrap();
    let states: Vec<DbState> =
        writes.iter().map(|w| decode_manifest(w).unwrap().db_state()).collect();
    assert_eq!(states, vec![DbState::InCrashRecovery, DbState::InProduction]);
    let mut txn = again.start_transaction().unwrap();
    for k in 0..20 {
        assert_eq!(get(&mut again, &mut txn, k), Some(k + 3));
    }
    again.commit_transaction(txn).unwrap();
    assert_eq!(again.current_version().levels()[0][0].file_ref, file);
}

#[test]
fn new_stores_start_in_use() {
    let (db, writes) = Db::<U32Key, MemoryTables>::open(
        DbOptions::default(),
        MemoryTables::new(),
        0,
        0,
        None,
        &[],
        NOW,
    )
    .unwrap();
    let states: Vec<DbState> =
        writes.iter().map(|w| decode_manifest(w).unwrap().db_state()).collect();
    // The first manifest is that of a store that was shut down, with nothing to recover.
    assert_eq!(states, vec![DbState::Shutdowned, DbState::InProduction]);
    assert!(db.is_idle());
    assert_eq!(checkpoint_segment(&None, 16 << 20).unwrap(), None);
}

#[test]
fn damaged_stores_are_refused() {
    let open = |manifest: Vec<u8>, data: &[u8]| {
        let store = MemoryTables::new();
        let options = DbOptions::default();
        Db::<U32Key, MemoryTables>::open(options, store, 1, data.len(), Some(manifest), data, NOW)
            .err()
    };
    assert!(matches!(open(vec![1, 2, 3], &[]), Some(Error::DataCorrupted(_))));
    assert!(matches!(checkpoint_segment(&Some(vec![1, 2, 3]), 1024), Err(Error::DataCorrupted(_))));

    // A manifest that says that there is a checkpoint where there is none.
    let mut db = temp_db();
    let manifest = db.create_checkpoint(Timestamp::from(1), 64, NOW);
    assert!(matches!(
        open(manifest, &[]),
        Some(Error::DataCorrupted(s)) if s == "cannot load the checkpoint log record"
    ));
}

#[test]
fn recovery_points_behind_the_end_are_refused() {
    let mut wal = kagi::wal::Wal::open(0, 0, &kagi::wal::WalOptions::new()).unwrap();
    wal.append(b"first").unwrap();
    let levels = vec![Vec::new(); 6];
    let record = kagi::wal::WalLogRecord::create_checkpoint_log(Timestamp::from(1), 1 << 20, 2, levels);
    let (pos, _) = wal.append_record(Timestamp::default(), &record).unwrap();
    wal.flush(None).unwrap();
    let data = wal.take_output().pop().unwrap().1;
    let mut db = temp_db();
    let manifest = db.create_checkpoint(Timestamp::from(1), pos, NOW);
    let res = Db::<U32Key, MemoryTables>::open(
        DbOptions::default(),
        MemoryTables::new(),
        1,
        data.len(),
        Some(manifest),
        &data,
        NOW,
    );
    assert!(matches!(
        res.err(),
        Some(Error::DataCorrupted(s)) if s == "invalid redo point in checkpoint record"
    ));
}

#[test]
fn memory_and_log_are_told() {
    let mut db = temp_db();
    let before = db.get_wal().current_lsn();
    write_all(&mut db, 0..3, 0);
    assert!(db.get_wal().current_lsn() > before);
    db.optimize_space();
    assert_eq!(db.memory_size(), 3);
    assert_eq!(db.get_transaction_manager().cached_min_xip(), None);
    assert!(log_segments(&mut db)[0].len() > 0);
}

#[test]
fn transactions_end_as_their_work_does() {
    let mut db = temp_db();
    let mut txn = db.start_transaction().unwrap();
    let work = put(&mut db, &mut txn, 1, 2);
    assert!(db.can_commit(&txn));
    assert!(matches!(db.end_transaction(txn, work), Ok(true)));

    let mut txn = db.start_transaction().unwrap();
    assert!(put(&mut db, &mut txn, 1, 5).unwrap());
    assert!(db.can_abort(&txn));
    let work: Result<bool, Error> = Err(Error::InvalidState("gave up".to_owned()));
    assert!(matches!(
        db.end_transaction(txn, work),
        Err(Error::InvalidState(s)) if s == "gave up"
    ));

    let mut txn = db.start_transaction().unwrap();
    assert_eq!(get(&mut db, &mut txn, 1), Some(2));
    db.commit_transaction(txn).unwrap();
}

#[test]
fn limits_are_told() {
    let options = DbOptions::new().write_buffer_size(10).wal_segment_capacity(0x10000);
    let mut db = open::<U32Key>(options, MemoryTables::new());
    assert!(db.can_read());

    // A value that no segment of the log has room for cannot be committed.
    let mut txn = db.start_transaction().unwrap();
    assert!(db.put(&mut txn, &encode(1), vec![7; 0x10000]).unwrap());
    assert!(!db.can_commit(&txn));
    assert!(db.can_abort(&txn));
    db.abort_transaction(txn).unwrap();

    let mut txn = db.start_transaction().unwrap();
    assert!(db.put(&mut txn, &encode(1), vec![7; 0x8000]).unwrap());
    assert!(db.can_commit(&txn));
    db.commit_transaction(txn).unwrap();
    assert!(db.get_wal().fits_in_segment(0x10000));
    assert!(!db.get_wal().fits_in_segment(0x10001));
    assert!(db.get_wal().can_go_on(100));
}

#[test]
fn flushes_are_told_and_fit() {
    let mut db = small_db();
    write_all(&mut db, 0..11, 0);
    db.flush_memtable();
    assert_eq!(db.take_jobs(), vec![Job::Flush]);
    let flush = db.collect().unwrap().unwrap();
    assert!(flush.fits(default_table_factory()));
    assert!(!db.is_flushing(flush.min_xip()));
    assert!(db.cleanup(&flush));
    assert!(db.is_flushing(flush.min_xip()));
    assert!(!db.is_flushing(Timestamp::from(0)));
}

#[test]
fn outputs_are_split_by_size() {
    let options = DbOptions::new()
        .write_buffer_size(10)
        .level0_file_num_compaction_trigger(2)
        .target_file_size_base(400)
        .gc_freeze_min_age(0);
    let mut db = open::<U32Key>(options, MemoryTables::new());
    for round in 0..4u32 {
        write_all(&mut db, 0..100, round);
        db.flush_memtable();
        loop {
            let jobs = db.take_jobs();
            if jobs.is_empty() {
                break;
            }
            for job in jobs {
                match job {
                    Job::Flush => {
                        if let Some(flush) = db.collect().unwrap() {
                            let meta = write_out(&mut db, &flush);
                            db.finish_flush(&flush, &meta, NOW).unwrap();
                        }
                    }
                    Job::Compaction => {
                        if let Some(mut c) = db.pick_compaction().unwrap() {
                            assert!(db.can_merge(&c).unwrap());
                            db.start_compaction(&mut c).unwrap();
                            db.finish_compaction(&c, NOW).unwrap();
                        }
                    }
                }
            }
        }
    }
    let version = db.current_version();
    let files = &version.levels()[1];
    assert!(files.len() > 1);
    for f in &files[..files.len() - 1] {
        assert!(f.size > 400);
        // The limit was passed with the last entry.
        assert!(f.size < 1000);
    }
    let mut txn = db.start_transaction().unwrap();
    for k in 0..100 {
        assert_eq!(get(&mut db, &mut txn, k), Some(k + 3));
    }
    db.commit_transaction(txn).unwrap();
}

#[test]
fn commits_are_read_by_later_transactions_only() {
    let mut db = temp_db();
    write_all(&mut db, 0..3, 0);
    let mut early = db.start_transaction().unwrap();
    assert_eq!(get(&mut db, &mut early, 1), Some(1));

    let mut txn = db.start_transaction().unwrap();
    assert!(put(&mut db, &mut txn, 1, 10).unwrap());
    db.commit_transaction(txn).unwrap();
    let mut fast = db.start_transaction_fast_commit().unwrap();
    assert!(put(&mut db, &mut fast, 2, 20).unwrap());
    assert_eq!(get(&mut db, &mut early, 2), Some(2));
    db.commit_transaction(fast).unwrap();

    assert_eq!(get(&mut db, &mut early, 1), Some(1));
    assert_eq!(get(&mut db, &mut early, 2), Some(2));
    let mut late = db.start_transaction().unwrap();
    assert_eq!(get(&mut db, &mut late, 1), Some(10));
    assert_eq!(get(&mut db, &mut late, 2), Some(20));
    db.commit_transaction(early).unwrap();
    db.commit_transaction(late).unwrap();
}

#[test]
fn deletions_leave_what_is_in_files() {
    let mut db = small_db();
    write_all(&mut db, 0..20, 0);
    db.flush_memtable();
    run_jobs(&mut db);
    let mut txn = db.start_transaction().unwrap();
    assert!(put(&mut db, &mut txn, 3, 33).unwrap());
    assert!(db.delete(&mut txn, &encode(3)).unwrap());
    assert_eq!(get(&mut db, &mut txn, 3), Some(3));
    db.commit_transaction(txn).unwrap();
}

#[test]
fn compactions_are_finished_after_a_flush() {
    let options = DbOptions::new().write_buffer_size(10).level0_file_num_compaction_trigger(2);
    let mut db = open::<U32Key>(options, MemoryTables::new());
    let mut compaction = None;
    for round in 0..3u32 {
        write_all(&mut db, 0..20, round);
        db.flush_memtable();
        for job in db.take_jobs() {
            if job == Job::Flush {
                if let Some(flush) = db.collect().unwrap() {
                    let meta = write_out(&mut db, &flush);
                    db.finish_flush(&flush, &meta, NOW).unwrap();
                }
            }
        }
        for job in db.take_jobs() {
            if job == Job::Compaction && compaction.is_none() {
                if let Some(mut c) = db.pick_compaction().unwrap() {
                    db.start_compaction(&mut c).unwrap();
                    compaction = Some(c);
                }
            }
        }
    }
    // Another file has come to level 0 since the files of the compaction were written.
    let c = compaction.unwrap();
    assert_eq!(db.current_version().levels()[0].len(), 3);
    db.finish_compaction(&c, NOW).unwrap();
    assert_eq!(db.current_version().levels()[0].len(), 1);
    assert_eq!(db.current_version().levels()[1].len(), 1);
    let mut txn = db.start_transaction().unwrap();
    for k in 0..20 {
        assert_eq!(get(&mut db, &mut txn, k), Some(k + 2));
    }
    db.commit_transaction(txn).unwrap();
}

#[test]
fn commits_after_the_start_are_not_read() {
    let mut db = temp_db();
    write_all(&mut db, 0..3, 0);
    // It has read nothing yet when the others commit.
    let mut early = db.start_transaction().unwrap();
    let mut txn = db.start_transaction().unwrap();
    assert!(put(&mut db, &mut txn, 1, 10).unwrap());
    assert!(db.delete(&mut txn, &encode(2)).unwrap());
    db.commit_transaction(txn).unwrap();
    assert_eq!(get(&mut db, &mut early, 1), Some(1));
    assert_eq!(get(&mut db, &mut early, 2), Some(2));
    let mut fast = db.start_transaction_fast_commit().unwrap();
    assert!(put(&mut db, &mut fast, 0, 20).unwrap());
    // Here it remembers that the other one is in progress.
    assert_eq!(get(&mut db, &mut early, 0), Some(0));
    db.commit_transaction(fast).unwrap();
    assert_eq!(get(&mut db, &mut early, 0), Some(0));
    db.commit_transaction(early).unwrap();
    let mut late = db.start_transaction().unwrap();
    assert_eq!(get(&mut db, &mut late, 0), Some(20));
    assert_eq!(get(&mut db, &mut late, 1), Some(10));
    assert_eq!(get(&mut db, &mut late, 2), None);
    db.commit_transaction(late).unwrap();
}

#[test]
fn first_committer_wins() {
    let mut db = temp_db();
    write_all(&mut db, 0..3, 0);
    let mut first = db.start_transaction().unwrap();
    let mut second = db.start_transaction().unwrap();
    assert!(put(&mut db, &mut first, 1, 10).unwrap());
    assert!(matches!(put(&mut db, &mut second, 1, 11), Err(Error::TransactionAborted(_))));
    db.commit_transaction(first).unwrap();
    assert!(matches!(put(&mut db, &mut second, 1, 11), Err(Error::TransactionAborted(_))));
    let mut fast = db.start_transaction_fast_commit().unwrap();
    assert!(put(&mut db, &mut fast, 2, 20).unwrap());
    assert!(matches!(put(&mut db, &mut second, 2, 21), Err(Error::TransactionAborted(_))));
    db.commit_transaction(fast).unwrap();
    assert!(matches!(put(&mut db, &mut second, 2, 21), Err(Error::TransactionAborted(_))));
    db.commit_transaction(second).unwrap();
    let mut third = db.start_transaction().unwrap();
    assert!(put(&mut db, &mut third, 1, 12).unwrap());
    assert!(put(&mut db, &mut third, 2, 22).unwrap());
    db.commit_transaction(third).unwrap();
}

#[test]
fn flushes_change_no_reads() {
    let mut db = small_db();
    write_all(&mut db, 0..20, 0);
    db.flush_memtable();
    run_jobs(&mut db);
    // In files only, in memory, and nowhere.
    write_all(&mut db, 5..15, 100);
    let mut txn = db.start_transaction().unwrap();
    let before: Vec<Option<u32>> = (0..25).map(|k| get(&mut db, &mut txn, k)).collect();
    db.commit_transaction(txn).unwrap();
    db.flush_memtable();
    run_jobs(&mut db);
    let mut txn = db.start_transaction().unwrap();
    let after: Vec<Option<u32>> = (0..25).map(|k| get(&mut db, &mut txn, k)).collect();
    assert_eq!(after, before);
    assert_eq!(after[3], Some(3));
    assert_eq!(after[7], Some(107));
    assert_eq!(after[22], None);
    db.commit_transaction(txn).unwrap();
}

#[test]
fn the_empty_key_has_no_value() {
    let mut db = open::<kagi::key::Bytewise>(DbOptions::default(), MemoryTables::new());
    let mut txn = db.start_transaction().unwrap();
    assert!(db.put(&mut txn, b"a", b"1".to_vec()).unwrap());
    assert_eq!(db.get(&mut txn, b"").unwrap(), None);
    assert_eq!(db.get(&mut txn, b"a").unwrap(), Some(b"1".to_vec()));
    db.commit_transaction(txn).unwrap();
}

use kagi::memtable::MemTableLogRecord;
use kagi::table::{TableFileMeta, TableFileRef};
use kagi::transaction::{Timestamp, TransactionLogRecord};
use kagi::wal::checkpoint::{decode_manifest, encode_manifest, Manifest, ManifestTime};
use kagi::wal::log_record::{decode_record, encode_record};
use kagi::wal::segment::{Segment, SegmentView};
use kagi::wal::{
    filename_to_segno, last_segno, segno_to_filename, CheckpointManager, DbState, LogRecord,
    ReadStep, Wal, WalLogRecord, WalOptions, WalSyncMethod,
};
use kagi::Error;
use std::collections::BTreeMap;

fn create_wal() -> Wal {
    Wal::open(0, 0, &WalOptions::new()).unwrap()
}

/// The bytes of the only segment.
fn segment_bytes(wal: &mut Wal) -> Vec<u8> {
    let mut data = Vec::new();
    for (segno, bytes) in wal.take_output() {
        assert_eq!(segno, 1);
        data.extend(bytes);
    }
    data
}

#[test]
fn can_create_wal() {
    let mut wal = create_wal();
    let out = wal.take_output();
    assert_eq!(out.len(), 1);
    assert_eq!(segno_to_filename(out[0].0), b"00000001".to_vec());
}

#[test]
fn can_append_wal() {
    let mut wal = create_wal();

    let record: &[u8] = &[42u8; 4096];
    for _ in 0..10 {
        assert!(wal.append(record).is_ok());
    }
}

#[test]
fn can_read_wal() {
    let mut wal = create_wal();

    let record: &[u8] = &[42u8; 100];
    for _ in 0..10 {
        assert!(wal.append(record).is_ok());
    }

    wal.flush(None).unwrap();

    let data = segment_bytes(&mut wal);
    let mut reader = wal.get_reader(0);
    let mut count = 0;
    loop {
        match reader.next(&data).unwrap() {
            ReadStep::Record(_, recbuf) => {
                count += 1;
                assert_eq!(record, &recbuf[..]);
            }
            ReadStep::SegmentEnd => break,
        }
    }

    assert_eq!(count, 10);
    assert_eq!(reader.segment(), 2);
}

#[test]
fn records_span_pages() {
    let mut wal = create_wal();
    let big: Vec<u8> = (0..200_000u32).map(|i| i as u8).collect();
    let (start, end) = wal.append(&big).unwrap();
    assert_eq!(start, 0);
    // Every page of 64 KiB starts with a header of seven bytes.
    assert_eq!(end, 200_000 + 4 * 7);
    let (next, _) = wal.append(b"small").unwrap();
    assert_eq!(next, end);
    wal.flush(None).unwrap();
    let data = segment_bytes(&mut wal);
    let mut reader = wal.get_reader(0);
    assert!(matches!(reader.next(&data).unwrap(), ReadStep::Record(0, r) if r == big));
    assert!(matches!(reader.next(&data).unwrap(), ReadStep::Record(p, r) if p == end && r == b"small"));
}

#[test]
fn full_segments_are_followed_by_new_ones() {
    let options = WalOptions::new().segment_capacity(0x10000);
    let mut wal = Wal::open(0, 0, &options).unwrap();
    wal.append(&[1u8; 40_000]).unwrap();
    let (start, _) = wal.append(&[2u8; 40_000]).unwrap();
    assert_eq!(start, 0x10000);
    wal.flush(None).unwrap();
    let mut segments: Vec<Vec<u8>> = vec![Vec::new(), Vec::new()];
    for (segno, bytes) in wal.take_output() {
        segments[segno as usize - 1].extend(bytes);
    }
    let mut reader = wal.get_reader(start);
    assert_eq!(reader.segment(), 2);
    assert!(matches!(reader.next(&segments[1]).unwrap(), ReadStep::Record(_, r) if r == vec![2u8; 40_000]));
    let mut reader = wal.get_reader(0);
    assert!(matches!(reader.next(&segments[0]).unwrap(), ReadStep::Record(0, r) if r == vec![1u8; 40_000]));
}

#[test]
fn damaged_records_are_told() {
    let mut wal = create_wal();
    wal.append(&[42u8; 100]).unwrap();
    wal.flush(None).unwrap();
    let mut data = segment_bytes(&mut wal);
    data[50] ^= 1;
    let mut reader = wal.get_reader(0);
    assert!(matches!(reader.next(&data), Err(Error::DataCorrupted(_))));
}

#[test]
fn too_small_segments_are_refused() {
    let options = WalOptions::new().segment_capacity(7);
    assert!(matches!(Wal::open(0, 0, &options), Err(Error::InvalidArgument(_))));
    // A segment cannot be longer than all are.
    let options = WalOptions::new().segment_capacity(0x10000);
    assert!(matches!(Wal::open(1, 0x10001, &options), Err(Error::InvalidArgument(_))));
}

#[test]
fn names_of_segments() {
    assert_eq!(segno_to_filename(0x1a2b), b"00001A2B".to_vec());
    assert_eq!(filename_to_segno("00001A2B").unwrap(), 0x1a2b);
    assert!(matches!(filename_to_segno("manifest"), Err(Error::WrongObjectType(_))));
    let names = vec!["00000002".to_owned(), "0000000A".to_owned(), "00000001".to_owned()];
    assert_eq!(last_segno(&names).unwrap(), 10);
    assert_eq!(last_segno(&Vec::new()).unwrap(), 0);
}

#[test]
fn log_records_round_trip() {
    let xid = Timestamp::from(77);
    let records = vec![
        MemTableLogRecord::create_put_log(b"key", b"value"),
        MemTableLogRecord::create_delete_log(b"key"),
        TransactionLogRecord::create_transaction_commit_log(Timestamp::from(5), Timestamp::from(3)),
        TransactionLogRecord::create_transaction_abort_log(),
    ];
    for record in &records {
        let bytes = encode_record(xid, record);
        let (decoded_xid, decoded) = decode_record(&bytes).unwrap();
        assert_eq!(decoded_xid, xid);
        assert_eq!(encode_record(xid, &decoded), bytes);
    }
    let put = encode_record(xid, &records[0]);
    match decode_record(&put).unwrap().1 {
        LogRecord::MemTable(MemTableLogRecord::Put(p)) => {
            assert_eq!((p.key, p.value), (b"key".to_vec(), b"value".to_vec()));
        }
        _ => panic!("not a put"),
    }
    // A record that is cut off is none.
    assert!(decode_record(&put[..put.len() - 1]).is_none());
    assert!(decode_record(&[]).is_none());
}

fn checkpoint_record() -> LogRecord {
    let meta = TableFileMeta::new(
        TableFileRef::new(0, 4),
        1234,
        Timestamp::from(9),
        b"aaa".to_vec(),
        b"bbb".to_vec(),
    );
    WalLogRecord::create_checkpoint_log(Timestamp::from(9), 4096, 5, vec![vec![meta], Vec::new()])
}

#[test]
fn checkpoints_are_read_back() {
    let mut wal = create_wal();
    wal.append(b"something").unwrap();
    let (pos, _) = wal.append_record(Timestamp::default(), &checkpoint_record()).unwrap();
    let (other, _) = wal
        .append_record(Timestamp::from(1), &TransactionLogRecord::create_transaction_abort_log())
        .unwrap();
    wal.flush(None).unwrap();
    let data = segment_bytes(&mut wal);
    let c = wal.read_checkpoint_record(pos, &data).unwrap().unwrap();
    assert_eq!(c.min_xip, Timestamp::from(9));
    assert_eq!(c.min_recovery_point, 4096);
    assert_eq!(c.next_file_num, 5);
    assert_eq!(c.file_set.len(), 2);
    assert_eq!(c.file_set[0][0].infimum, b"aaa".to_vec());
    assert_eq!(c.file_set[0][0].size, 1234);

    assert!(wal.read_checkpoint_record(0, &data).unwrap().is_none());
    assert!(matches!(
        wal.read_checkpoint_record(other, &data),
        Err(Error::DataCorrupted(s)) if s == "last checkpoint pos points to non checkpoint record"
    ));
    assert!(matches!(
        wal.read_checkpoint_record(data.len() as u64, &data),
        Err(Error::DataCorrupted(s)) if s == "cannot load the checkpoint log record"
    ));
}

#[test]
fn manifests_round_trip() {
    let now = ManifestTime { secs: 1_600_000_000, nanos: 5 };
    let m = Manifest {
        db_state: DbState::InProduction,
        last_checkpoint_pos: 10,
        prev_checkpoint_pos: 3,
        min_xip: Timestamp::from(7),
        time: now,
    };
    let bytes = encode_manifest(&m);
    assert!(decode_manifest(&bytes).unwrap() == m);
    let mut damaged = bytes.clone();
    damaged[6] ^= 1;
    assert!(matches!(decode_manifest(&damaged), Err(Error::DataCorrupted(_))));

    let (mut mgr, out) = CheckpointManager::open(None, now).unwrap();
    assert!(decode_manifest(&out.unwrap()).unwrap() == *mgr.manifest());
    let bytes = mgr.create_checkpoint(Timestamp::from(7), 99, now);
    let (again, out) = CheckpointManager::open(Some(bytes), now).unwrap();
    assert!(out.is_none());
    assert_eq!(again.manifest().last_checkpoint_pos(), 99);
    assert!(matches!(CheckpointManager::open(Some(damaged), now), Err(Error::DataCorrupted(_))));
}

#[test]
fn records_are_read_from_the_file_of_a_segment() {
    const CAPACITY: usize = 16 * 1024 * 1024;
    let record: &[u8] = &[42u8; 100];
    let mut segment = Segment::create(1, CAPACITY, WalSyncMethod::NoSync).unwrap();
    let mut file = Vec::new();
    for i in 0..10 {
        assert_eq!(segment.append(record), Some(107 * (i + 1)));
        // Nothing goes to the file before it is handed over.
        file.extend(segment.take_output());
        assert!(file.is_empty());
    }
    segment.flush_page(false);
    file.extend(segment.take_output());
    assert_eq!(file.len(), 1070);
    assert!(segment.take_output().is_empty());
    let view = SegmentView::open(&file, CAPACITY).unwrap();
    for i in 0..10 {
        assert_eq!(view.read_record(107 * i).unwrap(), Some((record.to_vec(), 107)));
    }
    assert_eq!(view.read_record(1070).unwrap(), None);
}

/// Puts what a log hands out at the ends of the files of its segments.
fn write_out(wal: &mut Wal, files: &mut BTreeMap<u32, Vec<u8>>) {
    for (segno, bytes) in wal.take_output() {
        files.entry(segno).or_default().extend(bytes);
    }
}

#[test]
fn files_hold_what_was_logged() {
    let mut options = WalOptions::new();
    options.segment_capacity = 0x20000;
    let mut wal = Wal::open(0, 0, &options).unwrap();
    let mut files = BTreeMap::new();
    let mut places = Vec::new();
    for n in 0..9u8 {
        let record = vec![n; 20_000];
        let (start, _) = wal.append(&record).unwrap();
        places.push((start as usize, record));
        // Output is taken out at odd times: before and after it is handed over, and after more
        // records were appended.
        if n % 3 == 1 {
            wal.flush(None).unwrap();
        }
        if n % 4 == 2 {
            write_out(&mut wal, &mut files);
        }
    }
    wal.flush(None).unwrap();
    write_out(&mut wal, &mut files);
    assert!(files.len() > 1);
    for (pos, record) in &places {
        let file = &files[&((pos / 0x20000 + 1) as u32)];
        let view = SegmentView::open(file, 0x20000).unwrap();
        let (read, _) = view.read_record(pos % 0x20000).unwrap().unwrap();
        assert_eq!(&read, record);
    }

    // The log goes on behind what is in the files.
    let (last, size) = (*files.keys().last().unwrap(), files.values().last().unwrap().len());
    let mut wal = Wal::open(last, size, &options).unwrap();
    let (pos, _) = wal.append(b"later").unwrap();
    wal.flush(None).unwrap();
    write_out(&mut wal, &mut files);
    places.push((pos as usize, b"later".to_vec()));
    for (pos, record) in &places {
        let file = &files[&((pos / 0x20000 + 1) as u32)];
        let view = SegmentView::open(file, 0x20000).unwrap();
        assert_eq!(&view.read_record(pos % 0x20000).unwrap().unwrap().0, record);
    }
}

#[test]
fn room_for_a_record_is_told() {
    let mut options = WalOptions::new();
    options.segment_capacity = 0x20000;
    let wal = Wal::open(0, 0, &options).unwrap();
    assert!(wal.can_append(100_000));
    assert!(wal.fits_in_segment(0x10000 + 0xfff9));
    assert!(!wal.can_append(0x10000 + 0xfff9 + 1));
}

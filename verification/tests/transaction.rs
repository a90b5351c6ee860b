use kagi::memtable::{HashMemTable, MemTable};
use kagi::transaction::transaction_table::{TransactionStatus, TransactionTable};
use kagi::transaction::{Timestamp, TimestampType, Transaction, TransactionManager, TransactionMode};
use kagi::wal::{Wal, WalOptions};

#[test]
fn can_compare_timestamp() {
    let xid = Timestamp::new(TimestampType::Uncommitted, 1);
    assert!(!xid.dec().is_invalid());
    assert!(xid.dec() < xid);
    assert!(!xid.inc().is_invalid());
    assert!(xid.inc() > xid);

    let xid1 = xid.dec();
    assert!(!xid1.dec().is_invalid());
    assert!(xid1.dec() < xid1);
    assert!(!xid1.inc().is_invalid());
    assert!(xid1.inc() > xid1);

    assert!(
        Timestamp::new(TimestampType::Commit, 1) < Timestamp::new(TimestampType::Uncommitted, 1)
    );
}

#[test]
fn can_get_set_transaction_status() {
    let mut table = TransactionTable::new();

    for i in 0..100u64 {
        assert!(table
            .set_transaction_status(Timestamp::from(i), TransactionStatus::from(i as u8 % 4))
            .is_ok());
    }

    for i in 0..100u64 {
        let status = table.get_transaction_status(Timestamp::from(i)).unwrap();
        assert_eq!(TransactionStatus::from(i as u8 % 4), status);
    }
}

fn open_log() -> Wal {
    Wal::open(0, 0, &WalOptions::new()).unwrap()
}

fn commit(mgr: &mut TransactionManager, wal: &mut Wal, txn: Transaction) {
    let mut table = HashMemTable::new();
    mgr.commit(&mut table, wal, txn).unwrap();
}

#[test]
fn can_get_snapshot() {
    let mut mgr = TransactionManager::new();
    let mut wal = open_log();

    let mut txn1 = mgr.start_transaction(TransactionMode::Normal).unwrap();
    let txn1_xid = txn1.start_timestamp();
    let snapshot = mgr.get_snapshot(&mut txn1);
    assert_eq!(snapshot.min_xid, txn1_xid);
    assert_eq!(snapshot.max_xid, txn1_xid);
    assert!(snapshot.xips.is_empty());

    commit(&mut mgr, &mut wal, txn1);

    let txn2 = mgr.start_transaction(TransactionMode::Normal).unwrap();
    let txn3 = mgr.start_transaction(TransactionMode::Normal).unwrap();
    let txn3_xid = txn3.start_timestamp();
    let txn4 = mgr.start_transaction(TransactionMode::Normal).unwrap();
    let txn5 = mgr.start_transaction(TransactionMode::Normal).unwrap();
    let txn5_xid = txn3.start_timestamp();
    let mut txn6 = mgr.start_transaction(TransactionMode::Normal).unwrap();

    commit(&mut mgr, &mut wal, txn3);
    commit(&mut mgr, &mut wal, txn5);

    let snapshot = mgr.get_snapshot(&mut txn6);
    assert_eq!(snapshot.xips.len(), 2);
    assert!(snapshot.xips.contains(&txn2.start_timestamp()));
    assert!(snapshot.xips.contains(&txn4.start_timestamp()));
    assert!(snapshot.is_xid_in_progress(txn2.start_timestamp()));
    assert!(!snapshot.is_xid_in_progress(txn3_xid));
    assert!(snapshot.is_xid_in_progress(txn4.start_timestamp()));
    assert!(!snapshot.is_xid_in_progress(txn5_xid));

    commit(&mut mgr, &mut wal, txn2);
    commit(&mut mgr, &mut wal, txn4);
    commit(&mut mgr, &mut wal, txn6);
}

#[test]
fn timestamp_has_type_and_number() {
    let t = Timestamp::new(TimestampType::Start, 77);
    assert_eq!(t.type_(), TimestampType::Start);
    assert_eq!(t.raw_timestamp(), 77);
    assert_eq!(t.normalize(), Timestamp::new(TimestampType::Commit, 77));
    assert!(t.is_committed());
    assert!(!Timestamp::new(TimestampType::Uncommitted, 77).is_committed());
    assert!(Timestamp::default().is_invalid());
    // Only the low bits of the number count.
    let high = Timestamp::new(TimestampType::Commit, u64::MAX);
    assert_eq!(high.type_(), TimestampType::Commit);
    assert_eq!(high.raw_timestamp(), (1u64 << 62) - 1);
}

#[test]
fn timestamps_go_round() {
    let greatest = Timestamp::new(TimestampType::Commit, (1u64 << 62) - 1);
    // The number that stands for no timestamp is left out.
    assert_eq!(greatest.inc(), Timestamp::new(TimestampType::Commit, 1));
    assert_eq!(greatest.inc().dec(), greatest);
    assert!(greatest < greatest.inc());
    // Timestamps of one type compare by their distance.
    let near = Timestamp::new(TimestampType::Commit, 5);
    let far = Timestamp::new(TimestampType::Commit, (1u64 << 62) - 5);
    assert!(far < near);
    assert!(!(near < far));
}

#[test]
fn ended_transactions_are_told() {
    let mut mgr = TransactionManager::new();
    let mut wal = open_log();
    let mut table = HashMemTable::new();
    let committed = mgr.start_transaction(TransactionMode::FastCommit).unwrap();
    let aborted = mgr.start_transaction(TransactionMode::FastCommit).unwrap();
    let (a, b) = (committed.start_timestamp(), aborted.start_timestamp());
    assert_eq!(mgr.get_transaction_status(a).unwrap(), TransactionStatus::InProgress);
    mgr.commit(&mut table, &mut wal, committed).unwrap();
    mgr.abort(&mut table, &mut wal, aborted).unwrap();
    assert_eq!(mgr.get_transaction_status(a).unwrap(), TransactionStatus::Committed);
    assert_eq!(mgr.get_transaction_status(b).unwrap(), TransactionStatus::Aborted);
}

#[test]
fn oldest_transaction_is_remembered() {
    let mut mgr = TransactionManager::new();
    let mut wal = open_log();
    assert_eq!(mgr.min_xip(), None);
    assert_eq!(mgr.cached_min_xip(), None);
    let first = mgr.start_transaction(TransactionMode::Normal).unwrap();
    let second = mgr.start_transaction(TransactionMode::Normal).unwrap();
    let (a, b) = (first.start_timestamp(), second.start_timestamp());
    assert_eq!(mgr.min_xip(), Some(a));
    commit(&mut mgr, &mut wal, first);
    assert_eq!(mgr.cached_min_xip(), Some(a));
    assert_eq!(mgr.min_xip(), Some(b));
    commit(&mut mgr, &mut wal, second);
    assert_eq!(mgr.min_xip(), None);
    assert_eq!(mgr.cached_min_xip(), Some(b));
}

#[test]
fn commit_logs_what_was_written() {
    let mut mgr = TransactionManager::new();
    let mut wal = open_log();
    let mut table = HashMemTable::new();
    let mut txn = mgr.start_transaction(TransactionMode::Normal).unwrap();
    assert!(txn.is_readonly());
    assert!(table.put(&mgr, &wal, &mut txn, b"key", b"value".to_vec()).unwrap());
    assert!(!txn.is_readonly());
    let before = wal.current_lsn();
    mgr.commit(&mut table, &mut wal, txn).unwrap();
    assert!(wal.current_lsn() > before);

    // A transaction that wrote nothing leaves nothing in the log.
    let txn = mgr.start_transaction(TransactionMode::Normal).unwrap();
    let before = wal.current_lsn();
    mgr.commit(&mut table, &mut wal, txn).unwrap();
    assert_eq!(wal.current_lsn(), before);
}

use kagi::error::Error;
use kagi::key::{Bytewise, KeyOrder, U32Key};
use kagi::memtable::{HashMemTable, ImmutableMemTable, MemTable};
use kagi::transaction::{Timestamp, TimestampType, Transaction, TransactionManager, TransactionMode};
use kagi::wal::{Wal, WalOptions};

/// A memory table with the transactions that write to it.
struct Bench {
    mgr: TransactionManager,
    wal: Wal,
    table: HashMemTable,
}

fn encode(n: u32) -> Vec<u8> {
    bincode::serialize(&n).unwrap()
}

fn decode(bytes: &[u8]) -> u32 {
    bincode::deserialize(bytes).unwrap()
}

impl Bench {
    fn new() -> Self {
        Bench {
            mgr: TransactionManager::new(),
            wal: Wal::open(0, 0, &WalOptions::new()).unwrap(),
            table: HashMemTable::new(),
        }
    }

    fn start(&mut self) -> Transaction {
        self.mgr.start_transaction(TransactionMode::Normal).unwrap()
    }

    fn start_fast_commit(&mut self) -> Transaction {
        self.mgr.start_transaction(TransactionMode::FastCommit).unwrap()
    }

    fn commit(&mut self, txn: Transaction) {
        self.mgr.commit(&mut self.table, &mut self.wal, txn).unwrap();
    }

    fn abort(&mut self, txn: Transaction) {
        self.mgr.abort(&mut self.table, &mut self.wal, txn).unwrap();
    }

    fn put(&mut self, txn: &mut Transaction, key: u32, value: u32) -> Result<bool, Error> {
        self.table.put(&self.mgr, &self.wal, txn, &encode(key), encode(value))
    }

    fn update(&mut self, txn: &mut Transaction, key: u32, by: u32) -> Result<bool, Error> {
        let f = |v: &Vec<u8>| encode(decode(v) + by);
        self.table.update(&self.mgr, &self.wal, txn, &encode(key), &f)
    }

    fn delete(&mut self, txn: &mut Transaction, key: u32) -> Result<bool, Error> {
        self.table.delete(&self.mgr, &self.wal, txn, &encode(key))
    }

    fn get(&self, txn: &mut Transaction, key: u32) -> Option<u32> {
        self.table.get(&self.mgr, txn, &encode(key)).unwrap().map(|v| decode(&v))
    }
}

fn insert_with(mode: TransactionMode) {
    let mut b = Bench::new();
    let mut txns = Vec::new();
    for _ in 0..3 {
        txns.push(b.mgr.start_transaction(mode).unwrap());
    }

    for (i, txn) in txns.iter_mut().enumerate() {
        let i = i as u32;
        for j in 0..30 {
            assert!(b.put(txn, i * 30 + j, j).is_ok());
        }

        for j in 0..30 {
            // a txn can read its own updates
            assert_eq!(b.get(txn, i * 30 + j), Some(j));
        }
    }

    for txn in txns.iter_mut() {
        let mut count = 0;
        for i in 0..90 {
            if b.get(txn, i).is_some() {
                count += 1;
            }
        }
        // a txn cannot read uncommitted updates by other txns
        assert_eq!(count, 30);
    }

    for txn in txns {
        b.commit(txn);
    }

    let mut txn = b.start();
    for i in 0..90 {
        assert_eq!(b.get(&mut txn, i), Some(i % 30));
    }

    b.commit(txn);
}

#[test]
fn hash_memtable_can_insert() {
    insert_with(TransactionMode::Normal);
}

#[test]
fn can_insert_fast_commit() {
    insert_with(TransactionMode::FastCommit);
}

#[test]
fn hash_memtable_can_update() {
    let mut b = Bench::new();

    let mut txn = b.start();
    assert!(b.put(&mut txn, 1, 2).unwrap());
    assert!(b.update(&mut txn, 1, 1).unwrap());

    assert_eq!(b.get(&mut txn, 1), Some(3));

    b.commit(txn);
}

#[test]
fn can_detect_write_write_conflict() {
    let mut b = Bench::new();

    let mut txn = b.start();
    assert!(b.put(&mut txn, 1, 2).unwrap());
    b.commit(txn);

    let mut first = b.start();
    let mut second = b.start();

    assert!(b.put(&mut first, 1, 3).unwrap());
    b.commit(first);

    // this update must fail because the tuple is already updated by a committed transaction
    assert!(b.put(&mut second, 1, 4).is_err());
    b.abort(second);

    let mut txn = b.start();
    assert_eq!(b.get(&mut txn, 1), Some(3));

    b.commit(txn);
}

#[test]
fn can_delete() {
    let mut b = Bench::new();

    let mut txn = b.start();
    assert!(b.put(&mut txn, 1, 2).unwrap());
    b.commit(txn);

    let mut deleter = b.start();
    let mut reader = b.start();

    assert!(b.delete(&mut deleter, 1).unwrap());
    assert_eq!(b.get(&mut reader, 1), Some(2));

    b.commit(deleter);

    // repeatable read
    let val = b.get(&mut reader, 1);
    assert!(val.is_some());
    assert_eq!(val, Some(2));

    b.commit(reader);

    let mut txn = b.start();
    assert!(b.get(&mut txn, 1).is_none());

    b.commit(txn);
}

#[test]
fn can_abort_transaction() {
    let mut b = Bench::new();

    let mut txn = b.start();
    assert!(b.put(&mut txn, 1, 2).unwrap());
    b.commit(txn);

    let mut first = b.start();
    let mut second = b.start();

    assert!(b.put(&mut first, 1, 3).unwrap());
    b.abort(first);

    assert!(b.put(&mut second, 1, 4).unwrap());
    b.commit(second);

    let mut txn = b.start();
    assert_eq!(b.get(&mut txn, 1), Some(4));

    b.commit(txn);
}

#[test]
fn can_gc() {
    let mut b = Bench::new();
    for value in 2..=4 {
        let mut txn = b.start();
        assert!(b.put(&mut txn, 1, value).unwrap());
        b.commit(txn);
    }

    let mut txn = b.start();
    assert_eq!(b.get(&mut txn, 1), Some(4));
    b.commit(txn);

    let txn = b.start();
    b.table.snapshot::<U32Key>(Timestamp::from(9), 1000000).unwrap();
    b.table.gc(Timestamp::from(9), 1000000).unwrap();
    b.commit(txn);
}

#[test]
fn can_update_fast_commit() {
    let mut b = Bench::new();

    let mut txn = b.start_fast_commit();
    assert!(b.put(&mut txn, 1, 2).unwrap());
    assert!(b.update(&mut txn, 1, 1).unwrap());
    assert_eq!(b.get(&mut txn, 1), Some(3));
    b.commit(txn);

    let mut txn = b.start();
    assert!(b.update(&mut txn, 1, 1).unwrap());
    assert_eq!(b.get(&mut txn, 1), Some(4));
    b.commit(txn);
}

#[test]
fn can_detect_write_write_conflict_fast_commit() {
    let mut b = Bench::new();

    let mut txn = b.start();
    assert!(b.put(&mut txn, 1, 2).unwrap());
    b.commit(txn);

    let mut first = b.start_fast_commit();
    let mut second = b.start_fast_commit();

    assert!(b.put(&mut first, 1, 3).unwrap());

    // this update must fail because the tuple is already updated by a uncommitted transaction
    assert!(b.put(&mut second, 1, 4).is_err());

    b.commit(first);
    b.abort(second);

    let mut txn = b.start();
    assert_eq!(b.get(&mut txn, 1), Some(3));

    b.commit(txn);
}

#[test]
fn can_check_safe_version() {
    let min_xip = Timestamp::new(TimestampType::Commit, 100);

    assert!(HashMemTable::is_version_safe_for_gc(
        Timestamp::new(TimestampType::Commit, 99),
        min_xip,
        50
    ));

    assert!(!HashMemTable::is_version_safe_for_gc(
        Timestamp::new(TimestampType::Commit, 101),
        min_xip,
        50
    ));

    assert!(HashMemTable::is_version_safe_for_gc(
        Timestamp::new(TimestampType::Start, 49),
        min_xip,
        50
    ));

    assert!(!HashMemTable::is_version_safe_for_gc(
        Timestamp::new(TimestampType::Start, 51),
        min_xip,
        50
    ));

    assert!(!HashMemTable::is_version_safe_for_gc(
        Timestamp::new(TimestampType::Start, 1),
        min_xip,
        150
    ));

    assert!(!HashMemTable::is_version_safe_for_gc(
        Timestamp::new(TimestampType::Start, -50i64 as u64),
        min_xip,
        150
    ));

    assert!(HashMemTable::is_version_safe_for_gc(
        Timestamp::new(TimestampType::Start, -51i64 as u64),
        min_xip,
        150
    ));
}

#[test]
fn conflicts_name_the_operation() {
    let mut b = Bench::new();
    let mut txn = b.start();
    assert!(b.put(&mut txn, 1, 2).unwrap());
    b.commit(txn);
    let mut old = b.start();
    let mut new = b.start();
    assert!(b.put(&mut new, 1, 3).unwrap());
    b.commit(new);
    assert!(matches!(b.put(&mut old, 1, 4), Err(Error::TransactionAborted(s)) if s == "ww-conflict detected in put()"));
    assert!(matches!(b.update(&mut old, 1, 4), Err(Error::TransactionAborted(s)) if s == "ww-conflict detected in update()"));
    assert!(matches!(b.delete(&mut old, 1), Err(Error::TransactionAborted(s)) if s == "ww-conflict detected in delete()"));
    b.abort(old);
}

#[test]
fn missing_keys_are_not_changed() {
    let mut b = Bench::new();
    let mut txn = b.start();
    assert!(!b.update(&mut txn, 7, 1).unwrap());
    assert!(!b.delete(&mut txn, 7).unwrap());
    assert!(b.put(&mut txn, 7, 1).unwrap());
    assert!(b.delete(&mut txn, 7).unwrap());
    // A deleted key is neither updated nor deleted again.
    assert!(!b.update(&mut txn, 7, 1).unwrap());
    assert!(!b.delete(&mut txn, 7).unwrap());
    assert_eq!(b.get(&mut txn, 7), None);
    b.commit(txn);
}

#[test]
fn flush_takes_what_is_old_enough() {
    let mut b = Bench::new();
    for key in [5, 3, 9] {
        let mut txn = b.start();
        assert!(b.put(&mut txn, key, key + 1).unwrap());
        b.commit(txn);
    }
    let mut txn = b.start();
    assert!(b.delete(&mut txn, 3).unwrap());
    b.commit(txn);
    let mut young = b.start();
    assert!(b.put(&mut young, 4, 5).unwrap());
    let min_xip = young.start_timestamp();
    assert_eq!(b.table.size(), 4);

    let imm = b.table.snapshot::<U32Key>(min_xip, 100).unwrap();
    let mut entries = Vec::new();
    let mut it = imm.iter();
    while let Some((k, v)) = kagi::memtable::MemTableIterator::next(&mut it) {
        entries.push((decode(k), v.map(|v| decode(v))));
    }
    assert_eq!(entries, vec![(3, None), (5, Some(6)), (9, Some(10))]);
    assert_eq!(imm.size(), 3);
    assert_eq!(imm.get::<U32Key>(&encode(5)).unwrap(), Some(&encode(6)));
    assert_eq!(imm.get::<U32Key>(&encode(3)).unwrap(), None);
    assert_eq!(imm.get::<U32Key>(&encode(4)).unwrap(), None);

    // What was taken is still there until it is collected.
    assert_eq!(b.get(&mut young, 5), Some(6));
    b.table.gc(min_xip, 100).unwrap();
    assert_eq!(b.table.size(), 1);
    assert_eq!(b.get(&mut young, 5), None);
    assert_eq!(b.get(&mut young, 4), Some(5));

    // A second snapshot for the same transaction finds nothing more.
    assert_eq!(b.table.snapshot::<U32Key>(min_xip, 100).unwrap().size(), 0);
    b.commit(young);
}

#[test]
fn old_versions_below_the_latest_leave() {
    let mut b = Bench::new();
    for value in [1, 2] {
        let mut txn = b.start();
        assert!(b.put(&mut txn, 1, value).unwrap());
        b.commit(txn);
    }
    let mut young = b.start();
    assert!(b.put(&mut young, 1, 3).unwrap());
    let min_xip = young.start_timestamp();
    let imm = b.table.snapshot::<U32Key>(min_xip, 0).unwrap();
    assert_eq!(imm.get::<U32Key>(&encode(1)).unwrap(), Some(&encode(2)));
    b.table.gc(min_xip, 0).unwrap();
    // The version of the young transaction stays, the older ones have left.
    assert_eq!(b.table.size(), 1);
    assert_eq!(b.get(&mut young, 1), Some(3));
    let mut other = b.start();
    assert_eq!(b.get(&mut other, 1), None);
    b.abort(young);
    assert_eq!(b.get(&mut other, 1), None);
    b.commit(other);
}

#[test]
fn memory_is_given_back() {
    let mut b = Bench::new();
    let mut txn = b.start();
    for key in 0..100 {
        assert!(b.put(&mut txn, key, key).unwrap());
    }
    b.table.optimize_space();
    assert_eq!(b.table.size(), 100);
    for key in 0..100 {
        assert_eq!(b.get(&mut txn, key), Some(key));
    }
    b.commit(txn);
}

#[test]
fn orders_of_keys() {
    assert!(U32Key::less(&encode(255), &encode(256)));
    assert!(!U32Key::less(&encode(256), &encode(255)));
    assert!(!U32Key::less(&encode(7), &encode(7)));
    assert!(Bytewise::less(b"ab", b"abc"));
    assert!(Bytewise::less(b"abc", b"b"));
    assert!(!Bytewise::less(b"b", b"b"));
    let s = |x: &str| bincode::serialize(x).unwrap();
    assert!(kagi::key::StringKey::less(&s("abc"), &s("b")));
    assert!(!kagi::key::StringKey::less(&s("b"), &s("abc")));
    assert!(!kagi::key::StringKey::less(&s("b"), &s("b")));
}

#[test]
fn what_was_taken_leaves_at_large_numbers() {
    let mut b = Bench::new();
    for key in [5, 3] {
        let mut txn = b.start();
        assert!(b.put(&mut txn, key, key + 1).unwrap());
        b.commit(txn);
    }
    // The number of the transaction does not fit in four bytes.
    let min_xip = Timestamp::from((7 << 32) + 1);
    assert_eq!(b.table.snapshot::<U32Key>(min_xip, 100).unwrap().size(), 2);
    b.table.gc(Timestamp::from((8 << 32) + 1), 100).unwrap();
    assert_eq!(b.table.size(), 2);
    b.table.gc(min_xip, 100).unwrap();
    assert_eq!(b.table.size(), 0);
}

//! What transactions read of what they and others write.
use crate::db::DbView;
use crate::key::KeyOrder;
use crate::memtable;
use crate::storage::RedoView;
use crate::table::TableStore;
use crate::transaction;
use crate::transaction::transaction_manager::Reader;
use crate::transaction::{
    Timestamp, TimestampType, Transaction, TransactionMode, TransactionStatus,
};
use vstd::prelude::*;

verus! {

/// Whether a transaction has a number, under which it started and marks what it writes.
pub open spec fn numbered(txn: Transaction, number: nat) -> bool {
    &&& 0 < number < 0x2000_0000_0000_0000
    &&& txn.start() == Timestamp(number as u64)
    &&& txn.own() == Timestamp::of(
        if txn.kind() == TransactionMode::FastCommit {
            TimestampType::Start
        } else {
            TimestampType::Uncommitted
        },
        number,
    )
}

/// Whether a transaction added a version of a key, and nothing else changed that is read.
pub open spec fn wrote_version<S: TableStore>(
    before: DbView<S>,
    after: DbView<S>,
    txn: Transaction,
    key: Seq<u8>,
    value: Option<Seq<u8>>,
) -> bool {
    after == before.with_chain(
        key,
        before.chain(key).push(memtable::new_version(txn.own(), value)),
    )
}

/// A write changes what is read of its own key only.
proof fn lemma_other_keys<O: KeyOrder, S: TableStore>(
    before: DbView<S>,
    after: DbView<S>,
    txn: Transaction,
    key: Seq<u8>,
    value: Option<Seq<u8>>,
    r: Reader,
    k: Seq<u8>,
)
    requires
        wrote_version(before, after, txn, key, value),
        k != key,
    ensures
        after.read::<O>(r, k) == before.read::<O>(r, k),
{
    assert(after.chain(k) == before.chain(k));
}

/// A transaction reads what it wrote last, and what it wrote to one key changes nothing that it
/// reads of another. A deletion takes back what is in memory, and leaves what is in files.
pub proof fn lemma_own_write_is_read<O: KeyOrder, S: TableStore>(
    before: DbView<S>,
    after: DbView<S>,
    txn: Transaction,
    number: nat,
    key: Seq<u8>,
    value: Option<Seq<u8>>,
    k: Seq<u8>,
)
    requires
        numbered(txn, number),
        wrote_version(before, after, txn, key, value),
    ensures
        after.visible::<O>(txn, k) == if k == key {
            read_of::<O, S>(before, key, value)
        } else {
            before.visible::<O>(txn, k)
        },
{
    let r = after.txnmgr.reader(txn);
    if k == key {
        memtable::lemma_reads_own_writes(before.chain(key), r, number, value);
    } else {
        lemma_other_keys::<O, S>(before, after, txn, key, value, r, k);
    }
}

/// No transaction reads what another one wrote that has not committed.
pub proof fn lemma_pending_write_is_hidden<O: KeyOrder, S: TableStore>(
    before: DbView<S>,
    after: DbView<S>,
    txn: Transaction,
    number: nat,
    key: Seq<u8>,
    value: Option<Seq<u8>>,
    other: Transaction,
    other_number: nat,
    k: Seq<u8>,
)
    requires
        numbered(txn, number),
        numbered(other, other_number),
        number != other_number,
        wrote_version(before, after, txn, key, value),
        before.txnmgr.status(txn.start()) != TransactionStatus::Committed,
    ensures
        after.visible::<O>(other, k) == before.visible::<O>(other, k),
{
    let r = after.txnmgr.reader(other);
    lemma_unseen(r, txn, number, other, other_number);
    if k == key {
        let chain = before.chain(key);
        let now = chain.push(memtable::new_version(txn.own(), value));
        assert(now.last().timestamp == txn.own());
        assert(now.drop_last() =~= chain);
    } else {
        lemma_other_keys::<O, S>(before, after, txn, key, value, r, k);
    }
}

/// No reader sees a version of another transaction that is not known to have committed.
proof fn lemma_unseen(
    r: Reader,
    txn: Transaction,
    number: nat,
    other: Transaction,
    other_number: nat,
)
    requires
        numbered(txn, number),
        numbered(other, other_number),
        number != other_number,
        r.start == other.start(),
        r.own == other.own(),
        txn.kind() == TransactionMode::FastCommit ==> r.manager.status(txn.start())
            != TransactionStatus::Committed,
    ensures
        !r.sees(txn.own()),
        r.own != txn.own(),
{
    transaction::lemma_timestamp_of(TimestampType::Start, number);
    transaction::lemma_timestamp_of(TimestampType::Uncommitted, number);
    transaction::lemma_timestamp_of(TimestampType::Start, other_number);
    transaction::lemma_timestamp_of(TimestampType::Uncommitted, other_number);
    lemma_normal(number);
}

/// The timestamp of a transaction without its type is the one it started with.
proof fn lemma_normal(number: nat)
    requires
        0 < number < 0x2000_0000_0000_0000,
    ensures
        Timestamp::of(TimestampType::Start, number).normal() == Timestamp(number as u64),
        Timestamp(number as u64).raw() == number,
{
    transaction::lemma_timestamp_of(TimestampType::Start, number);
    transaction::lemma_timestamp_of(TimestampType::Commit, number);
}

/// What is read of a key whose last seen version in memory has a value, or is a deletion: the value,
/// or what is in files.
pub open spec fn read_of<O: KeyOrder, S: TableStore>(
    db: DbView<S>,
    key: Seq<u8>,
    value: Option<Seq<u8>>,
) -> Option<Seq<u8>> {
    match value {
        Some(v) => Some(v),
        None => db.stored::<O>(key),
    }
}

/// What a transaction wrote last and committed is read by every transaction that starts later, as
/// long as nothing else is written. After a deletion what is in files is read.
pub proof fn lemma_committed_write_is_read<O: KeyOrder, S: TableStore>(
    before: DbView<S>,
    after: DbView<S>,
    txn: Transaction,
    key: Seq<u8>,
    chain: Seq<RedoView>,
    value: Option<Seq<u8>>,
    later: DbView<S>,
    other: Transaction,
)
    requires
        before.chain(key) == chain.push(memtable::new_version(txn.own(), value)),
        txn.written().contains(key),
        !txn.readonly(),
        after.committed_from(before, txn),
        later.chain(key) == after.chain(key),
        before.txnmgr.counter() < other.start().0 < 0x2000_0000_0000_0000,
    ensures
        later.visible::<O>(other, key) == read_of::<O, S>(later, key, value),
{
    let commit = Timestamp(before.txnmgr.counter() as u64);
    assert(before.memory.contains_key(key));
    assert(after.chain(key) == memtable::stamped(before.chain(key), txn.own(), commit));
    memtable::lemma_committed_is_seen(
        chain,
        txn.own(),
        commit,
        later.txnmgr.reader(other),
        value,
    );
}

/// What a transaction that leaves its versions marked with its start wrote last and committed is
/// read by every transaction that takes its snapshot later, as long as nothing else is written. After
/// a deletion what is in files is read.
pub proof fn lemma_fast_commit_is_read<O: KeyOrder, S: TableStore>(
    before: DbView<S>,
    after: DbView<S>,
    txn: Transaction,
    number: nat,
    key: Seq<u8>,
    chain: Seq<RedoView>,
    value: Option<Seq<u8>>,
    other: Transaction,
)
    requires
        numbered(txn, number),
        txn.kind() == TransactionMode::FastCommit,
        txn.written() == Seq::<Seq<u8>>::empty(),
        number < before.txnmgr.counter(),
        before.txnmgr.active().contains(txn.start()),
        before.txnmgr.wf(),
        before.chain(key) == chain.push(memtable::new_version(txn.own(), value)),
        after.committed_from(before, txn),
        after.txnmgr.wf(),
        before.txnmgr.counter() + 1 < 0x2000_0000_0000_0000,
        other.snapshot() is None,
    ensures
        after.visible::<O>(other, key) == read_of::<O, S>(after, key, value),
{
    let r = after.txnmgr.reader(other);
    transaction::lemma_timestamp_of(TimestampType::Start, number);
    lemma_normal(number);
    lemma_fast_commit_has_ended(before, after, txn, number, other);
    assert(r.sees(txn.own()));
    assert(before.memory.contains_key(key));
    assert(!txn.written().contains(key));
    assert(after.chain(key) == before.chain(key));
    assert(after.chain(key).last() == memtable::new_version(txn.own(), value));
}

/// A snapshot that is taken after a transaction committed tells that it has ended.
proof fn lemma_fast_commit_has_ended<S: TableStore>(
    before: DbView<S>,
    after: DbView<S>,
    txn: Transaction,
    number: nat,
    other: Transaction,
)
    requires
        numbered(txn, number),
        number < before.txnmgr.counter(),
        before.txnmgr.active().contains(txn.start()),
        before.txnmgr.wf(),
        after.committed_from(before, txn),
        after.txnmgr.wf(),
        before.txnmgr.counter() + 1 < 0x2000_0000_0000_0000,
        other.snapshot() is None,
    ensures
        !after.txnmgr.reader(other).snapshot.in_progress(txn.start()),
{
    let start = txn.start();
    transaction::lemma_timestamp_of(TimestampType::Start, number);
    lemma_normal(number);
    before.txnmgr.lemma_numbers();
    after.txnmgr.lemma_numbers();
    transaction::lemma_before_is_less(before.txnmgr.latest(), start);
    let active = before.txnmgr.active();
    let at = active.index_of(start);
    assert(!after.txnmgr.active().contains(start)) by {
        let now = after.txnmgr.active();
        if now.contains(start) {
            let i = choose|i: int| 0 <= i < now.len() && now[i] == start;
            if i < at {
                assert(active[i] == start && active[at] == start);
            } else {
                assert(active[i + 1] == start && active[at] == start);
            }
        }
    }
    after.txnmgr.lemma_snapshot_tells(other.start(), start);
}

/// Every transaction that takes its snapshot after another one committed that leaves its versions
/// marked with its start may write over what that one wrote last.
pub proof fn lemma_fast_commit_may_be_overwritten<S: TableStore>(
    before: DbView<S>,
    after: DbView<S>,
    txn: Transaction,
    number: nat,
    key: Seq<u8>,
    chain: Seq<RedoView>,
    value: Option<Seq<u8>>,
    other: Transaction,
)
    requires
        numbered(txn, number),
        txn.kind() == TransactionMode::FastCommit,
        txn.written() == Seq::<Seq<u8>>::empty(),
        number < before.txnmgr.counter(),
        before.txnmgr.active().contains(txn.start()),
        before.txnmgr.wf(),
        before.chain(key) == chain.push(memtable::new_version(txn.own(), value)),
        after.committed_from(before, txn),
        after.txnmgr.wf(),
        before.txnmgr.counter() + 1 < 0x2000_0000_0000_0000,
        other.snapshot() is None,
    ensures
        !memtable::write_conflict(after.chain(key), after.txnmgr.reader(other)),
{
    lemma_fast_commit_has_ended(before, after, txn, number, other);
    transaction::lemma_timestamp_of(TimestampType::Start, number);
    lemma_normal(number);
    assert(before.memory.contains_key(key));
    assert(!txn.written().contains(key));
    assert(after.chain(key) == before.chain(key));
    assert(after.chain(key).last() == memtable::new_version(txn.own(), value));
}

/// Reads are repeatable: a transaction that started before another one commits, which marks its
/// versions with its commit then, reads the same before and after.
pub proof fn lemma_commit_is_hidden_from_earlier<O: KeyOrder, S: TableStore>(
    before: DbView<S>,
    after: DbView<S>,
    txn: Transaction,
    number: nat,
    other: Transaction,
    other_number: nat,
    k: Seq<u8>,
)
    requires
        numbered(txn, number),
        txn.kind() == TransactionMode::Normal,
        numbered(other, other_number),
        number != other_number,
        number < before.txnmgr.counter(),
        other_number < before.txnmgr.counter(),
        before.txnmgr.counter() < 0x2000_0000_0000_0000,
        before.txnmgr.wf(),
        after.txnmgr.wf(),
        after.committed_from(before, txn),
    ensures
        after.visible::<O>(other, k) == before.visible::<O>(other, k),
{
    let r0 = before.txnmgr.reader(other);
    let r1 = after.txnmgr.reader(other);
    let commit = Timestamp(before.txnmgr.counter() as u64);
    lemma_unseen(r0, txn, number, other, other_number);
    transaction::lemma_before_is_less(commit, other.start());
    before.txnmgr.lemma_numbers();
    transaction::lemma_before_is_less(before.txnmgr.latest(), txn.start());
    assert forall|ts: Timestamp| r1.sees(ts) == #[trigger] r0.sees(ts) by {
        let xid = ts.normal();
        assert(after.txnmgr.status(xid) == before.txnmgr.status(xid));
        if other.snapshot() is None && before.txnmgr.status(xid) == TransactionStatus::Committed {
            before.txnmgr.lemma_committed_has_ended(other.start(), xid);
            after.txnmgr.lemma_committed_has_ended(other.start(), xid);
        }
    }
    lemma_seen_after_stamp(before.chain(k), r0, r1, txn.own(), commit);
    lemma_seen_alike(before.chain(k), r0, r1);
}

/// A transaction that has taken its snapshot while another one was in progress that leaves its
/// versions marked with its start reads the same before and after that one commits.
pub proof fn lemma_fast_commit_is_hidden_from_earlier<O: KeyOrder, S: TableStore>(
    before: DbView<S>,
    after: DbView<S>,
    txn: Transaction,
    number: nat,
    other: Transaction,
    other_number: nat,
    k: Seq<u8>,
)
    requires
        numbered(txn, number),
        txn.kind() == TransactionMode::FastCommit,
        txn.written() == Seq::<Seq<u8>>::empty(),
        numbered(other, other_number),
        number != other_number,
        other.snapshot() matches Some(s) && s.in_progress(txn.start()),
        after.committed_from(before, txn),
    ensures
        after.visible::<O>(other, k) == before.visible::<O>(other, k),
{
    let r0 = before.txnmgr.reader(other);
    let r1 = after.txnmgr.reader(other);
    assert forall|ts: Timestamp| r1.sees(ts) == #[trigger] r0.sees(ts) by {
        let xid = ts.normal();
        assert(xid != txn.start() ==> after.txnmgr.status(xid) == before.txnmgr.status(xid));
    }
    assert(!txn.written().contains(k));
    assert(after.chain(k) == before.chain(k));
    lemma_seen_alike(before.chain(k), r0, r1);
}

/// The first one to commit wins: a transaction may not write over what another one committed after
/// it started.
pub proof fn lemma_first_committer_wins<S: TableStore>(
    before: DbView<S>,
    after: DbView<S>,
    txn: Transaction,
    key: Seq<u8>,
    chain: Seq<RedoView>,
    value: Option<Seq<u8>>,
    other: Transaction,
    number: nat,
)
    requires
        before.chain(key) == chain.push(memtable::new_version(txn.own(), value)),
        txn.written().contains(key),
        !txn.readonly(),
        after.committed_from(before, txn),
        numbered(other, number),
        number < before.txnmgr.counter() < 0x2000_0000_0000_0000,
    ensures
        memtable::write_conflict(after.chain(key), after.txnmgr.reader(other)),
{
    let commit = Timestamp(before.txnmgr.counter() as u64);
    assert(before.chain(key).len() > 0);
    assert(before.memory.contains_key(key));
    let now = memtable::stamped(before.chain(key), txn.own(), commit);
    assert(after.chain(key) == now);
    assert(now.last() == memtable::new_version(commit, value));
    transaction::lemma_before_is_less(commit, other.start());
}

/// The same of a transaction that leaves its versions marked with its start: another one that has
/// taken its snapshot while it was in progress may not write over what it wrote, before or after it
/// commits.
pub proof fn lemma_first_fast_committer_wins<S: TableStore>(
    db: DbView<S>,
    txn: Transaction,
    txn_number: nat,
    key: Seq<u8>,
    chain: Seq<RedoView>,
    value: Option<Seq<u8>>,
    other: Transaction,
    number: nat,
)
    requires
        numbered(txn, txn_number),
        txn.kind() == TransactionMode::FastCommit,
        db.chain(key) == chain.push(memtable::new_version(txn.own(), value)),
        numbered(other, number),
        number != txn_number,
        other.snapshot() matches Some(s) && s.in_progress(txn.start()),
    ensures
        memtable::write_conflict(db.chain(key), db.txnmgr.reader(other)),
{
    transaction::lemma_timestamp_of(TimestampType::Start, txn_number);
    lemma_normal(txn_number);
    assert(db.chain(key).last() == memtable::new_version(txn.own(), value));
}

proof fn lemma_seen_alike(chain: Seq<RedoView>, r0: Reader, r1: Reader)
    requires
        forall|ts: Timestamp| r1.sees(ts) == #[trigger] r0.sees(ts),
    ensures
        memtable::seen_value(chain, r1) == memtable::seen_value(chain, r0),
    decreases chain.len(),
{
    if chain.len() > 0 {
        assert(r0.sees(chain.last().timestamp) == r1.sees(chain.last().timestamp));
        lemma_seen_alike(chain.drop_last(), r0, r1);
    }
}

proof fn lemma_seen_after_stamp(
    chain: Seq<RedoView>,
    r0: Reader,
    r1: Reader,
    own: Timestamp,
    commit: Timestamp,
)
    requires
        forall|ts: Timestamp| r1.sees(ts) == #[trigger] r0.sees(ts),
        !r0.sees(own),
        !r0.sees(commit),
    ensures
        memtable::seen_value(memtable::stamped(chain, own, commit), r1) == memtable::seen_value(
            chain,
            r0,
        ),
    decreases chain.len(),
{
    let now = memtable::stamped(chain, own, commit);
    if chain.len() > 0 {
        let init = chain.drop_last();
        assert(now.drop_last() =~= memtable::stamped(init, own, commit));
        lemma_seen_after_stamp(init, r0, r1, own, commit);
        assert(r0.sees(chain.last().timestamp) == r1.sees(chain.last().timestamp));
        assert(r0.sees(commit) == r1.sees(commit));
    }
}

/// Aborting a transaction takes back what it wrote: whatever was read of a key before its first
/// write is read again.
pub proof fn lemma_abort_takes_back<O: KeyOrder, S: TableStore>(
    first: DbView<S>,
    before: DbView<S>,
    after: DbView<S>,
    txn: Transaction,
    writes: Seq<RedoView>,
    k: Seq<u8>,
    r: Reader,
)
    requires
        // What the transaction wrote since then, and nothing else.
        before.chain(k) == first.chain(k) + writes,
        forall|i: int| 0 <= i < writes.len() ==> (#[trigger] writes[i]).timestamp == txn.own(),
        writes.len() > 0 ==> txn.written().contains(k),
        first.chain(k).len() > 0 ==> first.chain(k).last().timestamp != txn.own(),
        before.flushing == first.flushing,
        before.store == first.store,
        before.vset == first.vset,
        after.aborted_from(before, txn),
    ensures
        after.chain(k) == first.chain(k),
        after.read::<O>(r, k) == first.read::<O>(r, k),
{
    memtable::lemma_rollback_undoes(first.chain(k), txn.own(), writes);
    memtable::lemma_rollback_undoes(first.chain(k), txn.own(), Seq::empty());
    assert(first.chain(k) + Seq::<RedoView>::empty() =~= first.chain(k));
    if writes.len() == 0 {
        assert(before.chain(k) =~= first.chain(k));
    }
    if !before.memory.contains_key(k) {
        assert(before.chain(k).len() == 0);
        assert(first.chain(k) =~= Seq::<RedoView>::empty());
    }
}

} // verus!

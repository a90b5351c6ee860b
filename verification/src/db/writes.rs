//! What becomes of the writes that a transaction made, step by step, when it commits or aborts.
use crate::db::durability;
use crate::db::isolation;
use crate::db::DbView;
use crate::key::KeyOrder;
use crate::memtable;
use crate::memtable::rules;
use crate::storage::RedoView;
use crate::table::TableStore;
use crate::transaction;
use crate::transaction::history;
use crate::transaction::transaction_manager::{Reader, TransactionManager};
use crate::transaction::{Timestamp, TimestampType, Transaction, TransactionMode};
use crate::wal::files;
use crate::wal::log_record;
use crate::wal::log_record::RecordView;
use crate::wal::Wal;
use vstd::prelude::*;

verus! {

/// The log record of giving a key a value, or of deleting it.
pub open spec fn record_of(key: Seq<u8>, value: Option<Seq<u8>>) -> RecordView {
    match value {
        Some(v) => RecordView::Put(key, v),
        None => RecordView::Delete(key),
    }
}

/// The writes of steps as the keys and log records.
pub open spec fn records_of(steps: Seq<Option<(Seq<u8>, Option<Seq<u8>>)>>) -> Seq<
    Option<(Seq<u8>, RecordView)>,
> {
    Seq::new(
        steps.len(),
        |i: int|
            match steps[i] {
                Some((k, v)) => Some((k, record_of(k, v))),
                None => None,
            },
    )
}

/// Whether a transaction wrote or read between two states of the store. A write adds a version of
/// its key; other transactions may do what they like meanwhile, but to the given key.
pub open spec fn did<S: TableStore>(
    before: DbView<S>,
    after: DbView<S>,
    txn: Transaction,
    now: Transaction,
    key: Seq<u8>,
    write: Option<(Seq<u8>, Option<Seq<u8>>)>,
) -> bool {
    match write {
        Some((k, value)) => {
            &&& now.wrote(txn, before.txnmgr, k, record_of(k, value))
            &&& after.chain(key) == if k == key {
                before.chain(key).push(memtable::new_version(txn.own(), value))
            } else {
                before.chain(key)
            }
        },
        None => now.read_from(txn, before.txnmgr) && after.chain(key) == before.chain(key),
    }
}

/// Whether a transaction started with a number and then took steps, each from one state of the
/// store to the next, while no other one wrote the given key.
pub open spec fn ran<S: TableStore>(
    dbs: Seq<DbView<S>>,
    states: Seq<Transaction>,
    key: Seq<u8>,
    steps: Seq<Option<(Seq<u8>, Option<Seq<u8>>)>>,
    mode: TransactionMode,
    number: nat,
) -> bool {
    &&& 0 < number < 0x2000_0000_0000_0000
    &&& dbs.len() == steps.len() + 1
    &&& states.len() == steps.len() + 1
    &&& states[0].fresh(mode, number)
    &&& forall|i: int|
        0 <= i < steps.len() ==> did(
            dbs[i],
            dbs[i + 1],
            states[i],
            states[i + 1],
            key,
            #[trigger] steps[i],
        )
}

/// A store in which a key was put, or a key was given what a function makes of a value, has what
/// that write adds and nothing else that is read has changed.
pub proof fn lemma_put_is_a_step<S: TableStore>(
    before: DbView<S>,
    after: DbView<S>,
    txn: Transaction,
    now: Transaction,
    k: Seq<u8>,
    value: Option<Seq<u8>>,
    key: Seq<u8>,
)
    requires
        after == before.flush_scheduled().with_chain(
            k,
            before.flush_scheduled().chain(k).push(memtable::new_version(txn.own(), value)),
        ),
        now.wrote(txn, before.txnmgr, k, record_of(k, value)),
    ensures
        did(before, after, txn, now, key, Some((k, value))),
        after.flushing == before.flushing,
        after.vset == before.vset,
        after.store == before.store,
        after.txnmgr == before.txnmgr,
        after.wal == before.wal,
{
}

/// So has one in which a key was deleted.
pub proof fn lemma_delete_is_a_step<S: TableStore>(
    before: DbView<S>,
    after: DbView<S>,
    txn: Transaction,
    now: Transaction,
    k: Seq<u8>,
    key: Seq<u8>,
)
    requires
        after == before.with_chain(
            k,
            before.chain(k).push(memtable::new_version(txn.own(), None)),
        ),
        now.wrote(txn, before.txnmgr, k, RecordView::Delete(k)),
    ensures
        did(before, after, txn, now, key, Some((k, None))),
        after.flushing == before.flushing,
        after.vset == before.vset,
        after.store == before.store,
        after.txnmgr == before.txnmgr,
        after.wal == before.wal,
        after.jobs == before.jobs,
{
}

/// An update writes what the function makes of the value that was seen.
pub proof fn lemma_update_is_a_step<S: TableStore, F: Fn(&Vec<u8>) -> Vec<u8>>(
    before: DbView<S>,
    after: DbView<S>,
    txn: Transaction,
    now: Transaction,
    k: Seq<u8>,
    seen: Seq<u8>,
    f: F,
    key: Seq<u8>,
) -> (r: (Vec<u8>, Vec<u8>))
    requires
        before.flush_scheduled().updated_to(after, txn, now, k, seen, f),
    ensures
        call_ensures(f, (&r.0,), r.1),
        r.0@ == seen,
        did(before, after, txn, now, key, Some((k, Some(r.1@)))),
{
    let db = before.flush_scheduled();
    let (arg, value) = choose|arg: Vec<u8>, value: Vec<u8>|
        {
            &&& #[trigger] call_ensures(f, (&arg,), value)
            &&& arg@ == seen
            &&& after == db.with_chain(
                k,
                db.chain(k).push(memtable::new_version(txn.own(), Some(value@))),
            )
            &&& now.wrote(txn, db.txnmgr, k, RecordView::Put(k, value@))
        };
    lemma_put_is_a_step(before, after, txn, now, k, Some(value@), key);
    (arg, value)
}

/// The steps of a run are steps of its transaction.
proof fn lemma_ran_went_through<S: TableStore>(
    dbs: Seq<DbView<S>>,
    states: Seq<Transaction>,
    key: Seq<u8>,
    steps: Seq<Option<(Seq<u8>, Option<Seq<u8>>)>>,
    mode: TransactionMode,
    number: nat,
) -> (managers: Seq<TransactionManager>)
    requires
        ran(dbs, states, key, steps, mode, number),
    ensures
        history::went_through(states, managers, records_of(steps)),
{
    let managers = Seq::new(steps.len(), |i: int| dbs[i].txnmgr);
    let records = records_of(steps);
    assert forall|i: int| 0 <= i < records.len() implies history::step(
        states[i],
        states[i + 1],
        managers[i],
        #[trigger] records[i],
    ) by {
        assert(did(dbs[i], dbs[i + 1], states[i], states[i + 1], key, steps[i]));
    }
    managers
}

/// Every state of a run marks its versions alike.
proof fn lemma_same_own<S: TableStore>(
    dbs: Seq<DbView<S>>,
    states: Seq<Transaction>,
    key: Seq<u8>,
    steps: Seq<Option<(Seq<u8>, Option<Seq<u8>>)>>,
    mode: TransactionMode,
    number: nat,
    i: int,
)
    requires
        ran(dbs, states, key, steps, mode, number),
        0 <= i < states.len(),
    ensures
        states[i].own() == states[0].own(),
    decreases i,
{
    if i > 0 {
        lemma_same_own(dbs, states, key, steps, mode, number, i - 1);
        assert(did(dbs[i - 1], dbs[i], states[i - 1], states[i], key, steps[i - 1]));
    }
}

/// A chain stays while its key is not written.
proof fn lemma_chain_stays<S: TableStore>(
    dbs: Seq<DbView<S>>,
    states: Seq<Transaction>,
    key: Seq<u8>,
    steps: Seq<Option<(Seq<u8>, Option<Seq<u8>>)>>,
    mode: TransactionMode,
    number: nat,
    i: int,
    j: int,
)
    requires
        ran(dbs, states, key, steps, mode, number),
        0 <= i <= j < dbs.len(),
        forall|n: int|
            i <= n < j ==> !((#[trigger] steps[n]) matches Some((k, _)) && k == key),
    ensures
        dbs[j].chain(key) == dbs[i].chain(key),
    decreases j - i,
{
    if i < j {
        lemma_chain_stays(dbs, states, key, steps, mode, number, i, j - 1);
        assert(did(dbs[j - 1], dbs[j], states[j - 1], states[j], key, steps[j - 1]));
    }
}

/// What the last write of a key leaves.
proof fn lemma_last_write<S: TableStore>(
    dbs: Seq<DbView<S>>,
    states: Seq<Transaction>,
    key: Seq<u8>,
    steps: Seq<Option<(Seq<u8>, Option<Seq<u8>>)>>,
    mode: TransactionMode,
    number: nat,
    at: int,
    value: Option<Seq<u8>>,
)
    requires
        ran(dbs, states, key, steps, mode, number),
        0 <= at < steps.len(),
        steps[at] == Some((key, value)),
        forall|n: int|
            at < n < steps.len() ==> !((#[trigger] steps[n]) matches Some((k, _)) && k == key),
    ensures
        dbs.last().chain(key) == dbs[at].chain(key).push(
            memtable::new_version(states.last().own(), value),
        ),
        mode == TransactionMode::Normal ==> states.last().written().contains(key),
        mode == TransactionMode::FastCommit ==> states.last().written()
            == Seq::<Seq<u8>>::empty(),
        !states.last().readonly(),
        states.last().kind() == mode,
        isolation::numbered(states.last(), number),
{
    let managers = lemma_ran_went_through(dbs, states, key, steps, mode, number);
    let records = records_of(steps);
    history::lemma_transaction_holds_write(states, managers, records, mode, number, at);
    history::lemma_transaction_holds_writes(states, managers, records, mode, number);
    lemma_same_own(dbs, states, key, steps, mode, number, at);
    lemma_chain_stays(dbs, states, key, steps, mode, number, at + 1, steps.len() as int);
    assert(did(dbs[at], dbs[at + 1], states[at], states[at + 1], key, steps[at]));
    assert(states.last().start() == Timestamp(number as u64));
    assert(states.last().written().len() == 0 ==> states.last().written() =~= Seq::<
        Seq<u8>,
    >::empty());
}

/// What a transaction put last under a key and committed is read by every transaction that starts
/// later, and each of those may write the key, as long as nothing else is written to it. After a
/// deletion what is in files is read.
pub proof fn lemma_committed_put_is_read<O: KeyOrder, S: TableStore>(
    dbs: Seq<DbView<S>>,
    states: Seq<Transaction>,
    key: Seq<u8>,
    steps: Seq<Option<(Seq<u8>, Option<Seq<u8>>)>>,
    number: nat,
    at: int,
    value: Option<Seq<u8>>,
    after: DbView<S>,
    later: DbView<S>,
    other: Transaction,
    other_number: nat,
)
    requires
        ran(dbs, states, key, steps, TransactionMode::Normal, number),
        0 <= at < steps.len(),
        steps[at] == Some((key, value)),
        forall|n: int|
            at < n < steps.len() ==> !((#[trigger] steps[n]) matches Some((k, _)) && k == key),
        after.committed_from(dbs.last(), states.last()),
        later.chain(key) == after.chain(key),
        0 < dbs.last().txnmgr.counter() < other_number,
        isolation::numbered(other, other_number),
    ensures
        later.visible::<O>(other, key) == match value {
            Some(v) => Some(v),
            None => later.stored::<O>(key),
        },
        !memtable::write_conflict(later.chain(key), later.txnmgr.reader(other)),
{
    let before = dbs.last();
    let txn = states.last();
    lemma_last_write(dbs, states, key, steps, TransactionMode::Normal, number, at, value);
    isolation::lemma_committed_write_is_read::<O, S>(
        before,
        after,
        txn,
        key,
        dbs[at].chain(key),
        value,
        later,
        other,
    );
    let commit = Timestamp(before.txnmgr.counter() as u64);
    assert(before.chain(key).len() > 0);
    assert(before.memory.contains_key(key));
    let now = memtable::stamped(before.chain(key), txn.own(), commit);
    assert(after.chain(key) == now);
    assert(now.last().timestamp == commit);
    assert(rules::reads_as(later.txnmgr.reader(other), other_number)) by {
        transaction::lemma_timestamp_of(TimestampType::Start, other_number);
        transaction::lemma_timestamp_of(TimestampType::Uncommitted, other_number);
    }
    rules::lemma_write_rule(
        later.chain(key),
        later.txnmgr.reader(other),
        other_number,
        before.txnmgr.counter(),
    );
}

/// The first one to commit wins: a transaction may not write over what another one put and
/// committed after it started.
pub proof fn lemma_first_committed_put_wins<S: TableStore>(
    dbs: Seq<DbView<S>>,
    states: Seq<Transaction>,
    key: Seq<u8>,
    steps: Seq<Option<(Seq<u8>, Option<Seq<u8>>)>>,
    number: nat,
    at: int,
    value: Option<Seq<u8>>,
    after: DbView<S>,
    other: Transaction,
    other_number: nat,
)
    requires
        ran(dbs, states, key, steps, TransactionMode::Normal, number),
        0 <= at < steps.len(),
        steps[at] == Some((key, value)),
        forall|n: int|
            at < n < steps.len() ==> !((#[trigger] steps[n]) matches Some((k, _)) && k == key),
        after.committed_from(dbs.last(), states.last()),
        isolation::numbered(other, other_number),
        other_number < dbs.last().txnmgr.counter() < 0x2000_0000_0000_0000,
    ensures
        memtable::write_conflict(after.chain(key), after.txnmgr.reader(other)),
{
    lemma_last_write(dbs, states, key, steps, TransactionMode::Normal, number, at, value);
    isolation::lemma_first_committer_wins(
        dbs.last(),
        after,
        states.last(),
        key,
        dbs[at].chain(key),
        value,
        other,
        other_number,
    );
}

/// What a transaction that leaves its versions marked with its start put last under a key and
/// committed is read by every transaction that takes its snapshot later, and each of those may
/// write the key, as long as nothing else is written to it. After a deletion what is in files is
/// read.
pub proof fn lemma_fast_committed_put_is_read<O: KeyOrder, S: TableStore>(
    dbs: Seq<DbView<S>>,
    states: Seq<Transaction>,
    key: Seq<u8>,
    steps: Seq<Option<(Seq<u8>, Option<Seq<u8>>)>>,
    number: nat,
    at: int,
    value: Option<Seq<u8>>,
    after: DbView<S>,
    other: Transaction,
)
    requires
        ran(dbs, states, key, steps, TransactionMode::FastCommit, number),
        0 <= at < steps.len(),
        steps[at] == Some((key, value)),
        forall|n: int|
            at < n < steps.len() ==> !((#[trigger] steps[n]) matches Some((k, _)) && k == key),
        number < dbs.last().txnmgr.counter(),
        dbs.last().txnmgr.counter() + 1 < 0x2000_0000_0000_0000,
        dbs.last().txnmgr.active().contains(Timestamp(number as u64)),
        dbs.last().txnmgr.wf(),
        after.committed_from(dbs.last(), states.last()),
        after.txnmgr.wf(),
        other.snapshot() is None,
    ensures
        after.visible::<O>(other, key) == match value {
            Some(v) => Some(v),
            None => after.stored::<O>(key),
        },
        !memtable::write_conflict(after.chain(key), after.txnmgr.reader(other)),
{
    lemma_last_write(dbs, states, key, steps, TransactionMode::FastCommit, number, at, value);
    isolation::lemma_fast_commit_is_read::<O, S>(
        dbs.last(),
        after,
        states.last(),
        number,
        key,
        dbs[at].chain(key),
        value,
        other,
    );
    isolation::lemma_fast_commit_may_be_overwritten(
        dbs.last(),
        after,
        states.last(),
        number,
        key,
        dbs[at].chain(key),
        value,
        other,
    );
}

/// What a run appended to the chain of a key: versions of the transaction.
proof fn lemma_chain_grows<S: TableStore>(
    dbs: Seq<DbView<S>>,
    states: Seq<Transaction>,
    key: Seq<u8>,
    steps: Seq<Option<(Seq<u8>, Option<Seq<u8>>)>>,
    mode: TransactionMode,
    number: nat,
    n: int,
) -> (writes: Seq<RedoView>)
    requires
        ran(dbs, states, key, steps, mode, number),
        0 <= n < dbs.len(),
    ensures
        dbs[n].chain(key) == dbs[0].chain(key) + writes,
        forall|i: int|
            0 <= i < writes.len() ==> (#[trigger] writes[i]).timestamp == states[0].own(),
        writes.len() > 0 ==> exists|i: int|
            0 <= i < n && ((#[trigger] steps[i]) matches Some((k, _)) && k == key),
    decreases n,
{
    if n == 0 {
        assert(dbs[0].chain(key) + Seq::<RedoView>::empty() =~= dbs[0].chain(key));
        Seq::empty()
    } else {
        let writes = lemma_chain_grows(dbs, states, key, steps, mode, number, n - 1);
        lemma_same_own(dbs, states, key, steps, mode, number, n - 1);
        assert(did(dbs[n - 1], dbs[n], states[n - 1], states[n], key, steps[n - 1]));
        match steps[n - 1] {
            Some((k, value)) if k == key => {
                let v = memtable::new_version(states[0].own(), value);
                assert(dbs[0].chain(key) + writes.push(v) =~= (dbs[0].chain(key) + writes).push(v));
                assert(steps[n - 1] matches Some((k, _)) && k == key);
                writes.push(v)
            },
            _ => writes,
        }
    }
}

/// Aborting a transaction takes back all that it put: the chain of each key is what it was before
/// the transaction started, and so is what is read of it, if nothing was flushed or compacted
/// meanwhile.
pub proof fn lemma_abort_takes_back_puts<O: KeyOrder, S: TableStore>(
    dbs: Seq<DbView<S>>,
    states: Seq<Transaction>,
    key: Seq<u8>,
    steps: Seq<Option<(Seq<u8>, Option<Seq<u8>>)>>,
    number: nat,
    after: DbView<S>,
    r: Reader,
)
    requires
        ran(dbs, states, key, steps, TransactionMode::Normal, number),
        dbs[0].chain(key).len() > 0 ==> dbs[0].chain(key).last().timestamp != states[0].own(),
        after.aborted_from(dbs.last(), states.last()),
    ensures
        after.chain(key) == dbs[0].chain(key),
        dbs.last().flushing == dbs[0].flushing && dbs.last().store == dbs[0].store
            && dbs.last().vset == dbs[0].vset ==> after.read::<O>(r, key) == dbs[0].read::<O>(
            r,
            key,
        ),
{
    let before = dbs.last();
    let txn = states.last();
    let n = steps.len() as int;
    let mode = TransactionMode::Normal;
    let writes = lemma_chain_grows(dbs, states, key, steps, mode, number, n);
    lemma_same_own(dbs, states, key, steps, mode, number, n);
    if writes.len() > 0 {
        let i = choose|i: int|
            0 <= i < n && ((#[trigger] steps[i]) matches Some((k, _)) && k == key);
        let managers = lemma_ran_went_through(dbs, states, key, steps, mode, number);
        history::lemma_transaction_holds_write(
            states,
            managers,
            records_of(steps),
            mode,
            number,
            i,
        );
        assert(txn.written().contains(key));
    } else {
        assert(before.chain(key) =~= dbs[0].chain(key));
    }
    memtable::lemma_rollback_undoes(dbs[0].chain(key), txn.own(), writes);
    memtable::lemma_rollback_undoes(dbs[0].chain(key), txn.own(), Seq::empty());
    assert(dbs[0].chain(key) + Seq::<RedoView>::empty() =~= dbs[0].chain(key));
    if !before.memory.contains_key(key) {
        assert(before.chain(key).len() == 0);
        assert(dbs[0].chain(key) =~= Seq::<RedoView>::empty());
    }
}

/// Every write that a transaction made and committed is in the files of the log, once the output
/// is taken out and put at their ends: its record is read from where it was appended, behind those
/// of the writes before it and before the one that tells that the transaction committed. Left out
/// are records that were written with one byte left in a page.
pub proof fn lemma_committed_put_is_logged<O: KeyOrder, S: TableStore>(
    states: Seq<Transaction>,
    managers: Seq<TransactionManager>,
    steps: Seq<Option<(Seq<u8>, RecordView)>>,
    mode: TransactionMode,
    number: nat,
    i: int,
    before: DbView<S>,
    after: DbView<S>,
    taken: DbView<S>,
    pieces: Seq<(u32, Seq<u8>)>,
    log: Map<u32, Seq<u8>>,
)
    requires
        0 < number < 0x2000_0000_0000_0000,
        history::went_through(states, managers, steps),
        states[0].fresh(mode, number),
        0 <= i < steps.len(),
        steps[i] is Some,
        before.wf::<O>(),
        before.wal.written_to(log),
        after.committed_from(before, states.last()),
        taken.wf::<O>(),
        taken.wal.taken_from(after.wal, pieces),
    ensures
        exists|at: Wal| #[trigger]
            at.takes_record(
                before.wal,
                all_records(steps, number, before.txnmgr),
                history::writes_of(steps.take(i)).len() as int,
            ) && at.found_in(
                files::put_at_ends(log, pieces),
                log_record::full_encoding(Timestamp(number as u64), (steps[i]->0).1),
            ),
{
    let txn = states.last();
    let records = before.txnmgr.commit_records(txn);
    let n = history::writes_of(steps.take(i)).len() as int;
    history::lemma_transaction_holds_write(states, managers, steps, mode, number, i);
    lemma_commit_records(states, managers, steps, mode, number, before.txnmgr);
    crate::coding::lemma_le_bytes_len(number, 8);
    durability::lemma_commit_is_logged::<O, S>(before, after, txn, n, taken, pieces, log);
}

/// That a transaction committed is in the files of the log, once the output is taken out and put
/// at their ends, behind the records of all its writes. Left out is a record that was written with
/// one byte left in a page.
pub proof fn lemma_commit_mark_is_logged<O: KeyOrder, S: TableStore>(
    states: Seq<Transaction>,
    managers: Seq<TransactionManager>,
    steps: Seq<Option<(Seq<u8>, RecordView)>>,
    mode: TransactionMode,
    number: nat,
    i: int,
    before: DbView<S>,
    after: DbView<S>,
    taken: DbView<S>,
    pieces: Seq<(u32, Seq<u8>)>,
    log: Map<u32, Seq<u8>>,
)
    requires
        0 < number < 0x2000_0000_0000_0000,
        history::went_through(states, managers, steps),
        states[0].fresh(mode, number),
        0 <= i < steps.len(),
        steps[i] is Some,
        before.wf::<O>(),
        before.wal.written_to(log),
        after.committed_from(before, states.last()),
        taken.wf::<O>(),
        taken.wal.taken_from(after.wal, pieces),
    ensures
        exists|at: Wal| #[trigger]
            at.takes_record(
                before.wal,
                all_records(steps, number, before.txnmgr),
                history::writes_of(steps).len() as int,
            ) && at.found_in(
                files::put_at_ends(log, pieces),
                log_record::full_encoding(
                    Timestamp(number as u64),
                    RecordView::Commit(
                        Timestamp(before.txnmgr.counter() as u64),
                        before.txnmgr.cached(),
                    ),
                ),
            ),
{
    let txn = states.last();
    let n = history::writes_of(steps).len() as int;
    history::lemma_transaction_holds_write(states, managers, steps, mode, number, i);
    lemma_commit_records(states, managers, steps, mode, number, before.txnmgr);
    crate::coding::lemma_le_bytes_len(number, 8);
    durability::lemma_commit_is_logged::<O, S>(before, after, txn, n, taken, pieces, log);
}

/// The records of writes in their order, and that the transaction committed.
pub open spec fn all_records(
    steps: Seq<Option<(Seq<u8>, RecordView)>>,
    number: nat,
    mgr: TransactionManager,
) -> Seq<Seq<u8>> {
    let writes = history::writes_of(steps);
    Seq::new(
        writes.len() + 1,
        |i: int|
            log_record::full_encoding(
                Timestamp(number as u64),
                if i < writes.len() {
                    writes[i].1
                } else {
                    RecordView::Commit(Timestamp(mgr.counter() as u64), mgr.cached())
                },
            ),
    )
}

/// What is logged of a transaction that commits are its writes in their order, and that it
/// committed.
pub proof fn lemma_commit_records(
    states: Seq<Transaction>,
    managers: Seq<TransactionManager>,
    steps: Seq<Option<(Seq<u8>, RecordView)>>,
    mode: TransactionMode,
    number: nat,
    mgr: TransactionManager,
)
    requires
        0 < number < 0x2000_0000_0000_0000,
        history::went_through(states, managers, steps),
        states[0].fresh(mode, number),
    ensures
        mgr.commit_records(states.last()) == all_records(steps, number, mgr),
{
    history::lemma_transaction_holds_writes(states, managers, steps, mode, number);
    assert(mgr.commit_records(states.last()) =~= all_records(steps, number, mgr));
}

} // verus!

//! What a transaction holds after all that it did.
use crate::transaction;
use crate::transaction::transaction_manager::TransactionManager;
use crate::transaction::{Timestamp, TimestampType, Transaction, TransactionMode};
use crate::wal::log_record;
use crate::wal::log_record::RecordView;
use vstd::prelude::*;

verus! {

/// Whether a transaction came from one state to another by a step: writing a key, whose log record
/// is given, or reading.
pub open spec fn step(
    before: Transaction,
    after: Transaction,
    mgr: TransactionManager,
    write: Option<(Seq<u8>, RecordView)>,
) -> bool {
    match write {
        Some((key, record)) => after.wrote(before, mgr, key, record),
        None => after.read_from(before, mgr),
    }
}

/// Whether a transaction went through states, each by a step from the one before.
pub open spec fn went_through(
    states: Seq<Transaction>,
    managers: Seq<TransactionManager>,
    steps: Seq<Option<(Seq<u8>, RecordView)>>,
) -> bool {
    &&& states.len() == steps.len() + 1
    &&& managers.len() == steps.len()
    &&& forall|i: int|
        0 <= i < steps.len() ==> step(states[i], states[i + 1], managers[i], #[trigger] steps[i])
}

/// The writes among steps, in their order.
pub open spec fn writes_of(steps: Seq<Option<(Seq<u8>, RecordView)>>) -> Seq<
    (Seq<u8>, RecordView),
>
    decreases steps.len(),
{
    if steps.len() == 0 {
        Seq::empty()
    } else {
        let init = writes_of(steps.drop_last());
        match steps.last() {
            Some(w) => init.push(w),
            None => init,
        }
    }
}

/// A transaction that was just started has its number, and the mark that its mode says for what it
/// writes. It has written nothing, and has no snapshot.
pub proof fn lemma_fresh(txn: Transaction, mode: TransactionMode, number: nat)
    requires
        0 < number < 0x2000_0000_0000_0000,
        txn.fresh(mode, number),
    ensures
        txn.kind() == mode,
        txn.start().0 == number,
        mode == TransactionMode::FastCommit ==> txn.own().0 == 0x4000_0000_0000_0000 + number,
        mode == TransactionMode::Normal ==> txn.own().0 == 0xc000_0000_0000_0000 + number,
        txn.readonly(),
        txn.written().len() == 0,
        txn.staged().len() == 0,
        txn.snapshot() is None,
{
    transaction::lemma_timestamp_of(TimestampType::Start, number);
    transaction::lemma_timestamp_of(TimestampType::Uncommitted, number);
}

/// Each write among steps is among the writes, behind all those that came before it.
pub proof fn lemma_writes_in_order(steps: Seq<Option<(Seq<u8>, RecordView)>>, i: int)
    requires
        0 <= i < steps.len(),
        steps[i] is Some,
    ensures
        writes_of(steps.take(i)).len() < writes_of(steps).len(),
        writes_of(steps)[writes_of(steps.take(i)).len() as int] == steps[i]->0,
    decreases steps.len(),
{
    let init = steps.drop_last();
    if i < steps.len() - 1 {
        lemma_writes_in_order(init, i);
        assert(init.take(i) =~= steps.take(i));
    } else {
        assert(init =~= steps.take(i));
    }
}

/// A write is kept: the transaction is no longer one that only read. A transaction whose versions
/// are marked when it commits has the key among the written ones, behind all that it wrote before,
/// and the log record is the last one, behind all those from before. Nothing else of the
/// transaction changes but that it may have taken a snapshot, if it had none.
pub proof fn lemma_write_is_kept(
    before: Transaction,
    after: Transaction,
    mgr: TransactionManager,
    key: Seq<u8>,
    record: RecordView,
)
    requires
        after.wrote(before, mgr, key, record),
    ensures
        !after.readonly(),
        before.kind() == TransactionMode::Normal ==> after.written().contains(key)
            && after.written().len() == before.written().len() + 1,
        forall|k: Seq<u8>| #[trigger]
            before.written().contains(k) ==> after.written().contains(k),
        before.kind() == TransactionMode::FastCommit ==> after.written() == before.written(),
        after.staged().len() == before.staged().len() + 1,
        after.staged().last() == log_record::full_encoding(before.start(), record),
        after.staged().drop_last() == before.staged(),
        after.kind() == before.kind(),
        after.start() == before.start(),
        after.own() == before.own(),
        before.snapshot() is Some ==> after.snapshot() == before.snapshot(),
        after.snapshot() is Some && before.snapshot() is None ==> after.snapshot() == Some(
            mgr.snapshot_for(before.start()),
        ),
{
    if before.kind() == TransactionMode::Normal {
        assert(after.written().last() == key);
        assert forall|k: Seq<u8>| #[trigger]
            before.written().contains(k) implies after.written().contains(k) by {
            let i = choose|i: int| 0 <= i < before.written().len() && before.written()[i] == k;
            assert(after.written()[i] == k);
        }
    }
}

/// Reading changes nothing of a transaction but that it may have taken a snapshot, if it had none.
pub proof fn lemma_read_keeps(before: Transaction, after: Transaction, mgr: TransactionManager)
    requires
        after.read_from(before, mgr),
    ensures
        after.readonly() == before.readonly(),
        after.written() == before.written(),
        after.staged() == before.staged(),
        after.kind() == before.kind(),
        after.start() == before.start(),
        after.own() == before.own(),
        before.snapshot() is Some ==> after.snapshot() == before.snapshot(),
        after.snapshot() is Some && before.snapshot() is None ==> after.snapshot() == Some(
            mgr.snapshot_for(before.start()),
        ),
{
}

/// After all that it did a transaction that started with a number has that number still. It wrote
/// nothing exactly where no step was a write. The keys of all its writes stand in its list of
/// written ones, in their order, if its versions are marked when it commits, and none else; and
/// the log records of all its writes are staged, in their order.
pub proof fn lemma_transaction_holds_writes(
    states: Seq<Transaction>,
    managers: Seq<TransactionManager>,
    steps: Seq<Option<(Seq<u8>, RecordView)>>,
    mode: TransactionMode,
    number: nat,
)
    requires
        0 < number < 0x2000_0000_0000_0000,
        went_through(states, managers, steps),
        states[0].fresh(mode, number),
    ensures
        states.last().kind() == mode,
        states.last().start().0 == number,
        states.last().own().0 == number + if mode == TransactionMode::FastCommit {
            0x4000_0000_0000_0000int
        } else {
            0xc000_0000_0000_0000int
        },
        states.last().own() == states[0].own(),
        states.last().readonly() <==> (forall|i: int|
            0 <= i < steps.len() ==> (#[trigger] steps[i]) is None),
        mode == TransactionMode::FastCommit ==> states.last().written().len() == 0,
        mode == TransactionMode::Normal ==> states.last().written() == Seq::new(
            writes_of(steps).len(),
            |i: int| writes_of(steps)[i].0,
        ),
        states.last().staged() == Seq::new(
            writes_of(steps).len(),
            |i: int|
                log_record::full_encoding(Timestamp(number as u64), writes_of(steps)[i].1),
        ),
    decreases steps.len(),
{
    transaction::lemma_timestamp_of(TimestampType::Start, number);
    transaction::lemma_timestamp_of(TimestampType::Uncommitted, number);
    if steps.len() > 0 {
        let n = steps.len() - 1;
        let states0 = states.drop_last();
        let managers0 = managers.drop_last();
        let steps0 = steps.drop_last();
        assert forall|i: int| 0 <= i < steps0.len() implies step(
            states0[i],
            states0[i + 1],
            managers0[i],
            #[trigger] steps0[i],
        ) by {
            assert(steps0[i] == steps[i]);
        }
        lemma_transaction_holds_writes(states0, managers0, steps0, mode, number);
        assert(step(states[n], states[n + 1], managers[n], steps[n]));
        assert(states0.last() == states[n]);
        assert(states.last() == states[n + 1]);
        let txn = states.last();
        let before = states[n];
        match steps[n] {
            Some((key, record)) => {
                lemma_write_is_kept(before, txn, managers[n], key, record);
                assert(writes_of(steps) == writes_of(steps0).push((key, record)));
                assert(steps[n] is Some);
                if mode == TransactionMode::Normal {
                    assert(txn.written() =~= Seq::new(
                        writes_of(steps).len(),
                        |i: int| writes_of(steps)[i].0,
                    ));
                } else {
                    assert(txn.written() == before.written());
                }
                assert(txn.staged() =~= before.staged().push(txn.staged().last()));
                assert(txn.staged() =~= Seq::new(
                    writes_of(steps).len(),
                    |i: int|
                        log_record::full_encoding(
                            Timestamp(number as u64),
                            writes_of(steps)[i].1,
                        ),
                ));
            },
            None => {
                lemma_read_keeps(before, txn, managers[n]);
                assert(writes_of(steps) == writes_of(steps0));
                assert(txn.readonly() <==> (forall|i: int|
                    0 <= i < steps.len() ==> (#[trigger] steps[i]) is None)) by {
                    if before.readonly() {
                        assert forall|i: int| 0 <= i < steps.len() implies (
                        #[trigger] steps[i]) is None by {
                            if i < n {
                                assert(steps0[i] is None);
                            }
                        }
                    } else {
                        let i = choose|i: int|
                            0 <= i < steps0.len() && (#[trigger] steps0[i]) is Some;
                        assert(steps[i] is Some);
                    }
                }
            },
        }
    }
}

/// The key of every write that a transaction made is among the written ones, if its versions are
/// marked when it commits, and the log record of it is staged, behind those of the writes before.
pub proof fn lemma_transaction_holds_write(
    states: Seq<Transaction>,
    managers: Seq<TransactionManager>,
    steps: Seq<Option<(Seq<u8>, RecordView)>>,
    mode: TransactionMode,
    number: nat,
    i: int,
)
    requires
        0 < number < 0x2000_0000_0000_0000,
        went_through(states, managers, steps),
        states[0].fresh(mode, number),
        0 <= i < steps.len(),
        steps[i] is Some,
    ensures
        !states.last().readonly(),
        mode == TransactionMode::Normal ==> states.last().written().contains((steps[i]->0).0),
        writes_of(steps.take(i)).len() < states.last().staged().len(),
        states.last().staged()[writes_of(steps.take(i)).len() as int]
            == log_record::full_encoding(Timestamp(number as u64), (steps[i]->0).1),
{
    lemma_transaction_holds_writes(states, managers, steps, mode, number);
    lemma_writes_in_order(steps, i);
    let at = writes_of(steps.take(i)).len() as int;
    if mode == TransactionMode::Normal {
        assert(states.last().written()[at] == (steps[i]->0).0);
    }
}

/// A transaction reads by one snapshot: once it has taken one it keeps it.
pub proof fn lemma_snapshot_is_kept(
    states: Seq<Transaction>,
    managers: Seq<TransactionManager>,
    steps: Seq<Option<(Seq<u8>, RecordView)>>,
    i: int,
    j: int,
)
    requires
        went_through(states, managers, steps),
        0 <= i <= j < states.len(),
        states[i].snapshot() is Some,
    ensures
        states[j].snapshot() == states[i].snapshot(),
        forall|mgr: TransactionManager|
            (#[trigger] mgr.reader(states[j])).snapshot == states[i].snapshot()->0,
    decreases j - i,
{
    if i < j {
        lemma_snapshot_is_kept(states, managers, steps, i, j - 1);
        assert(step(states[j - 1], states[j], managers[j - 1], steps[j - 1]));
        match steps[j - 1] {
            Some((key, record)) => {
                lemma_write_is_kept(states[j - 1], states[j], managers[j - 1], key, record);
            },
            None => {
                lemma_read_keeps(states[j - 1], states[j], managers[j - 1]);
            },
        }
    }
}

} // verus!

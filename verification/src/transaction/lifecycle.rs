//! What the start and the end of a transaction change.
use crate::transaction;
use crate::transaction::transaction_manager::TransactionManager;
use crate::transaction::{
    Timestamp, TimestampType, Transaction, TransactionMode, TransactionStatus,
};
use vstd::prelude::*;

verus! {

/// A transaction that starts gets the next number, which is greater than all that were given out,
/// and is in progress then. All others are in progress or not as before, in the order in which
/// they started.
pub proof fn lemma_start(before: TransactionManager, after: TransactionManager, xid: Timestamp)
    requires
        before.wf(),
        before.counter() < 0x2000_0000_0000_0000,
        after.started_from(before),
    ensures
        ({
            let new = Timestamp(before.counter() as u64);
            &&& after.counter() > before.counter()
            &&& after.active().len() == before.active().len() + 1
            &&& after.active().last() == new
            &&& after.active().contains(xid) <==> before.active().contains(xid) || xid == new
            &&& !before.active().contains(new)
            &&& after.oldest() == before.oldest()
            &&& after.status(xid) == before.status(xid)
            &&& after.latest() == before.latest()
        }),
{
    let new = Timestamp(before.counter() as u64);
    before.lemma_oldest();
    assert(after.active().last() == new);
    if before.active().contains(xid) {
        let i = choose|i: int| 0 <= i < before.active().len() && before.active()[i] == xid;
        assert(after.active()[i] == xid);
    }
    if after.active().contains(xid) {
        let i = choose|i: int| 0 <= i < after.active().len() && after.active()[i] == xid;
        if i < before.active().len() {
            assert(before.active()[i] == xid);
        }
    }
    assert(after.active().contains(new)) by {
        assert(after.active()[after.active().len() - 1] == new);
    }
    if before.active().contains(new) {
        let i = choose|i: int| 0 <= i < before.active().len() && before.active()[i] == new;
        assert(before.active()[i].0 < before.counter());
    }
}

/// A transaction that has ended is no longer in progress, all others are as before, in the order
/// in which they started. The greatest that has ended is that one or the one from before,
/// whichever is greater.
pub proof fn lemma_end(
    before: TransactionManager,
    after: TransactionManager,
    start: Timestamp,
    xid: Timestamp,
)
    requires
        before.wf(),
        start.0 < before.counter(),
        after.ended_from(before, start),
    ensures
        after.active().contains(xid) <==> before.active().contains(xid) && xid != start,
        after.latest().0 == if start.0 > before.latest().0 {
            start.0
        } else {
            before.latest().0
        },
        forall|i: int, j: int|
            0 <= i < j < after.active().len() ==> (#[trigger] after.active()[i]).0 < (
            #[trigger] after.active()[j]).0,
{
    before.lemma_numbers();
    before.lemma_ascending();
    transaction::lemma_before_is_less(before.latest(), start);
    let a = before.active();
    let b = after.active();
    if a.contains(start) {
        let n = a.index_of(start);
        assert(a[n] == start);
        assert forall|i: int| 0 <= i < b.len() implies #[trigger] b[i] == a[if i < n {
            i
        } else {
            i + 1
        }] by {}
        if b.contains(xid) {
            let i = choose|i: int| 0 <= i < b.len() && b[i] == xid;
            let j = if i < n {
                i
            } else {
                i + 1
            };
            assert(a[j] == xid && a[n] == start && j != n);
        }
        if a.contains(xid) && xid != start {
            let i = choose|i: int| 0 <= i < a.len() && a[i] == xid;
            if i < n {
                assert(b[i] == xid);
            } else {
                assert(b[i - 1] == xid);
            }
        }
    }
}

/// A commit takes the next number for itself and ends the transaction. One whose versions keep its
/// start is known to have committed from then on; of no other is anything else known than before.
pub proof fn lemma_commit(
    before: TransactionManager,
    after: TransactionManager,
    txn: Transaction,
    xid: Timestamp,
)
    requires
        before.wf(),
        txn.start().0 < before.counter(),
        after.committed_from(before, txn),
    ensures
        after.counter() == before.counter() + 1,
        after.active().contains(xid) <==> before.active().contains(xid) && xid != txn.start(),
        xid == txn.start() && txn.kind() == TransactionMode::FastCommit ==> after.status(xid)
            == TransactionStatus::Committed,
        xid != txn.start() || txn.kind() == TransactionMode::Normal ==> after.status(xid)
            == before.status(xid),
{
    lemma_end(before, after, txn.start(), xid);
}

/// An abort takes no number and ends the transaction. One whose versions keep its start is known
/// to have aborted from then on; of no other is anything else known than before.
pub proof fn lemma_abort(
    before: TransactionManager,
    after: TransactionManager,
    txn: Transaction,
    xid: Timestamp,
)
    requires
        before.wf(),
        txn.start().0 < before.counter(),
        after.aborted_from(before, txn),
    ensures
        after.counter() == before.counter(),
        after.active().contains(xid) <==> before.active().contains(xid) && xid != txn.start(),
        xid == txn.start() && txn.kind() == TransactionMode::FastCommit ==> after.status(xid)
            == TransactionStatus::Aborted,
        xid != txn.start() || txn.kind() == TransactionMode::Normal ==> after.status(xid)
            == before.status(xid),
{
    lemma_end(before, after, txn.start(), xid);
}

/// The snapshot that a transaction takes lists none but others in progress, from the oldest one on
/// and up to the one behind the greatest that has ended. A transaction keeps the snapshot that it
/// has.
pub proof fn lemma_snapshot(mgr: TransactionManager, txn: Transaction)
    requires
        mgr.wf(),
        mgr.latest().0 + 1 < 0x2000_0000_0000_0000,
    ensures
        txn.snapshot() matches Some(s) ==> mgr.reads_by(txn) == s,
        txn.snapshot() is None ==> mgr.reads_by(txn).max_xid.0 == mgr.latest().0 + 1,
        txn.snapshot() is None && mgr.active().len() > 0 && mgr.active()[0].0 <= mgr.latest().0
            ==> mgr.reads_by(txn).min_xid == mgr.active()[0],
        txn.snapshot() is None && (mgr.active().len() == 0 || mgr.active()[0].0 > mgr.latest().0)
            ==> mgr.reads_by(txn).min_xid.0 == mgr.latest().0 + 1,
        mgr.reader(txn).start == txn.start(),
        mgr.reader(txn).own == txn.own(),
        mgr.reader(txn).snapshot == mgr.reads_by(txn),
{
    mgr.lemma_numbers();
    mgr.lemma_oldest();
    let latest = mgr.latest();
    transaction::lemma_timestamp_of(latest.typ(), latest.raw() + 1);
    let max = latest.next();
    assert(max.0 == latest.0 + 1);
    if mgr.active().len() > 0 {
        assert(mgr.active()[0].0 < mgr.counter());
        transaction::lemma_before_is_less(mgr.active()[0], max);
    }
}

/// Of timestamps of one type each comes before those that are up to half a round of numbers ahead,
/// and before no others.
pub proof fn lemma_half_a_round(a: Timestamp, b: Timestamp, ahead: nat)
    requires
        !a.invalid(),
        !b.invalid(),
        a.typ() == b.typ(),
        ahead < 0x4000_0000_0000_0000,
        b.raw() == a.raw() + ahead || b.raw() + 0x4000_0000_0000_0000 == a.raw() + ahead,
    ensures
        a.before(b) <==> 0 < ahead <= 0x2000_0000_0000_0000,
{
    let d = a.raw() - b.raw();
    if ahead == 0 {
        assert(d % transaction::timestamp_range() == 0);
    } else if d == -ahead {
        assert(d % transaction::timestamp_range() == d + 0x4000_0000_0000_0000);
    } else {
        assert(d == 0x4000_0000_0000_0000 - ahead);
        assert(d % transaction::timestamp_range() == d);
    }
}

/// Of timestamps of different types those of a commit come first, then those of a start, of a
/// start that is known to have committed, and those that are not committed.
pub proof fn lemma_order_of_types(a: Timestamp, b: Timestamp)
    requires
        !a.invalid(),
        !b.invalid(),
        a.0 / 0x4000_0000_0000_0000 != b.0 / 0x4000_0000_0000_0000,
    ensures
        a.before(b) <==> a.0 < b.0,
{
    transaction::lemma_timestamp_parts(a);
    transaction::lemma_timestamp_parts(b);
}

/// The numbers of what became of a transaction, and of the types of timestamps.
pub proof fn lemma_numbers_of_kinds(value: u8)
    ensures
        TransactionStatus::of(value) == match value {
            0 => TransactionStatus::InProgress,
            1 => TransactionStatus::Committed,
            2 => TransactionStatus::Aborted,
            _ => TransactionStatus::Error,
        },
        TimestampType::of(value as nat) == match value {
            0 => TimestampType::Commit,
            1 => TimestampType::Start,
            2 => TimestampType::StartCommitted,
            _ => TimestampType::Uncommitted,
        },
{
}

} // verus!

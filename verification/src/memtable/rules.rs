//! The rules of multi-version reads and writes, in terms of the numbers that transactions start
//! and commit with.
use crate::memtable;
use crate::storage::RedoView;
use crate::transaction;
use crate::transaction::transaction_manager::Reader;
use crate::transaction::{SnapshotView, Timestamp, TimestampType, TransactionStatus};
use vstd::prelude::*;

verus! {

/// Whether a reader is the transaction with a number, in the first half of their range.
pub open spec fn reads_as(r: Reader, number: nat) -> bool {
    &&& 0 < number < 0x2000_0000_0000_0000
    &&& r.start.0 == number
    &&& r.own.0 == 0xc000_0000_0000_0000 + number || r.own.0 == 0x4000_0000_0000_0000 + number
}

/// Whether the bounds of a snapshot are in the first half of the range of numbers.
pub open spec fn bounded(s: SnapshotView) -> bool {
    &&& s.min_xid.0 < 0x2000_0000_0000_0000
    &&& 0 < s.max_xid.0 < 0x2000_0000_0000_0000
}

/// What a version that carries the start of the transaction with a number is marked with while
/// that one is in progress, and once its end was looked up.
pub open spec fn start_marks(number: nat) -> Set<u64> {
    set![
        (0x4000_0000_0000_0000 + number) as u64,
        (0x8000_0000_0000_0000 + number) as u64,
    ]
}

/// A snapshot tells of a number whether the transaction had not ended: all from the upper bound
/// on, none below the lower bound, and in between those that are listed.
pub proof fn lemma_in_progress_rule(s: SnapshotView, c: nat)
    requires
        0 < c < 0x2000_0000_0000_0000,
        bounded(s),
    ensures
        s.in_progress(Timestamp(c as u64)) <==> c >= s.min_xid.0 && (c >= s.max_xid.0
            || s.xips.contains(Timestamp(c as u64))),
{
    transaction::lemma_before_is_less(Timestamp(c as u64), s.min_xid);
    transaction::lemma_before_is_less(Timestamp(c as u64), s.max_xid);
}

/// What the parts of a mark are.
proof fn lemma_marks(c: nat)
    requires
        0 < c < 0x2000_0000_0000_0000,
    ensures
        Timestamp(c as u64).typ() == TimestampType::Commit,
        Timestamp((0x4000_0000_0000_0000 + c) as u64).typ() == TimestampType::Start,
        Timestamp((0x8000_0000_0000_0000 + c) as u64).typ() == TimestampType::StartCommitted,
        Timestamp((0xc000_0000_0000_0000 + c) as u64).typ() == TimestampType::Uncommitted,
        Timestamp((0x4000_0000_0000_0000 + c) as u64).normal() == Timestamp(c as u64),
        Timestamp((0x8000_0000_0000_0000 + c) as u64).normal() == Timestamp(c as u64),
{
}

/// What a transaction may write over, by the number `c` and the mark of the last version of the
/// key: its own version; one that was committed up to its own number, and none that was committed
/// later; no uncommitted one of another; and of those that carry a start, its own and those whose
/// transactions its snapshot does not tell to be in progress. A key without versions may be
/// written.
pub proof fn lemma_write_rule(chain: Seq<RedoView>, r: Reader, number: nat, c: nat)
    requires
        reads_as(r, number),
        0 < c < 0x2000_0000_0000_0000,
    ensures
        chain.len() == 0 ==> !memtable::write_conflict(chain, r),
        chain.len() > 0 ==> {
            let ts = chain.last().timestamp;
            &&& ts == r.own ==> !memtable::write_conflict(chain, r)
            &&& ts.0 == c ==> (memtable::write_conflict(chain, r) <==> c > number)
            &&& ts.0 == 0xc000_0000_0000_0000 + c && ts != r.own ==> memtable::write_conflict(
                chain,
                r,
            )
            &&& bounded(r.snapshot) && start_marks(c).contains(ts.0) ==> (
            memtable::write_conflict(chain, r) <==> c != number && c >= r.snapshot.min_xid.0 && (c
                >= r.snapshot.max_xid.0 || r.snapshot.xips.contains(Timestamp(c as u64))))
        },
{
    lemma_marks(c);
    lemma_marks(number);
    if bounded(r.snapshot) {
        lemma_in_progress_rule(r.snapshot, c);
    }
    transaction::lemma_before_is_less(Timestamp(c as u64), r.start);
    if chain.len() > 0 {
        let ts = chain.last().timestamp;
        if ts.0 == c {
            assert(ts == Timestamp(c as u64));
        }
        if ts.0 == 0x4000_0000_0000_0000 + c {
            assert(ts == Timestamp((0x4000_0000_0000_0000 + c) as u64));
        }
        if ts.0 == 0x8000_0000_0000_0000 + c {
            assert(ts == Timestamp((0x8000_0000_0000_0000 + c) as u64));
        }
        if ts.0 == 0xc000_0000_0000_0000 + c {
            assert(ts == Timestamp((0xc000_0000_0000_0000 + c) as u64));
        }
        if ts == r.own {
            assert(ts == Timestamp((0xc000_0000_0000_0000 + number) as u64) || ts == Timestamp(
                (0x4000_0000_0000_0000 + number) as u64,
            ));
        }
    }
}

/// A write succeeds where nothing stands against it, whatever the numbers are: over a version that
/// the transaction wrote itself, and over one that was committed with its own number or before it
/// started. Over one that was committed later, or that another one wrote that has not committed,
/// it fails.
pub proof fn lemma_write_is_free(chain: Seq<RedoView>, r: Reader)
    requires
        chain.len() > 0,
        !chain.last().timestamp.invalid(),
    ensures
        ({
            let ts = chain.last().timestamp;
            &&& ts == r.own && (ts.typ() == TimestampType::Uncommitted || ts.normal() == r.start)
                && ts.typ() != TimestampType::Commit ==> !memtable::write_conflict(chain, r)
            &&& ts.typ() == TimestampType::Commit ==> (memtable::write_conflict(chain, r) <==> ts
                != r.start && !ts.before(r.start))
            &&& ts.typ() == TimestampType::Uncommitted ==> (memtable::write_conflict(chain, r)
                <==> ts != r.own)
            &&& ts.typ() == TimestampType::Start || ts.typ() == TimestampType::StartCommitted ==> (
            memtable::write_conflict(chain, r) <==> ts.normal() != r.start
                && r.snapshot.in_progress(ts.normal()))
        }),
{
}

/// Which versions a transaction sees, by the number `c` and the mark: its own; those that were
/// committed up to its own number, and none that were committed later; no uncommitted one of
/// another; and of those that carry a start, its own and those whose transactions are known to
/// have committed and that its snapshot does not tell to be in progress.
pub proof fn lemma_sight_rule(ts: Timestamp, r: Reader, number: nat, c: nat)
    requires
        reads_as(r, number),
        0 < c < 0x2000_0000_0000_0000,
    ensures
        ts == r.own ==> r.sees(ts),
        ts.0 == c ==> (r.sees(ts) <==> c <= number),
        ts.0 == 0xc000_0000_0000_0000 + c && ts != r.own ==> !r.sees(ts),
        bounded(r.snapshot) && start_marks(c).contains(ts.0) ==> (r.sees(ts) <==> c == number || (
        r.manager.status(Timestamp(c as u64)) == TransactionStatus::Committed && !(c >= r.snapshot.min_xid.0 && (c
            >= r.snapshot.max_xid.0 || r.snapshot.xips.contains(Timestamp(c as u64)))))),
{
    lemma_marks(c);
    lemma_marks(number);
    if bounded(r.snapshot) {
        lemma_in_progress_rule(r.snapshot, c);
    }
    transaction::lemma_before_is_less(Timestamp(c as u64), r.start);
    if ts.0 == c {
        assert(ts == Timestamp(c as u64));
    }
    if ts.0 == 0x4000_0000_0000_0000 + c {
        assert(ts == Timestamp((0x4000_0000_0000_0000 + c) as u64));
    }
    if ts.0 == 0x8000_0000_0000_0000 + c {
        assert(ts == Timestamp((0x8000_0000_0000_0000 + c) as u64));
    }
    if ts.0 == 0xc000_0000_0000_0000 + c {
        assert(ts == Timestamp((0xc000_0000_0000_0000 + c) as u64));
    }
    if ts == r.own {
        assert(ts == Timestamp((0xc000_0000_0000_0000 + number) as u64) || ts == Timestamp(
            (0x4000_0000_0000_0000 + number) as u64,
        ));
    }
}

/// A transaction reads the last version of a chain that it sees, and nothing where it sees none.
pub proof fn lemma_last_seen_is_read(chain: Seq<RedoView>, r: Reader, i: int)
    requires
        -1 <= i < chain.len(),
        i >= 0 ==> r.sees(chain[i].timestamp),
        forall|j: int| i < j < chain.len() ==> !r.sees((#[trigger] chain[j]).timestamp),
    ensures
        memtable::seen_value(chain, r) == if i >= 0 {
            chain[i].value
        } else {
            None
        },
        memtable::seen_version(chain, r) == if i >= 0 {
            Some(chain[i])
        } else {
            None
        },
    decreases chain.len(),
{
    if chain.len() > 0 && i < chain.len() - 1 {
        let init = chain.drop_last();
        assert(!r.sees(chain[chain.len() - 1].timestamp));
        assert forall|j: int| i < j < init.len() implies !r.sees(
            (#[trigger] init[j]).timestamp,
        ) by {
            assert(init[j] == chain[j]);
        }
        lemma_last_seen_is_read(init, r, i);
    }
}

/// A new version carries what the transaction marks its writes with and the value, and no
/// collection has taken it.
pub proof fn lemma_new_version(ts: Timestamp, value: Option<Seq<u8>>)
    ensures
        memtable::new_version(ts, value).timestamp == ts,
        memtable::new_version(ts, value).value == value,
        memtable::new_version(ts, value).collected.0 == 0,
{
}

/// Marking a chain changes the mark of the versions that have the one, and nothing else.
pub proof fn lemma_stamp_rule(chain: Seq<RedoView>, from: Timestamp, to: Timestamp, i: int)
    requires
        0 <= i < chain.len(),
    ensures
        memtable::stamped(chain, from, to).len() == chain.len(),
        memtable::stamped(chain, from, to)[i].value == chain[i].value,
        memtable::stamped(chain, from, to)[i].collected == chain[i].collected,
        memtable::stamped(chain, from, to)[i].timestamp == if chain[i].timestamp == from {
            to
        } else {
            chain[i].timestamp
        },
{
}

/// Marking and rolling back concern the chains of the given keys; the keys that there are stay.
pub proof fn lemma_all_rule(
    chains: Map<Seq<u8>, Seq<RedoView>>,
    keys: Seq<Seq<u8>>,
    from: Timestamp,
    to: Timestamp,
    k: Seq<u8>,
)
    ensures
        memtable::stamped_all(chains, keys, from, to).contains_key(k) == chains.contains_key(k),
        memtable::rolled_back_all(chains, keys, from).contains_key(k) == chains.contains_key(k),
        chains.contains_key(k) && keys.contains(k) ==> memtable::stamped_all(
            chains,
            keys,
            from,
            to,
        )[k] == memtable::stamped(chains[k], from, to) && memtable::rolled_back_all(
            chains,
            keys,
            from,
        )[k] == memtable::rolled_back(chains[k], from),
        chains.contains_key(k) && !keys.contains(k) ==> memtable::stamped_all(
            chains,
            keys,
            from,
            to,
        )[k] == chains[k] && memtable::rolled_back_all(chains, keys, from)[k] == chains[k],
{
}

/// Rolling back takes the versions of a transaction off the end of a chain, and no other.
pub proof fn lemma_rollback_rule(chain: Seq<RedoView>, own: Timestamp, n: int)
    requires
        0 <= n <= chain.len(),
        n > 0 ==> chain[n - 1].timestamp != own,
        forall|i: int| n <= i < chain.len() ==> (#[trigger] chain[i]).timestamp == own,
    ensures
        memtable::rolled_back(chain, own) == chain.take(n),
{
    let first = chain.take(n);
    assert forall|i: int| 0 <= i < chain.skip(n).len() implies (
    #[trigger] chain.skip(n)[i]).timestamp == own by {
        assert(chain.skip(n)[i] == chain[n + i]);
    }
    memtable::lemma_rollback_undoes(first, own, chain.skip(n));
    assert(first + chain.skip(n) =~= chain);
}

/// Which versions can leave the memory table, by the number `c` and the mark: those that were
/// committed before the oldest transaction in progress, those that carry a start that is older
/// than that by more than the given age, and no uncommitted ones.
pub proof fn lemma_leave_rule(ts: Timestamp, min_xip: Timestamp, age: usize, c: nat)
    requires
        0 < c < 0x2000_0000_0000_0000,
        0 < min_xip.0 < 0x2000_0000_0000_0000,
    ensures
        ts.0 == c ==> (memtable::safe_for_gc(ts, min_xip, age) <==> c < min_xip.0),
        start_marks(c).contains(ts.0) && c + age <= 0x2000_0000_0000_0000 ==> (
        memtable::safe_for_gc(ts, min_xip, age) <==> c + age < min_xip.0),
        ts.0 == 0xc000_0000_0000_0000 + c ==> !memtable::safe_for_gc(ts, min_xip, age),
{
    lemma_marks(c);
    assert(min_xip.raw() == min_xip.0);
    let limit = memtable::freeze_limit(min_xip, age);
    if age < min_xip.0 {
        let number = (min_xip.0 - age) as nat;
        transaction::lemma_timestamp_of(TimestampType::Commit, number);
        assert(limit == Timestamp(number as u64));
        transaction::lemma_before_is_less(Timestamp(c as u64), limit);
    } else if c + age <= 0x2000_0000_0000_0000 {
        let back = age - min_xip.0;
        let number = (-back) % transaction::timestamp_range();
        if back > 0 {
            assert(number == 0x4000_0000_0000_0000 - back);
        }
        transaction::lemma_timestamp_of(TimestampType::Commit, number as nat);
        transaction::lemma_timestamp_of(TimestampType::Commit, 1);
        if back == 0 {
            transaction::lemma_before_is_less(Timestamp(c as u64), Timestamp(1));
            assert(limit == Timestamp(1));
        } else {
            assert(limit.raw() == number);
            assert((c - number) % transaction::timestamp_range() == c + back);
        }
        assert(!Timestamp(c as u64).before(limit));
    }
    if ts.0 == c {
        transaction::lemma_before_is_less(Timestamp(c as u64), min_xip);
        assert(ts == Timestamp(c as u64));
    }
    if ts.0 == 0x4000_0000_0000_0000 + c {
        assert(ts == Timestamp((0x4000_0000_0000_0000 + c) as u64));
    }
    if ts.0 == 0x8000_0000_0000_0000 + c {
        assert(ts == Timestamp((0x8000_0000_0000_0000 + c) as u64));
    }
    if ts.0 == 0xc000_0000_0000_0000 + c {
        assert(ts == Timestamp((0xc000_0000_0000_0000 + c) as u64));
    }
}

/// A snapshot takes the last version of a chain that can leave, unless one took it before, and
/// marks it; the garbage collection after it removes that version and all before it. Where nothing
/// can leave, or the last version that can was taken by another, the snapshot leaves the chain as
/// it is, and the garbage collection removes only what a snapshot for the same transaction took.
pub proof fn lemma_collection_rule(
    chain: Seq<RedoView>,
    min_xip: Timestamp,
    age: usize,
    n: int,
)
    requires
        0 <= n <= chain.len(),
        n > 0 ==> memtable::safe_for_gc(chain[n - 1].timestamp, min_xip, age),
        forall|i: int|
            n <= i < chain.len() ==> !memtable::safe_for_gc(
                (#[trigger] chain[i]).timestamp,
                min_xip,
                age,
            ),
        min_xip.0 != 0,
    ensures
        memtable::is_taken(chain, min_xip, age) <==> n > 0 && chain[n - 1].collected.0 == 0,
        n > 0 && chain[n - 1].collected.0 == 0 ==> {
            &&& memtable::after_snapshot(chain, min_xip, age) == chain.update(
                n - 1,
                RedoView {
                    timestamp: chain[n - 1].timestamp,
                    collected: min_xip,
                    value: chain[n - 1].value,
                },
            )
            &&& memtable::after_flush(chain, min_xip, age) == chain.skip(n)
        },
        n == 0 || chain[n - 1].collected.0 != 0 ==> {
            &&& memtable::after_snapshot(chain, min_xip, age) == chain
            &&& (forall|i: int| 0 <= i < chain.len() ==> (#[trigger] chain[i]).collected != min_xip)
                ==> memtable::after_flush(chain, min_xip, age) == chain
        },
{
    lemma_safe_len_is(chain, min_xip, age, n);
    if memtable::is_taken(chain, min_xip, age) {
        memtable::lemma_taken_leaves(chain, min_xip, age);
    } else if chain.len() > 0 {
        let below = chain.drop_last();
        let m = memtable::safe_len(below, min_xip, age);
        lemma_safe_len_at_most(below, min_xip, age);
        assert(m > 0 ==> chain[m - 1] == below[m - 1]);
        assert(chain.last() == chain[chain.len() - 1]);
    }
}

/// The version that a snapshot takes is the last one that can leave.
pub proof fn lemma_taken_place(chain: Seq<RedoView>, min_xip: Timestamp, age: usize, n: int)
    requires
        0 <= n <= chain.len(),
        n > 0 ==> memtable::safe_for_gc(chain[n - 1].timestamp, min_xip, age),
        forall|i: int|
            n <= i < chain.len() ==> !memtable::safe_for_gc(
                (#[trigger] chain[i]).timestamp,
                min_xip,
                age,
            ),
    ensures
        memtable::safe_len(chain, min_xip, age) == n,
{
    lemma_safe_len_is(chain, min_xip, age, n);
}

proof fn lemma_safe_len_at_most(chain: Seq<RedoView>, min_xip: Timestamp, age: usize)
    ensures
        memtable::safe_len(chain, min_xip, age) <= chain.len(),
    decreases chain.len(),
{
    if chain.len() > 0 {
        lemma_safe_len_at_most(chain.drop_last(), min_xip, age);
    }
}

proof fn lemma_safe_len_is(chain: Seq<RedoView>, min_xip: Timestamp, age: usize, n: int)
    requires
        0 <= n <= chain.len(),
        n > 0 ==> memtable::safe_for_gc(chain[n - 1].timestamp, min_xip, age),
        forall|i: int|
            n <= i < chain.len() ==> !memtable::safe_for_gc(
                (#[trigger] chain[i]).timestamp,
                min_xip,
                age,
            ),
    ensures
        memtable::safe_len(chain, min_xip, age) == n,
    decreases chain.len(),
{
    if chain.len() > 0 && n < chain.len() {
        let init = chain.drop_last();
        assert(!memtable::safe_for_gc(chain[chain.len() - 1].timestamp, min_xip, age));
        assert forall|i: int| n <= i < init.len() implies !memtable::safe_for_gc(
            (#[trigger] init[i]).timestamp,
            min_xip,
            age,
        ) by {
            assert(init[i] == chain[i]);
        }
        lemma_safe_len_is(init, min_xip, age, n);
    }
}

} // verus!

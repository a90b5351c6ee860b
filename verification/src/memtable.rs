//! The memory table.
//!
//! A memory table keeps the versions of each key that were written since it was last flushed.
pub mod hash_memtable;
pub mod memtable_log;
pub mod rules;

use crate::error::Error;
use crate::key::KeyOrder;
use crate::storage::RedoView;
use crate::transaction;
use crate::transaction::transaction_manager::Reader;
use crate::transaction::{Timestamp, TimestampType, Transaction, TransactionManager};
use crate::wal::log_record::RecordView;
use crate::wal::Wal;
use vstd::prelude::*;

pub use crate::memtable::hash_memtable::{HashMemTable, ImmutableHashTable};
pub use crate::memtable::memtable_log::MemTableLogRecord;

verus! {

/// The last version of a chain that a transaction sees. A chain has the oldest version first.
pub open spec fn seen_version(chain: Seq<RedoView>, r: Reader) -> Option<RedoView>
    decreases chain.len(),
{
    if chain.len() == 0 {
        None
    } else if r.sees(chain.last().timestamp) {
        Some(chain.last())
    } else {
        seen_version(chain.drop_last(), r)
    }
}

/// The value that a transaction reads from a chain.
pub open spec fn seen_value(chain: Seq<RedoView>, r: Reader) -> Option<Seq<u8>> {
    match seen_version(chain, r) {
        Some(v) => v.value,
        None => None,
    }
}

/// Whether a transaction may not add a version to a chain.
pub open spec fn write_conflict(chain: Seq<RedoView>, r: Reader) -> bool {
    chain.len() > 0 && r.conflicts(chain.last().timestamp)
}

/// The chain of a key; empty where the table has none.
pub open spec fn chain_of(chains: Map<Seq<u8>, Seq<RedoView>>, key: Seq<u8>) -> Seq<RedoView> {
    if chains.contains_key(key) {
        chains[key]
    } else {
        Seq::empty()
    }
}

/// The version that a transaction adds to a chain.
pub open spec fn new_version(ts: Timestamp, value: Option<Seq<u8>>) -> RedoView {
    RedoView { timestamp: ts, collected: Timestamp(0), value }
}

/// The chain without the latest versions that have the given timestamp.
pub open spec fn rolled_back(chain: Seq<RedoView>, ts: Timestamp) -> Seq<RedoView>
    decreases chain.len(),
{
    if chain.len() > 0 && chain.last().timestamp == ts {
        rolled_back(chain.drop_last(), ts)
    } else {
        chain
    }
}

/// The chain with a timestamp put in place of another.
pub open spec fn stamped(chain: Seq<RedoView>, from: Timestamp, to: Timestamp) -> Seq<RedoView> {
    chain.map_values(
        |v: RedoView|
            if v.timestamp == from {
                RedoView { timestamp: to, ..v }
            } else {
                v
            },
    )
}

/// The chains with a timestamp put in place of another in those of the given keys.
pub open spec fn stamped_all(
    chains: Map<Seq<u8>, Seq<RedoView>>,
    keys: Seq<Seq<u8>>,
    from: Timestamp,
    to: Timestamp,
) -> Map<Seq<u8>, Seq<RedoView>> {
    Map::new(
        |k: Seq<u8>| chains.contains_key(k),
        |k: Seq<u8>|
            if keys.contains(k) {
                stamped(chains[k], from, to)
            } else {
                chains[k]
            },
    )
}

/// The chains without the latest versions of the given keys that have the given timestamp.
pub open spec fn rolled_back_all(
    chains: Map<Seq<u8>, Seq<RedoView>>,
    keys: Seq<Seq<u8>>,
    ts: Timestamp,
) -> Map<Seq<u8>, Seq<RedoView>> {
    Map::new(
        |k: Seq<u8>| chains.contains_key(k),
        |k: Seq<u8>|
            if keys.contains(k) {
                rolled_back(chains[k], ts)
            } else {
                chains[k]
            },
    )
}

/// Marking one more key.
pub proof fn lemma_stamped_step(
    chains: Map<Seq<u8>, Seq<RedoView>>,
    keys: Seq<Seq<u8>>,
    key: Seq<u8>,
    from: Timestamp,
    to: Timestamp,
)
    ensures
        ({
            let before = stamped_all(chains, keys, from, to);
            stamped_all(chains, keys.push(key), from, to) == if before.contains_key(key) {
                before.insert(key, stamped(before[key], from, to))
            } else {
                before
            }
        }),
{
    let before = stamped_all(chains, keys, from, to);
    let after = stamped_all(chains, keys.push(key), from, to);
    lemma_push_contains(keys, key);
    if before.contains_key(key) {
        let c = chains[key];
        assert(stamped(stamped(c, from, to), from, to) =~= stamped(c, from, to));
        assert(after =~= before.insert(key, stamped(before[key], from, to)));
    } else {
        assert(after =~= before);
    }
}

proof fn lemma_push_contains(keys: Seq<Seq<u8>>, key: Seq<u8>)
    ensures
        forall|k: Seq<u8>| #[trigger]
            keys.push(key).contains(k) <==> keys.contains(k) || k == key,
{
    assert forall|k: Seq<u8>| #[trigger]
        keys.push(key).contains(k) <==> keys.contains(k) || k == key by {
        let after = keys.push(key);
        if after.contains(k) {
            let i = choose|i: int| 0 <= i < after.len() && after[i] == k;
            if i < keys.len() {
                assert(keys[i] == k);
            }
        }
        if keys.contains(k) {
            let i = choose|i: int| 0 <= i < keys.len() && keys[i] == k;
            assert(after[i] == k);
        }
        if k == key {
            assert(after[keys.len() as int] == k);
        }
    }
}

proof fn lemma_rolled_back_twice(chain: Seq<RedoView>, ts: Timestamp)
    ensures
        rolled_back(rolled_back(chain, ts), ts) == rolled_back(chain, ts),
    decreases chain.len(),
{
    if chain.len() > 0 && chain.last().timestamp == ts {
        lemma_rolled_back_twice(chain.drop_last(), ts);
    }
}

/// Rolling back one more key.
pub proof fn lemma_rolled_back_step(
    chains: Map<Seq<u8>, Seq<RedoView>>,
    keys: Seq<Seq<u8>>,
    key: Seq<u8>,
    ts: Timestamp,
)
    ensures
        ({
            let before = rolled_back_all(chains, keys, ts);
            rolled_back_all(chains, keys.push(key), ts) == if before.contains_key(key) {
                before.insert(key, rolled_back(before[key], ts))
            } else {
                before
            }
        }),
{
    let before = rolled_back_all(chains, keys, ts);
    let after = rolled_back_all(chains, keys.push(key), ts);
    lemma_push_contains(keys, key);
    if before.contains_key(key) {
        lemma_rolled_back_twice(chains[key], ts);
        assert(after =~= before.insert(key, rolled_back(before[key], ts)));
    } else {
        assert(after =~= before);
    }
}

/// The first start timestamp that is too young to be frozen: the given number of timestamps before
/// the oldest transaction in progress.
pub open spec fn freeze_limit(min_xip: Timestamp, freeze_min_age: usize) -> Timestamp {
    let limit = Timestamp::of(
        TimestampType::Commit,
        ((min_xip.raw() - freeze_min_age) % transaction::timestamp_range()) as nat,
    );
    if limit.invalid() {
        limit.next()
    } else {
        limit
    }
}

/// Whether a version is so old that it can leave the memory table.
pub open spec fn safe_for_gc(ts: Timestamp, min_xip: Timestamp, freeze_min_age: usize) -> bool {
    match ts.typ() {
        TimestampType::Commit => ts.before(min_xip),
        TimestampType::Uncommitted => false,
        _ => ts.normal().before(freeze_limit(min_xip, freeze_min_age)),
    }
}

/// The number of versions up to the last one that can leave the memory table.
pub open spec fn safe_len(chain: Seq<RedoView>, min_xip: Timestamp, freeze_min_age: usize) -> nat
    decreases chain.len(),
{
    if chain.len() == 0 {
        0
    } else if safe_for_gc(chain.last().timestamp, min_xip, freeze_min_age) {
        chain.len()
    } else {
        safe_len(chain.drop_last(), min_xip, freeze_min_age)
    }
}

/// Whether a snapshot takes a version of the chain: the last one that can leave, if none took it
/// before.
pub open spec fn is_taken(chain: Seq<RedoView>, min_xip: Timestamp, freeze_min_age: usize) -> bool {
    let n = safe_len(chain, min_xip, freeze_min_age);
    n > 0 && chain[n - 1].collected.invalid()
}

/// The chain after a snapshot: the version that it took is marked.
pub open spec fn after_snapshot(
    chain: Seq<RedoView>,
    min_xip: Timestamp,
    freeze_min_age: usize,
) -> Seq<RedoView> {
    let n = safe_len(chain, min_xip, freeze_min_age);
    if is_taken(chain, min_xip, freeze_min_age) {
        chain.update(n - 1, RedoView { collected: min_xip, ..chain[n - 1] })
    } else {
        chain
    }
}

/// Whether a version was taken by the snapshot for a transaction.
pub open spec fn taken_by(v: RedoView, min_xip: Timestamp) -> bool {
    v.collected == min_xip
}

/// Whether the whole chain leaves the table: its latest version can leave and was taken.
pub open spec fn chain_leaves(
    chain: Seq<RedoView>,
    min_xip: Timestamp,
    freeze_min_age: usize,
) -> bool {
    chain.len() > 0 && safe_for_gc(chain.last().timestamp, min_xip, freeze_min_age) && taken_by(
        chain.last(),
        min_xip,
    )
}

/// The chain after garbage collection, if it stays: of the versions below the latest one, the last
/// that can leave goes with all before it, if it was taken.
pub open spec fn after_gc(
    chain: Seq<RedoView>,
    min_xip: Timestamp,
    freeze_min_age: usize,
) -> Seq<RedoView> {
    if chain.len() == 0 {
        chain
    } else {
        let n = safe_len(chain.drop_last(), min_xip, freeze_min_age);
        if n > 0 && taken_by(chain[n - 1], min_xip) {
            chain.skip(n as int)
        } else {
            chain
        }
    }
}

/// Hands out the keys of a flushed table with their values, in order; a deleted key has none.
pub trait MemTableIterator<'a>: Sized {
    /// What is still to be handed out.
    spec fn remaining(&self) -> Seq<(Seq<u8>, Option<Seq<u8>>)>;

    fn next(&mut self) -> (r: Option<(&'a Vec<u8>, Option<&'a Vec<u8>>)>)
        ensures
            match r {
                Some((key, value)) => {
                    &&& old(self).remaining().len() > 0
                    &&& final(self).remaining() == old(self).remaining().drop_first()
                    &&& old(self).remaining()[0].0 == key@
                    &&& old(self).remaining()[0].1 == match value {
                        Some(v) => Some(v@),
                        None => None,
                    }
                },
                None => {
                    &&& old(self).remaining().len() == 0
                    &&& final(self).remaining().len() == 0
                },
            },
    ;
}

/// Whether the keys come in strictly ascending order, and each of them is valid.
pub open spec fn sorted_keys<O: KeyOrder>(entries: Seq<(Seq<u8>, Option<Seq<u8>>)>) -> bool {
    &&& forall|i: int| 0 <= i < entries.len() ==> O::valid(#[trigger] entries[i].0)
    &&& forall|i: int, j: int|
        0 <= i < j < entries.len() ==> O::lt(#[trigger] entries[i].0, #[trigger] entries[j].0)
}

/// What was taken from a memory table to be flushed.
pub trait ImmutableMemTable: Sized {
    /// The keys with their values, in order.
    spec fn entries(&self) -> Seq<(Seq<u8>, Option<Seq<u8>>)>;

    fn size(&self) -> (r: usize)
        ensures
            r == self.entries().len(),
    ;

    fn get<O: KeyOrder>(&self, key: &[u8]) -> (r: Result<Option<&Vec<u8>>, Error>)
        requires
            sorted_keys::<O>(self.entries()),
            O::valid(key@),
        ensures
            match r {
                Ok(Some(v)) => self.entries().contains((key@, Some(v@))),
                Ok(None) => forall|v: Seq<u8>| !#[trigger] self.entries().contains((key@, Some(v))),
                Err(_) => false,
            },
    ;
}

/// A table of versions in memory.
pub trait MemTable: Sized {
    type Immutable: ImmutableMemTable;

    /// Whether the table is well formed.
    spec fn wf(&self) -> bool;

    /// The chain of versions of each key, the oldest first.
    spec fn chains(&self) -> Map<Seq<u8>, Seq<RedoView>>;

    fn size(&self) -> (r: usize)
        requires
            self.wf(),
        ensures
            self.chains().dom().finite(),
            r == self.chains().dom().len(),
    ;

    /// The value of a key that a transaction sees.
    fn get(&self, mgr: &TransactionManager, txn: &mut Transaction, key: &[u8]) -> (r: Result<
        Option<Vec<u8>>,
        Error,
    >)
        requires
            self.wf(),
            mgr.wf(),
        ensures
            final(txn).read_from(*old(txn), *mgr),
            ({
                let seen = seen_value(chain_of(self.chains(), key@), mgr.reader(*old(txn)));
                match r {
                    Ok(Some(v)) => seen == Some(v@),
                    Ok(None) => seen is None,
                    Err(_) => false,
                }
            }),
    ;

    /// Gives a key a value.
    fn put(
        &mut self,
        mgr: &TransactionManager,
        wal: &Wal,
        txn: &mut Transaction,
        key: &[u8],
        value: Vec<u8>,
    ) -> (r: Result<bool, Error>)
        requires
            old(self).wf(),
            mgr.wf(),
            old(self).chains().dom().len() < usize::MAX,
        ensures
            final(self).wf(),
            ({
                let chain = chain_of(old(self).chains(), key@);
                if write_conflict(chain, mgr.reader(*old(txn))) {
                    &&& r matches Err(e) && e.is_aborted("ww-conflict detected in put()"@)
                    &&& final(self).chains() == old(self).chains()
                    &&& final(txn).read_from(*old(txn), *mgr)
                } else {
                    &&& r == Ok::<bool, Error>(true)
                    &&& final(self).chains() == old(self).chains().insert(
                        key@,
                        chain.push(new_version(old(txn).own(), Some(value@))),
                    )
                    &&& final(txn).wrote(
                        *old(txn),
                        *mgr,
                        key@,
                        RecordView::Put(key@, value@),
                    )
                }
            }),
    ;

    /// Gives a key the value that a function makes of the one that the transaction sees.
    fn update<F: Fn(&Vec<u8>) -> Vec<u8>>(
        &mut self,
        mgr: &TransactionManager,
        wal: &Wal,
        txn: &mut Transaction,
        key: &[u8],
        f: &F,
    ) -> (r: Result<bool, Error>)
        requires
            old(self).wf(),
            mgr.wf(),
            forall|v: &Vec<u8>| call_requires(*f, (v,)),
        ensures
            final(self).wf(),
            ({
                let chain = chain_of(old(self).chains(), key@);
                let reader = mgr.reader(*old(txn));
                if write_conflict(chain, reader) {
                    &&& r matches Err(e) && e.is_aborted("ww-conflict detected in update()"@)
                    &&& final(self).chains() == old(self).chains()
                    &&& final(txn).read_from(*old(txn), *mgr)
                } else if chain.len() == 0 || chain.last().value is None || seen_value(
                    chain,
                    reader,
                ) is None {
                    &&& r == Ok::<bool, Error>(false)
                    &&& final(self).chains() == old(self).chains()
                    &&& final(txn).read_from(*old(txn), *mgr)
                } else {
                    &&& r == Ok::<bool, Error>(true)
                    &&& exists|seen: Vec<u8>, value: Vec<u8>|
                        {
                            &&& #[trigger] call_ensures(*f, (&seen,), value)
                            &&& seen_value(chain, reader) == Some(seen@)
                            &&& final(self).chains() == old(self).chains().insert(
                                key@,
                                chain.push(new_version(old(txn).own(), Some(value@))),
                            )
                            &&& final(txn).wrote(
                                *old(txn),
                                *mgr,
                                key@,
                                RecordView::Put(key@, value@),
                            )
                        }
                }
            }),
    ;

    /// Deletes a key whose latest version is no deletion.
    fn delete(
        &mut self,
        mgr: &TransactionManager,
        wal: &Wal,
        txn: &mut Transaction,
        key: &[u8],
    ) -> (r: Result<bool, Error>)
        requires
            old(self).wf(),
            mgr.wf(),
        ensures
            final(self).wf(),
            ({
                let chain = chain_of(old(self).chains(), key@);
                if write_conflict(chain, mgr.reader(*old(txn))) {
                    &&& r matches Err(e) && e.is_aborted("ww-conflict detected in delete()"@)
                    &&& final(self).chains() == old(self).chains()
                    &&& final(txn).read_from(*old(txn), *mgr)
                } else if chain.len() == 0 || chain.last().value is None {
                    &&& r == Ok::<bool, Error>(false)
                    &&& final(self).chains() == old(self).chains()
                    &&& final(txn).read_from(*old(txn), *mgr)
                } else {
                    &&& r == Ok::<bool, Error>(true)
                    &&& final(self).chains() == old(self).chains().insert(
                        key@,
                        chain.push(new_version(old(txn).own(), None)),
                    )
                    &&& final(txn).wrote(*old(txn), *mgr, key@, RecordView::Delete(key@))
                }
            }),
    ;

    /// Takes back what a transaction wrote to a key last.
    fn rollback(&mut self, txn: &Transaction, key: &[u8]) -> (r: Result<(), Error>)
        requires
            old(self).wf(),
        ensures
            r is Ok,
            final(self).wf(),
            final(self).chains() == if old(self).chains().contains_key(key@) {
                old(self).chains().insert(
                    key@,
                    rolled_back(old(self).chains()[key@], txn.own()),
                )
            } else {
                old(self).chains()
            },
    ;

    /// Marks what was written to a key with one timestamp with another one.
    fn stamp(&mut self, key: &[u8], from: Timestamp, to: Timestamp)
        requires
            old(self).wf(),
        ensures
            final(self).wf(),
            final(self).chains() == if old(self).chains().contains_key(key@) {
                old(self).chains().insert(key@, stamped(old(self).chains()[key@], from, to))
            } else {
                old(self).chains()
            },
    ;

    /// Takes the latest versions that no transaction needs the memory table for: those that are
    /// older than `min_xip`.
    fn snapshot<O: KeyOrder>(&mut self, min_xip: Timestamp, freeze_min_age: usize) -> (r: Result<
        Self::Immutable,
        Error,
    >)
        requires
            old(self).wf(),
            forall|k: Seq<u8>| #[trigger] old(self).chains().contains_key(k) ==> O::valid(k),
        ensures
            final(self).wf(),
            final(self).chains() == old(self).chains().map_values(
                |c: Seq<RedoView>| after_snapshot(c, min_xip, freeze_min_age),
            ),
            r is Ok,
            sorted_keys::<O>(r->Ok_0.entries()),
            forall|k: Seq<u8>, v: Option<Seq<u8>>| #[trigger]
                r->Ok_0.entries().contains((k, v)) <==> {
                    let chain = chain_of(old(self).chains(), k);
                    &&& is_taken(chain, min_xip, freeze_min_age)
                    &&& v == chain[safe_len(chain, min_xip, freeze_min_age) - 1].value
                },
    ;

    /// Removes the versions that the snapshot for `min_xip` took, and what they hide.
    fn gc(&mut self, min_xip: Timestamp, freeze_min_age: usize) -> (r: Result<(), Error>)
        requires
            old(self).wf(),
        ensures
            r is Ok,
            final(self).wf(),
            forall|k: Seq<u8>| #[trigger]
                final(self).chains().contains_key(k) <==> old(self).chains().contains_key(k)
                    && !chain_leaves(old(self).chains()[k], min_xip, freeze_min_age),
            forall|k: Seq<u8>| #[trigger]
                final(self).chains().contains_key(k) ==> final(self).chains()[k] == after_gc(
                    old(self).chains()[k],
                    min_xip,
                    freeze_min_age,
                ),
    ;

    /// Gives unused memory back.
    fn optimize_space(&mut self)
        requires
            old(self).wf(),
        ensures
            final(self).wf(),
            final(self).chains() == old(self).chains(),
    ;
}

/// A transaction reads what it wrote: after it added a version it sees that version, in whichever
/// way it marks what it writes.
pub proof fn lemma_reads_own_writes(chain: Seq<RedoView>, r: Reader, n: nat, value: Option<Seq<u8>>)
    requires
        0 < n < 0x4000_0000_0000_0000,
        r.start == Timestamp(n as u64),
        r.own == Timestamp::of(TimestampType::Uncommitted, n) || r.own == Timestamp::of(
            TimestampType::Start,
            n,
        ),
    ensures
        seen_value(chain.push(new_version(r.own, value)), r) == value,
{
    transaction::lemma_timestamp_of(TimestampType::Uncommitted, n);
    transaction::lemma_timestamp_of(TimestampType::Start, n);
    let after = chain.push(new_version(r.own, value));
    assert(after.last() == new_version(r.own, value));
}

/// A transaction does not read what another one wrote that has not committed: as long as the
/// versions of the other one are not marked with a commit, it is as if they were not there.
pub proof fn lemma_uncommitted_is_hidden(
    chain: Seq<RedoView>,
    r: Reader,
    other: Timestamp,
    value: Option<Seq<u8>>,
)
    requires
        other.typ() == TimestampType::Uncommitted,
        other != r.own,
    ensures
        seen_value(chain.push(new_version(other, value)), r) == seen_value(chain, r),
        r.conflicts(other),
{
    let after = chain.push(new_version(other, value));
    assert(after.last() == new_version(other, value));
    assert(after.drop_last() =~= chain);
}

/// Rolling back takes back all that a transaction wrote to a key, and nothing else.
pub proof fn lemma_rollback_undoes(chain: Seq<RedoView>, own: Timestamp, writes: Seq<RedoView>)
    requires
        chain.len() > 0 ==> chain.last().timestamp != own,
        forall|i: int| 0 <= i < writes.len() ==> (#[trigger] writes[i]).timestamp == own,
    ensures
        rolled_back(chain + writes, own) == chain,
    decreases writes.len(),
{
    if writes.len() == 0 {
        assert(chain + writes =~= chain);
    } else {
        assert((chain + writes).last() == writes.last());
        assert((chain + writes).drop_last() =~= chain + writes.drop_last());
        lemma_rollback_undoes(chain, own, writes.drop_last());
    }
}

/// What a transaction that committed wrote is seen by every transaction that starts later. All
/// numbers are in the first half of their range.
pub proof fn lemma_committed_is_seen(
    chain: Seq<RedoView>,
    own: Timestamp,
    commit: Timestamp,
    r: Reader,
    value: Option<Seq<u8>>,
)
    requires
        commit.0 <= r.start.0 < 0x2000_0000_0000_0000,
    ensures
        seen_value(stamped(chain.push(new_version(own, value)), own, commit), r) == value,
{
    let after = stamped(chain.push(new_version(own, value)), own, commit);
    assert(after.last() == new_version(commit, value));
    transaction::lemma_before_is_less(commit, r.start);
}

/// A version that can leave the memory table is seen by every transaction that is not older than
/// the oldest one in progress; a version that is marked with the start of its transaction, if that
/// one committed. All numbers are in the first half of their range, and there are more of them than
/// the age from which versions are frozen.
pub proof fn lemma_old_versions_are_seen(
    ts: Timestamp,
    min_xip: Timestamp,
    freeze_min_age: usize,
    r: Reader,
)
    requires
        safe_for_gc(ts, min_xip, freeze_min_age),
        freeze_min_age < min_xip.0 < 0x2000_0000_0000_0000,
        ts.raw() < 0x2000_0000_0000_0000,
        min_xip.0 <= r.start.0 < 0x2000_0000_0000_0000,
        min_xip.0 <= r.snapshot.min_xid.0 < 0x2000_0000_0000_0000,
        ts.typ() != TimestampType::Commit ==> r.manager.status(ts.normal())
            == crate::transaction::TransactionStatus::Committed,
    ensures
        r.sees(ts),
{
    transaction::lemma_timestamp_parts(ts);
    if ts.typ() == TimestampType::Commit {
        transaction::lemma_before_is_less(ts, min_xip);
        transaction::lemma_before_is_less(ts, r.start);
    } else {
        let xid = ts.normal();
        transaction::lemma_timestamp_of(TimestampType::Commit, ts.raw());
        let number = (min_xip.raw() - freeze_min_age) as nat;
        transaction::lemma_timestamp_of(TimestampType::Commit, number);
        let limit = freeze_limit(min_xip, freeze_min_age);
        assert(limit == Timestamp(number as u64));
        transaction::lemma_before_is_less(xid, limit);
        transaction::lemma_before_is_less(xid, r.snapshot.min_xid);
    }
}

proof fn lemma_seen_bounds(chain: Seq<RedoView>, r: Reader, n: nat)
    requires
        n <= chain.len(),
        n > 0 ==> r.sees(chain[n - 1].timestamp),
    ensures
        seen_version(chain.skip(n as int), r) == seen_version(chain, r) || (seen_version(
            chain.skip(n as int),
            r,
        ) is None && n > 0 && seen_version(chain, r) == Some(chain[n - 1])) || n == 0,
    decreases chain.len(),
{
    if n > 0 {
        if chain.len() == n {
            assert(chain.skip(n as int) =~= Seq::<RedoView>::empty());
        } else {
            let rest = chain.skip(n as int);
            assert(rest.last() == chain.last());
            assert(rest.drop_last() =~= chain.drop_last().skip(n as int));
            assert(chain.drop_last()[n - 1] == chain[n - 1]);
            lemma_seen_bounds(chain.drop_last(), r, n);
        }
    }
}

proof fn lemma_safe_len(chain: Seq<RedoView>, min_xip: Timestamp, freeze_min_age: usize)
    ensures
        safe_len(chain, min_xip, freeze_min_age) <= chain.len(),
        safe_len(chain, min_xip, freeze_min_age) > 0 ==> safe_for_gc(
            chain[safe_len(chain, min_xip, freeze_min_age) - 1].timestamp,
            min_xip,
            freeze_min_age,
        ),
    decreases chain.len(),
{
    if chain.len() > 0 && !safe_for_gc(chain.last().timestamp, min_xip, freeze_min_age) {
        lemma_safe_len(chain.drop_last(), min_xip, freeze_min_age);
        let n = safe_len(chain.drop_last(), min_xip, freeze_min_age);
        if n > 0 {
            assert(chain.drop_last()[n - 1] == chain[n - 1]);
        }
    }
}

/// Whether two chains differ in nothing but what took their versions.
spec fn same_versions(a: Seq<RedoView>, b: Seq<RedoView>) -> bool {
    &&& a.len() == b.len()
    &&& forall|i: int|
        0 <= i < a.len() ==> (#[trigger] a[i]).timestamp == b[i].timestamp && a[i].value == b[i].value
}

proof fn lemma_same_versions(a: Seq<RedoView>, b: Seq<RedoView>, r: Reader)
    requires
        same_versions(a, b),
    ensures
        seen_value(a, r) == seen_value(b, r),
        seen_version(a, r) is None == seen_version(b, r) is None,
    decreases a.len(),
{
    if a.len() > 0 {
        assert(a.last().timestamp == b.last().timestamp);
        assert forall|i: int| 0 <= i < a.len() - 1 implies (#[trigger] a.drop_last()[i]).timestamp
            == b.drop_last()[i].timestamp && a.drop_last()[i].value == b.drop_last()[i].value by {
            assert(a[i].timestamp == b[i].timestamp);
        }
        lemma_same_versions(a.drop_last(), b.drop_last(), r);
    }
}

/// A snapshot changes nothing of what a transaction reads from a chain.
pub proof fn lemma_snapshot_keeps_values(
    chain: Seq<RedoView>,
    min_xip: Timestamp,
    freeze_min_age: usize,
    r: Reader,
)
    ensures
        seen_value(after_snapshot(chain, min_xip, freeze_min_age), r) == seen_value(chain, r),
{
    let marked = after_snapshot(chain, min_xip, freeze_min_age);
    lemma_safe_len(chain, min_xip, freeze_min_age);
    assert(same_versions(chain, marked));
    lemma_same_versions(chain, marked, r);
}

/// The chain that a snapshot and the garbage collection after it leave of a chain.
pub open spec fn after_flush(
    chain: Seq<RedoView>,
    min_xip: Timestamp,
    freeze_min_age: usize,
) -> Seq<RedoView> {
    let marked = after_snapshot(chain, min_xip, freeze_min_age);
    if chain_leaves(marked, min_xip, freeze_min_age) {
        Seq::empty()
    } else {
        after_gc(marked, min_xip, freeze_min_age)
    }
}

/// Flushing loses no value: what a transaction read from the memory table before a snapshot and the
/// garbage collection after it, it then reads from the memory table, or it finds nothing there and
/// the snapshot holds the value.
///
/// The transaction sees every version that can leave, and no version was taken for `min_xip`
/// before. Nothing is said of a key that the transaction sees as deleted: a deletion hides what
/// the memory table holds below it, but not what was taken from there.
pub proof fn lemma_flush_keeps_values(
    chain: Seq<RedoView>,
    min_xip: Timestamp,
    freeze_min_age: usize,
    r: Reader,
)
    requires
        forall|i: int|
            0 <= i < chain.len() && safe_for_gc(
                (#[trigger] chain[i]).timestamp,
                min_xip,
                freeze_min_age,
            ) ==> r.sees(chain[i].timestamp),
        forall|i: int| 0 <= i < chain.len() ==> !taken_by(#[trigger] chain[i], min_xip),
        seen_value(chain, r) is Some,
    ensures
        ({
            let rest = after_flush(chain, min_xip, freeze_min_age);
            ||| seen_value(rest, r) == seen_value(chain, r)
            ||| {
                &&& seen_version(rest, r) is None
                &&& is_taken(chain, min_xip, freeze_min_age)
                &&& chain[safe_len(chain, min_xip, freeze_min_age) - 1].value == seen_value(
                    chain,
                    r,
                )
            }
        }),
{
    let marked = after_snapshot(chain, min_xip, freeze_min_age);
    lemma_safe_len(chain, min_xip, freeze_min_age);
    assert(same_versions(chain, marked));
    lemma_same_versions(chain, marked, r);
    lemma_safe_same(chain, marked, min_xip, freeze_min_age);
    let n = safe_len(chain, min_xip, freeze_min_age);
    if chain_leaves(marked, min_xip, freeze_min_age) {
        assert(n == marked.len());
        assert(marked.last() == marked[n - 1]);
        assert(is_taken(chain, min_xip, freeze_min_age));
        assert(chain.last() == chain[n - 1]);
    } else if marked.len() > 0 {
        let below = marked.drop_last();
        let m = safe_len(below, min_xip, freeze_min_age);
        lemma_safe_len(below, min_xip, freeze_min_age);
        if m > 0 && taken_by(marked[m - 1], min_xip) {
            assert(m == n);
            assert(below[m - 1] == marked[m - 1]);
            assert(is_taken(chain, min_xip, freeze_min_age));
            lemma_seen_bounds(marked, r, m);
        }
    }
}

/// What a transaction sees of the last versions of a chain, it sees of the whole chain.
proof fn lemma_seen_suffix(chain: Seq<RedoView>, n: int, r: Reader)
    requires
        0 <= n <= chain.len(),
    ensures
        seen_version(chain.skip(n), r) is Some ==> seen_version(chain.skip(n), r) == seen_version(
            chain,
            r,
        ),
    decreases chain.len(),
{
    if n < chain.len() {
        assert(chain.skip(n).last() == chain.last());
        assert(chain.skip(n).drop_last() =~= chain.drop_last().skip(n));
        lemma_seen_suffix(chain.drop_last(), n, r);
    }
}

/// Flushing brings no value back: where a transaction read nothing from the memory table before a
/// snapshot and the garbage collection after it, it then reads nothing there either.
pub proof fn lemma_flush_adds_no_values(
    chain: Seq<RedoView>,
    min_xip: Timestamp,
    freeze_min_age: usize,
    r: Reader,
)
    requires
        seen_value(chain, r) is None,
    ensures
        seen_value(after_flush(chain, min_xip, freeze_min_age), r) is None,
{
    let marked = after_snapshot(chain, min_xip, freeze_min_age);
    lemma_snapshot_keeps_values(chain, min_xip, freeze_min_age, r);
    if !chain_leaves(marked, min_xip, freeze_min_age) && marked.len() > 0 {
        let n = safe_len(marked.drop_last(), min_xip, freeze_min_age);
        lemma_safe_len(marked.drop_last(), min_xip, freeze_min_age);
        lemma_seen_suffix(marked, n as int, r);
    }
}

/// What a snapshot takes leaves: the garbage collection after it removes the version that was taken
/// and all that it hides, and nothing else.
pub proof fn lemma_taken_leaves(chain: Seq<RedoView>, min_xip: Timestamp, freeze_min_age: usize)
    requires
        is_taken(chain, min_xip, freeze_min_age),
    ensures
        after_flush(chain, min_xip, freeze_min_age) == chain.skip(
            safe_len(chain, min_xip, freeze_min_age) as int,
        ),
{
    let n = safe_len(chain, min_xip, freeze_min_age);
    let marked = after_snapshot(chain, min_xip, freeze_min_age);
    lemma_safe_len(chain, min_xip, freeze_min_age);
    assert(same_versions(chain, marked));
    assert(taken_by(marked[n - 1], min_xip));
    if n < chain.len() {
        let below = marked.drop_last();
        assert forall|i: int| 0 <= i < below.len() implies (#[trigger] below[i]).timestamp
            == chain.drop_last()[i].timestamp && below[i].value == chain.drop_last()[i].value by {
            assert(chain[i].timestamp == marked[i].timestamp);
        }
        assert(chain.last().timestamp == marked.last().timestamp);
        lemma_safe_same(chain.drop_last(), below, min_xip, freeze_min_age);
        if safe_for_gc(chain.last().timestamp, min_xip, freeze_min_age) {
            assert(n == chain.len());
        }
        assert(marked.skip(n as int) =~= chain.skip(n as int));
    } else {
        assert(marked.last() == marked[n - 1]);
        assert(chain.skip(n as int) =~= Seq::<RedoView>::empty());
    }
}

/// How many versions can leave depends on their timestamps alone.
proof fn lemma_safe_same(
    a: Seq<RedoView>,
    b: Seq<RedoView>,
    min_xip: Timestamp,
    freeze_min_age: usize,
)
    requires
        same_versions(a, b),
    ensures
        safe_len(a, min_xip, freeze_min_age) == safe_len(b, min_xip, freeze_min_age),
    decreases a.len(),
{
    if a.len() > 0 {
        assert(a.last().timestamp == b.last().timestamp);
        assert forall|i: int| 0 <= i < a.len() - 1 implies (#[trigger] a.drop_last()[i]).timestamp
            == b.drop_last()[i].timestamp && a.drop_last()[i].value == b.drop_last()[i].value by {
            assert(a[i].timestamp == b[i].timestamp);
        }
        lemma_safe_same(a.drop_last(), b.drop_last(), min_xip, freeze_min_age);
    }
}

} // verus!

//! A memory table that finds keys by their hash.
use crate::error::Error;
use crate::key::{bytes_equal, KeyOrder};
use crate::memtable;
use crate::memtable::{ImmutableMemTable, MemTable, MemTableIterator, MemTableLogRecord};
use crate::storage::{RedoNode, RedoView};
use crate::transaction;
use crate::transaction::{
    Timestamp, TimestampType, Transaction, TransactionManager, TransactionStatus,
};
use crate::wal::Wal;
use vstd::prelude::*;
use vstd::slice::slice_to_vec;

verus! {

#[verifier::external_type_specification]
#[verifier::external_body]
#[verifier::reject_recursive_types(K)]
#[verifier::reject_recursive_types(V)]
#[verifier::reject_recursive_types(H)]
pub struct ExLockFreeMap<K, V, H>(lockfree::map::Map<K, V, H>);

/// The slot that a `lockfree::map::Map` holds for each key.
pub uninterp spec fn lf_slots(m: lockfree::map::Map<Vec<u8>, usize>) -> Map<Seq<u8>, usize>;

/// Calls `lockfree::map::Map::new`: a new map holds nothing.
#[verifier::external_body]
fn lf_new() -> (r: lockfree::map::Map<Vec<u8>, usize>)
    ensures
        lf_slots(r).dom() == Set::<Seq<u8>>::empty(),
{
    lockfree::map::Map::new()
}

/// Calls `lockfree::map::Map::get`: the slot of a key, if the map holds one.
#[verifier::external_body]
fn lf_get(m: &lockfree::map::Map<Vec<u8>, usize>, key: &[u8]) -> (r: Option<usize>)
    ensures
        r == if lf_slots(*m).contains_key(key@) {
            Some(lf_slots(*m)[key@])
        } else {
            None
        },
{
    m.get(key).map(|entry| *entry.val())
}

/// Calls `lockfree::map::Map::insert`: afterwards the map holds the slot for the key, in place of
/// the one that it held before, and all else as before.
#[verifier::external_body]
fn lf_insert(m: &mut lockfree::map::Map<Vec<u8>, usize>, key: Vec<u8>, slot: usize)
    ensures
        lf_slots(*final(m)) == lf_slots(*old(m)).insert(key@, slot),
{
    m.insert(key, slot);
}

/// Calls `lockfree::map::Map::remove`: afterwards the map holds nothing for the key, and all else
/// as before.
#[verifier::external_body]
fn lf_remove(m: &mut lockfree::map::Map<Vec<u8>, usize>, key: &[u8])
    ensures
        lf_slots(*final(m)) == lf_slots(*old(m)).remove(key@),
{
    m.remove(key);
}

/// Calls `lockfree::map::Map::iter`: hands out each key that the map holds once, with its slot, in
/// an order of which nothing is said.
#[verifier::external_body]
fn lf_iter(m: &lockfree::map::Map<Vec<u8>, usize>) -> (r: Vec<(Vec<u8>, usize)>)
    ensures
        forall|i: int|
            0 <= i < r@.len() ==> lf_slots(*m).contains_key((#[trigger] r@[i]).0@)
                && lf_slots(*m)[r@[i].0@] == r@[i].1,
        forall|i: int, j: int|
            0 <= i < j < r@.len() ==> (#[trigger] r@[i]).0@ != (#[trigger] r@[j]).0@,
        forall|k: Seq<u8>| #[trigger]
            lf_slots(*m).contains_key(k) ==> exists|i: int| 0 <= i < r@.len() && (#[trigger] r@[i]).0@ == k,
{
    m.iter().map(|entry| (entry.key().clone(), *entry.val())).collect()
}

/// Calls `lockfree::map::Map::optimize_space`: the map holds what it held before.
#[verifier::external_body]
fn lf_optimize_space(m: &mut lockfree::map::Map<Vec<u8>, usize>)
    ensures
        lf_slots(*final(m)) == lf_slots(*old(m)),
{
    m.optimize_space();
}

/// The keys and values that were taken from a memory table, in order.
pub struct ImmutableHashTable {
    table: Vec<(Vec<u8>, Option<Vec<u8>>)>,
}

/// An entry of a flushed table.
pub open spec fn entry_view(e: (Vec<u8>, Option<Vec<u8>>)) -> (Seq<u8>, Option<Seq<u8>>) {
    (
        e.0@,
        match e.1 {
            Some(v) => Some(v@),
            None => None,
        },
    )
}

impl ImmutableHashTable {
    pub fn new() -> (r: Self)
        ensures
            r.entries() == Seq::<(Seq<u8>, Option<Seq<u8>>)>::empty(),
    {
        let r = Self { table: Vec::new() };
        proof {
            assert(r.entries() =~= Seq::<(Seq<u8>, Option<Seq<u8>>)>::empty());
        }
        r
    }

    /// The number of keys that come before the given one.
    fn position<O: KeyOrder>(&self, key: &[u8]) -> (r: usize)
        requires
            memtable::sorted_keys::<O>(self.entries()),
            O::valid(key@),
        ensures
            r <= self.entries().len(),
            forall|i: int| 0 <= i < r ==> O::lt(#[trigger] self.entries()[i].0, key@),
            forall|i: int|
                r <= i < self.entries().len() ==> !O::lt(#[trigger] self.entries()[i].0, key@),
    {
        let mut low: usize = 0;
        let mut high: usize = self.table.len();
        while low < high
            invariant
                low <= high <= self.entries().len(),
                memtable::sorted_keys::<O>(self.entries()),
                O::valid(key@),
                forall|i: int| 0 <= i < low ==> O::lt(#[trigger] self.entries()[i].0, key@),
                forall|i: int|
                    high <= i < self.entries().len() ==> !O::lt(
                        #[trigger] self.entries()[i].0,
                        key@,
                    ),
            decreases high - low,
        {
            let mid: usize = low + (high - low) / 2;
            assert(self.entries()[mid as int].0 == self.table@[mid as int].0@);
            if O::less(self.table[mid].0.as_slice(), key) {
                proof {
                    assert forall|i: int| 0 <= i < mid + 1 implies O::lt(
                        #[trigger] self.entries()[i].0,
                        key@,
                    ) by {
                        if i < mid {
                            O::transitive(
                                self.entries()[i].0,
                                self.entries()[mid as int].0,
                                key@,
                            );
                        }
                    }
                }
                low = mid + 1;
            } else {
                proof {
                    assert forall|i: int| mid <= i < self.entries().len() implies !O::lt(
                        #[trigger] self.entries()[i].0,
                        key@,
                    ) by {
                        if i > mid && O::lt(self.entries()[i].0, key@) {
                            O::transitive(
                                self.entries()[mid as int].0,
                                self.entries()[i].0,
                                key@,
                            );
                        }
                    }
                }
                high = mid;
            }
        }
        low
    }

    /// Puts a key with its value in the place of the one that was there before.
    pub fn insert<O: KeyOrder>(&mut self, key: Vec<u8>, value: Option<Vec<u8>>)
        requires
            memtable::sorted_keys::<O>(old(self).entries()),
            O::valid(key@),
        ensures
            memtable::sorted_keys::<O>(final(self).entries()),
            forall|k: Seq<u8>, v: Option<Seq<u8>>| #[trigger]
                final(self).entries().contains((k, v)) <==> if k == key@ {
                    v == entry_view((key, value)).1
                } else {
                    old(self).entries().contains((k, v))
                },
    {
        let n = self.position::<O>(key.as_slice());
        let ghost before = self.entries();
        let ghost e = entry_view((key, value));
        if n < self.table.len() && bytes_equal(self.table[n].0.as_slice(), key.as_slice()) {
            let ghost table0 = self.table@;
            self.table.set(n, (key, value));
            proof {
                assert(self.entries() =~= before.update(n as int, e));
                lemma_replaced::<O>(before, n as int, e);
            }
        } else {
            self.table.insert(n, (key, value));
            proof {
                assert(self.entries() =~= before.insert(n as int, e));
                lemma_inserted::<O>(before, n as int, e);
            }
        }
    }

    /// Hands out the entries in order.
    pub fn iter(&self) -> (r: ImmutableHashTableIterator<'_>)
        ensures
            r.remaining() == self.entries(),
    {
        let r = ImmutableHashTableIterator { table: &self.table, pos: 0 };
        proof {
            assert(r.remaining() =~= self.entries());
        }
        r
    }
}

proof fn lemma_replaced<O: KeyOrder>(
    before: Seq<(Seq<u8>, Option<Seq<u8>>)>,
    n: int,
    e: (Seq<u8>, Option<Seq<u8>>),
)
    requires
        memtable::sorted_keys::<O>(before),
        0 <= n < before.len(),
        before[n].0 == e.0,
    ensures
        memtable::sorted_keys::<O>(before.update(n, e)),
        forall|k: Seq<u8>, v: Option<Seq<u8>>| #[trigger]
            before.update(n, e).contains((k, v)) <==> if k == e.0 {
                v == e.1
            } else {
                before.contains((k, v))
            },
{
    let after = before.update(n, e);
    assert forall|i: int| 0 <= i < after.len() implies #[trigger] after[i].0 == before[i].0 by {}
    assert forall|k: Seq<u8>, v: Option<Seq<u8>>| #[trigger]
        after.contains((k, v)) <==> if k == e.0 {
            v == e.1
        } else {
            before.contains((k, v))
        } by {
        if after.contains((k, v)) {
            let i = choose|i: int| 0 <= i < after.len() && after[i] == (k, v);
            if i != n {
                assert(before[i] == (k, v));
                if k == e.0 {
                    O::irreflexive(k);
                    assert(O::lt(before[i].0, before[n].0) || O::lt(before[n].0, before[i].0));
                }
            }
        }
        if k == e.0 && v == e.1 {
            assert(after[n] == (k, v));
        }
        if k != e.0 && before.contains((k, v)) {
            let i = choose|i: int| 0 <= i < before.len() && before[i] == (k, v);
            assert(after[i] == (k, v));
        }
    }
}

proof fn lemma_inserted<O: KeyOrder>(
    before: Seq<(Seq<u8>, Option<Seq<u8>>)>,
    n: int,
    e: (Seq<u8>, Option<Seq<u8>>),
)
    requires
        memtable::sorted_keys::<O>(before),
        O::valid(e.0),
        0 <= n <= before.len(),
        forall|i: int| 0 <= i < n ==> O::lt(#[trigger] before[i].0, e.0),
        forall|i: int| n <= i < before.len() ==> !O::lt(#[trigger] before[i].0, e.0),
        n < before.len() ==> before[n].0 != e.0,
    ensures
        memtable::sorted_keys::<O>(before.insert(n, e)),
        forall|k: Seq<u8>, v: Option<Seq<u8>>| #[trigger]
            before.insert(n, e).contains((k, v)) <==> if k == e.0 {
                v == e.1
            } else {
                before.contains((k, v))
            },
{
    let after = before.insert(n, e);
    assert forall|i: int| n <= i < before.len() implies O::lt(e.0, #[trigger] before[i].0) by {
        O::total(before[n].0, e.0);
        if i > n {
            O::transitive(e.0, before[n].0, before[i].0);
        }
    }
    assert forall|i: int| 0 <= i < after.len() implies #[trigger] after[i] == if i < n {
        before[i]
    } else if i == n {
        e
    } else {
        before[i - 1]
    } by {}
    assert forall|i: int, j: int| 0 <= i < j < after.len() implies O::lt(
        #[trigger] after[i].0,
        #[trigger] after[j].0,
    ) by {
        let a = if i < n {
            i
        } else {
            i - 1
        };
        let b = if j < n {
            j
        } else {
            j - 1
        };
        if i != n && j != n {
            assert(O::lt(before[a].0, before[b].0));
        } else if i == n {
            assert(O::lt(e.0, before[b].0));
        } else {
            assert(O::lt(before[a].0, e.0));
        }
    }
    assert forall|k: Seq<u8>, v: Option<Seq<u8>>| #[trigger]
        after.contains((k, v)) <==> if k == e.0 {
            v == e.1
        } else {
            before.contains((k, v))
        } by {
        if after.contains((k, v)) {
            let i = choose|i: int| 0 <= i < after.len() && after[i] == (k, v);
            if i != n {
                O::irreflexive(e.0);
                let a = if i < n {
                    i
                } else {
                    i - 1
                };
                assert(before[a] == (k, v));
                assert(O::lt(before[a].0, e.0) || O::lt(e.0, before[a].0));
            }
        }
        if k == e.0 && v == e.1 {
            assert(after[n] == (k, v));
        }
        if k != e.0 && before.contains((k, v)) {
            let i = choose|i: int| 0 <= i < before.len() && before[i] == (k, v);
            let b = if i < n {
                i
            } else {
                i + 1
            };
            assert(after[b] == (k, v));
        }
    }
}

impl ImmutableMemTable for ImmutableHashTable {
    closed spec fn entries(&self) -> Seq<(Seq<u8>, Option<Seq<u8>>)> {
        self.table@.map_values(|e: (Vec<u8>, Option<Vec<u8>>)| entry_view(e))
    }

    fn size(&self) -> (r: usize) {
        self.table.len()
    }

    fn get<O: KeyOrder>(&self, key: &[u8]) -> (r: Result<Option<&Vec<u8>>, Error>) {
        let n = self.position::<O>(key);
        if n < self.table.len() && bytes_equal(self.table[n].0.as_slice(), key) {
            assert(self.entries()[n as int] == entry_view(self.table@[n as int]));
            match &self.table[n].1 {
                Some(v) => {
                    proof {
                        assert(self.entries()[n as int] == (key@, Some(v@)));
                    }
                    Ok(Some(v))
                },
                None => {
                    proof {
                        assert forall|v: Seq<u8>| !#[trigger]
                            self.entries().contains((key@, Some(v))) by {
                            if self.entries().contains((key@, Some(v))) {
                                let i = choose|i: int|
                                    0 <= i < self.entries().len() && self.entries()[i] == (
                                        key@,
                                        Some(v),
                                    );
                                O::irreflexive(key@);
                                assert(i == n || O::lt(self.entries()[i].0, self.entries()[n as int].0)
                                    || O::lt(self.entries()[n as int].0, self.entries()[i].0));
                            }
                        }
                    }
                    Ok(None)
                },
            }
        } else {
            proof {
                assert forall|v: Seq<u8>| !#[trigger] self.entries().contains((key@, Some(v))) by {
                    if self.entries().contains((key@, Some(v))) {
                        let i = choose|i: int|
                            0 <= i < self.entries().len() && self.entries()[i] == (key@, Some(v));
                        O::irreflexive(key@);
                        assert(!O::lt(self.entries()[i].0, key@));
                        assert(i >= n);
                        if i > n {
                            assert(self.entries()[n as int].0 == self.table@[n as int].0@);
                            assert(O::lt(self.entries()[n as int].0, self.entries()[i].0));
                        } else {
                            assert(self.entries()[n as int].0 == self.table@[n as int].0@);
                        }
                    }
                }
            }
            Ok(None)
        }
    }
}

/// Hands out the entries of a flushed table in order.
pub struct ImmutableHashTableIterator<'a> {
    table: &'a Vec<(Vec<u8>, Option<Vec<u8>>)>,
    pos: usize,
}

impl<'a> MemTableIterator<'a> for ImmutableHashTableIterator<'a> {
    closed spec fn remaining(&self) -> Seq<(Seq<u8>, Option<Seq<u8>>)> {
        Seq::new(
            if self.pos <= self.table@.len() {
                (self.table@.len() - self.pos) as nat
            } else {
                0
            },
            |i: int| entry_view(self.table@[self.pos + i]),
        )
    }

    fn next(&mut self) -> (r: Option<(&'a Vec<u8>, Option<&'a Vec<u8>>)>) {
        if self.pos < self.table.len() {
            let ghost before = self.remaining();
            let entry = &self.table[self.pos];
            self.pos = self.pos + 1;
            proof {
                assert(self.remaining() =~= before.drop_first());
                assert(before[0] == entry_view(*entry));
            }
            match &entry.1 {
                Some(value) => Some((&entry.0, Some(value))),
                None => Some((&entry.0, None)),
            }
        } else {
            None
        }
    }
}

/// What the versions of a chain say.
pub open spec fn chain_view(chain: Seq<RedoNode>) -> Seq<RedoView> {
    chain.map_values(|n: RedoNode| n@)
}

/// A memory table that finds the versions of a key by its hash.
pub struct HashMemTable {
    /// The slot of each key.
    table: lockfree::map::Map<Vec<u8>, usize>,
    /// The versions of the key of each slot, the oldest first.
    versions: Vec<Vec<RedoNode>>,
    /// The slots that are not in use.
    free: Vec<usize>,
    size: usize,
}

/// A difference that wraps in 64 bits has the low bits of the true one.
proof fn lemma_wrapped_number(raw: int, age: int, number: int)
    requires
        0 <= raw < transaction::timestamp_range(),
        0 <= age <= u64::MAX,
        number == if raw >= age {
            raw - age
        } else {
            raw - age + 0x1_0000_0000_0000_0000
        },
    ensures
        (raw - age) % transaction::timestamp_range() == number % transaction::timestamp_range(),
{
}

impl HashMemTable {
    spec fn slots(self) -> Map<Seq<u8>, usize> {
        lf_slots(self.table)
    }

    /// No two keys have the same slot, and none has a free one.
    pub closed spec fn slots_ok(self) -> bool {
        &&& forall|k: Seq<u8>| #[trigger]
            self.slots().contains_key(k) ==> self.slots()[k] < self.versions@.len()
        &&& forall|a: Seq<u8>, b: Seq<u8>|
            #![trigger self.slots()[a], self.slots()[b]]
            self.slots().contains_key(a) && self.slots().contains_key(b) && a != b
                ==> self.slots()[a] != self.slots()[b]
        &&& forall|i: int|
            0 <= i < self.free@.len() ==> (#[trigger] self.free@[i]) < self.versions@.len()
        &&& forall|i: int, k: Seq<u8>|
            0 <= i < self.free@.len() && self.slots().contains_key(k) ==> #[trigger] self.free@[i]
                != #[trigger] self.slots()[k]
        &&& forall|i: int, j: int|
            0 <= i < j < self.free@.len() ==> #[trigger] self.free@[i] != #[trigger] self.free@[j]
        &&& forall|i: int|
            0 <= i < self.free@.len() ==> self.versions@[(#[trigger] self.free@[i]) as int]@.len()
                == 0
        &&& self.slots().dom().finite()
        &&& self.size == self.slots().dom().len()
    }

    /// The chain of versions of each key.
    pub closed spec fn contents(self) -> Map<Seq<u8>, Seq<RedoView>> {
        Map::new(
            |k: Seq<u8>| self.slots().contains_key(k),
            |k: Seq<u8>| chain_view(self.versions@[self.slots()[k] as int]@),
        )
    }

    pub fn new() -> (r: Self)
        ensures
            r.wf(),
            r.chains() == Map::<Seq<u8>, Seq<RedoView>>::empty(),
    {
        let r = Self { table: lf_new(), versions: Vec::new(), free: Vec::new(), size: 0 };
        proof {
            assert(r.chains() =~= Map::<Seq<u8>, Seq<RedoView>>::empty());
        }
        r
    }

    /// Whether the transaction sees a version that is marked with the start of another one.
    fn check_version_visibility(
        mgr: &TransactionManager,
        txn: &mut Transaction,
        version_ts: Timestamp,
    ) -> (r: Result<bool, Error>)
        requires
            mgr.wf(),
            version_ts.typ() == TimestampType::Start || version_ts.typ()
                == TimestampType::StartCommitted,
        ensures
            r == Ok::<bool, Error>(mgr.reader(*old(txn)).sees(version_ts)),
            final(txn).read_from(*old(txn), *mgr),
    {
        let current_xid = txn.start_timestamp();
        let version_xid = version_ts.normalize();
        let in_progress = mgr.get_snapshot(txn).is_xid_in_progress(version_xid);
        if version_xid == current_xid {
            Ok(true)
        } else if in_progress {
            Ok(false)
        } else {
            match mgr.get_transaction_status(version_xid) {
                Ok(status) => Ok(status == TransactionStatus::Committed),
                Err(e) => Err(e),
            }
        }
    }

    /// The value that the transaction sees in a chain.
    fn get_value(
        mgr: &TransactionManager,
        txn: &mut Transaction,
        chain: &Vec<RedoNode>,
    ) -> (r: Result<Option<Vec<u8>>, Error>)
        requires
            mgr.wf(),
        ensures
            final(txn).read_from(*old(txn), *mgr),
            ({
                let seen = memtable::seen_value(chain_view(chain@), mgr.reader(*old(txn)));
                match r {
                    Ok(Some(v)) => seen == Some(v@),
                    Ok(None) => seen is None,
                    Err(_) => false,
                }
            }),
    {
        let ghost all = chain_view(chain@);
        let ghost reader = mgr.reader(*txn);
        let mut n: usize = chain.len();
        proof {
            assert(all.take(n as int) =~= all);
        }
        while n > 0
            invariant
                n <= chain@.len(),
                mgr.wf(),
                all == chain_view(chain@),
                reader == mgr.reader(*old(txn)),
                txn.read_from(*old(txn), *mgr),
                memtable::seen_version(all.take(n as int), reader) == memtable::seen_version(
                    all,
                    reader,
                ),
            decreases n,
        {
            let delta = &chain[n - 1];
            let delta_ts = delta.load_timestamp();
            proof {
                assert(mgr.reader(*txn) == reader);
                assert(all.take(n as int).drop_last() =~= all.take(n - 1));
                assert(all.take(n as int).last() == delta@);
            }
            let seen = match delta_ts.type_() {
                TimestampType::Commit => !(delta_ts > txn.start_timestamp()),
                TimestampType::Uncommitted => delta_ts == txn.commit_timestamp(),
                TimestampType::Start | TimestampType::StartCommitted => {
                    match Self::check_version_visibility(mgr, txn, delta_ts) {
                        Ok(seen) => seen,
                        Err(e) => {
                            return Err(e);
                        },
                    }
                },
            };
            assert(seen == reader.sees(delta_ts));
            if seen {
                return Ok(delta.value());
            }
            n = n - 1;
        }
        proof {
            assert(all.take(0) =~= Seq::<RedoView>::empty());
        }
        Ok(None)
    }

    /// Whether the transaction may not write over a version.
    fn check_ww_conflict(
        mgr: &TransactionManager,
        txn: &mut Transaction,
        version_ts: Timestamp,
    ) -> (r: Result<bool, Error>)
        requires
            mgr.wf(),
        ensures
            r == Ok::<bool, Error>(mgr.reader(*old(txn)).conflicts(version_ts)),
            final(txn).read_from(*old(txn), *mgr),
    {
        let commit_ts = txn.commit_timestamp();
        let start_ts = txn.start_timestamp();
        match version_ts.type_() {
            TimestampType::Start | TimestampType::StartCommitted => {
                let version_xid = version_ts.normalize();
                Ok(
                    mgr.get_snapshot(txn).is_xid_in_progress(version_xid) && version_xid
                        != start_ts,
                )
            },
            _ => {
                // The version is not valid, or belongs to another transaction in progress, or was
                // written by one that committed after this one started.
                Ok(
                    version_ts.is_invalid() || (!version_ts.is_committed() && commit_ts
                        != version_ts) || (version_ts.is_committed() && version_ts > start_ts),
                )
            },
        }
    }

    /// Whether the latest version of a chain may not be written over.
    fn check_conflict(
        mgr: &TransactionManager,
        txn: &mut Transaction,
        chain: &Vec<RedoNode>,
    ) -> (r: Result<bool, Error>)
        requires
            mgr.wf(),
        ensures
            r == Ok::<bool, Error>(
                memtable::write_conflict(chain_view(chain@), mgr.reader(*old(txn))),
            ),
            final(txn).read_from(*old(txn), *mgr),
    {
        if chain.len() > 0 {
            Self::check_ww_conflict(mgr, txn, chain[chain.len() - 1].load_timestamp())
        } else {
            Ok(false)
        }
    }

    /// The first start timestamp that is too young to be frozen.
    fn freeze_limit(min_xip: Timestamp, freeze_min_age: usize) -> (r: Timestamp)
        ensures
            r == memtable::freeze_limit(min_xip, freeze_min_age),
    {
        let raw: u64 = min_xip.raw_timestamp();
        let number: u64 = raw.wrapping_sub(freeze_min_age as u64);
        proof {
            lemma_wrapped_number(raw as int, freeze_min_age as int, number as int);
        }
        let limit = Timestamp::new(TimestampType::Commit, number);
        if limit.is_invalid() {
            limit.inc()
        } else {
            limit
        }
    }

    /// Whether a version is so old that it can leave the memory table.
    pub fn is_version_safe_for_gc(
        version_ts: Timestamp,
        min_xip: Timestamp,
        freeze_min_age: usize,
    ) -> (r: bool)
        ensures
            r == memtable::safe_for_gc(version_ts, min_xip, freeze_min_age),
    {
        match version_ts.type_() {
            TimestampType::Commit => version_ts < min_xip,
            TimestampType::Uncommitted => false,
            TimestampType::Start | TimestampType::StartCommitted => {
                version_ts.normalize() < Self::freeze_limit(min_xip, freeze_min_age)
            },
        }
    }

    /// The number of versions up to the last one, of the first `len`, that can leave.
    fn safe_count(
        chain: &Vec<RedoNode>,
        len: usize,
        min_xip: Timestamp,
        freeze_min_age: usize,
    ) -> (r: usize)
        requires
            len <= chain@.len(),
        ensures
            r <= len,
            r == memtable::safe_len(
                chain_view(chain@).take(len as int),
                min_xip,
                freeze_min_age,
            ),
    {
        let ghost all = chain_view(chain@);
        let mut n: usize = len;
        while n > 0
            invariant
                n <= len <= chain@.len(),
                all == chain_view(chain@),
                memtable::safe_len(all.take(n as int), min_xip, freeze_min_age)
                    == memtable::safe_len(all.take(len as int), min_xip, freeze_min_age),
            decreases n,
        {
            proof {
                assert(all.take(n as int).drop_last() =~= all.take(n - 1));
                assert(all.take(n as int).last() == chain@[n - 1]@);
            }
            if Self::is_version_safe_for_gc(
                chain[n - 1].load_timestamp(),
                min_xip,
                freeze_min_age,
            ) {
                return n;
            }
            n = n - 1;
        }
        0
    }

    /// Takes the version that can leave, if none took it before.
    fn take_version(chain: &mut Vec<RedoNode>, min_xip: Timestamp, freeze_min_age: usize) -> (r:
        Option<Option<Vec<u8>>>)
        ensures
            chain_view(final(chain)@) == memtable::after_snapshot(
                chain_view(old(chain)@),
                min_xip,
                freeze_min_age,
            ),
            ({
                let all = chain_view(old(chain)@);
                match r {
                    Some(v) => {
                        &&& memtable::is_taken(all, min_xip, freeze_min_age)
                        &&& all[memtable::safe_len(all, min_xip, freeze_min_age) - 1].value
                            == match v {
                            Some(b) => Some(b@),
                            None => None,
                        }
                    },
                    None => !memtable::is_taken(all, min_xip, freeze_min_age),
                }
            }),
    {
        let ghost all = chain_view(chain@);
        let len: usize = chain.len();
        let n = Self::safe_count(chain, len, min_xip, freeze_min_age);
        proof {
            assert(all.take(len as int) =~= all);
        }
        if n == 0 {
            return None;
        }
        let at: usize = n - 1;
        assert(all[at as int] == chain@[at as int]@);
        if !chain[at].try_set_collected(min_xip) {
            proof {
                assert(chain_view(chain@) =~= all);
            }
            return None;
        }
        proof {
            assert(chain_view(chain@) =~= all.update(
                at as int,
                RedoView { collected: min_xip, ..all[at as int] },
            ));
        }
        Some(chain[at].value())
    }

    /// Removes what was taken of a chain, and says whether the whole chain is to leave.
    fn collect_chain(chain: &mut Vec<RedoNode>, min_xip: Timestamp, freeze_min_age: usize) -> (r:
        bool)
        ensures
            r == memtable::chain_leaves(chain_view(old(chain)@), min_xip, freeze_min_age),
            chain_view(final(chain)@) == memtable::after_gc(
                chain_view(old(chain)@),
                min_xip,
                freeze_min_age,
            ),
    {
        let ghost all = chain_view(chain@);
        let len: usize = chain.len();
        if len == 0 {
            return false;
        }
        assert(all.last() == chain@[len - 1]@);
        let version_ts = chain[len - 1].load_timestamp();
        let collected = chain[len - 1].load_collected();
        let n = Self::safe_count(chain, len - 1, min_xip, freeze_min_age);
        proof {
            assert(all.take(len - 1) =~= all.drop_last());
        }
        if n > 0 {
            assert(all[n - 1] == chain@[n - 1]@);
            if chain[n - 1].load_collected() == min_xip {
                let mut rest = chain.split_off(n);
                std::mem::swap(chain, &mut rest);
                proof {
                    assert(chain_view(chain@) =~= all.skip(n as int));
                }
            }
        }
        Self::is_version_safe_for_gc(version_ts, min_xip, freeze_min_age) && collected == min_xip
    }

    /// Puts a chain in the place of the one that a key has.
    fn set_chain(&mut self, key: Ghost<Seq<u8>>, slot: usize, chain: Vec<RedoNode>)
        requires
            old(self).slots_ok(),
            old(self).slots().contains_key(key@),
            old(self).slots()[key@] == slot,
        ensures
            final(self).slots_ok(),
            final(self).slots() == old(self).slots(),
            final(self).chains() == old(self).chains().insert(key@, chain_view(chain@)),
    {
        self.versions.set(slot, chain);
        proof {
            assert(self.chains() =~= old(self).chains().insert(key@, chain_view(chain@)));
        }
    }

    /// Takes the chain of a key out.
    fn take_chain(&mut self, key: Ghost<Seq<u8>>, slot: usize) -> (r: Vec<RedoNode>)
        requires
            old(self).slots_ok(),
            old(self).slots().contains_key(key@),
            old(self).slots()[key@] == slot,
        ensures
            final(self).slots_ok(),
            final(self).slots() == old(self).slots(),
            chain_view(r@) == old(self).chains()[key@],
            final(self).chains() == old(self).chains().insert(key@, Seq::<RedoView>::empty()),
    {
        let mut chain: Vec<RedoNode> = Vec::new();
        std::mem::swap(&mut chain, &mut self.versions[slot]);
        proof {
            assert(chain_view(Seq::<RedoNode>::empty()) =~= Seq::<RedoView>::empty());
            assert(self.chains() =~= old(self).chains().insert(key@, Seq::<RedoView>::empty()));
        }
        chain
    }

    /// Removes a key and its chain.
    fn remove_key(&mut self, key: &[u8], slot: usize)
        requires
            old(self).slots_ok(),
            old(self).slots().contains_key(key@),
            old(self).slots()[key@] == slot,
        ensures
            final(self).slots_ok(),
            final(self).slots() == old(self).slots().remove(key@),
            final(self).chains() == old(self).chains().remove(key@),
    {
        lf_remove(&mut self.table, key);
        self.size = self.size - 1;
        self.versions.set(slot, Vec::new());
        self.free.push(slot);
        proof {
            assert(self.chains() =~= old(self).chains().remove(key@));
        }
    }

    /// Makes an entry for a key that has none.
    fn add_key(&mut self, key: &[u8]) -> (r: usize)
        requires
            old(self).slots_ok(),
            !old(self).slots().contains_key(key@),
            old(self).slots().dom().len() < usize::MAX,
        ensures
            final(self).slots_ok(),
            final(self).slots() == old(self).slots().insert(key@, r),
            final(self).chains() == old(self).chains().insert(key@, Seq::<RedoView>::empty()),
    {
        let slot: usize = match self.free.pop() {
            Some(slot) => slot,
            None => {
                let slot: usize = self.versions.len();
                self.versions.push(Vec::new());
                slot
            },
        };
        lf_insert(&mut self.table, slice_to_vec(key), slot);
        self.size = self.size + 1;
        proof {
            assert(self.versions@[slot as int]@.len() == 0);
            assert(chain_view(self.versions@[slot as int]@) =~= Seq::<RedoView>::empty());
            assert(self.chains() =~= old(self).chains().insert(key@, Seq::<RedoView>::empty()));
        }
        slot
    }

    /// Adds a version to a chain.
    fn push_version(&mut self, key: &[u8], slot: usize, redo: RedoNode)
        requires
            old(self).slots_ok(),
            old(self).slots().contains_key(key@),
            old(self).slots()[key@] == slot,
        ensures
            final(self).slots_ok(),
            final(self).slots() == old(self).slots(),
            final(self).chains() == old(self).chains().insert(
                key@,
                old(self).chains()[key@].push(redo@),
            ),
    {
        let mut chain = self.take_chain(Ghost(key@), slot);
        let ghost before = chain@;
        chain.push(redo);
        proof {
            assert(chain_view(chain@) =~= chain_view(before).push(redo@));
        }
        self.set_chain(Ghost(key@), slot, chain);
        proof {
            assert(self.chains() =~= old(self).chains().insert(
                key@,
                old(self).chains()[key@].push(redo@),
            ));
        }
    }
}

impl MemTable for HashMemTable {
    type Immutable = ImmutableHashTable;

    open spec fn wf(&self) -> bool {
        self.slots_ok()
    }

    open spec fn chains(&self) -> Map<Seq<u8>, Seq<RedoView>> {
        self.contents()
    }

    fn size(&self) -> (r: usize) {
        proof {
            assert(self.chains().dom() =~= self.slots().dom());
        }
        self.size
    }

    fn get(&self, mgr: &TransactionManager, txn: &mut Transaction, key: &[u8]) -> (r: Result<
        Option<Vec<u8>>,
        Error,
    >) {
        match lf_get(&self.table, key) {
            Some(slot) => Self::get_value(mgr, txn, &self.versions[slot]),
            None => Ok(None),
        }
    }

    fn put(
        &mut self,
        mgr: &TransactionManager,
        wal: &Wal,
        txn: &mut Transaction,
        key: &[u8],
        value: Vec<u8>,
    ) -> (r: Result<bool, Error>) {
        let ghost chain = memtable::chain_of(self.chains(), key@);
        let ghost chains0 = self.chains();
        proof {
            assert(self.chains().dom() =~= self.slots().dom());
        }
        let slot: usize = match lf_get(&self.table, key) {
            Some(slot) => slot,
            None => self.add_key(key),
        };
        proof {
            assert(self.slots().contains_key(key@));
            assert(self.chains()[key@] == chain_view(self.versions@[slot as int]@));
            assert(self.chains()[key@] == chain);
        }
        match Self::check_conflict(mgr, txn, &self.versions[slot]) {
            Ok(true) => {
                proof {
                    assert(self.chains() =~= chains0);
                }
                return Err(Error::aborted("ww-conflict detected in put()"));
            },
            Ok(false) => {},
            Err(e) => {
                return Err(e);
            },
        }
        let put_log = MemTableLogRecord::create_put_log(key, value.as_slice());
        let redo = txn.get_insert_redo(value);
        self.push_version(key, slot, redo);
        proof {
            assert(self.chains() =~= chains0.insert(key@, chain.push(redo@)));
        }
        match txn.stage_log_record(wal, &put_log) {
            Ok(_) => {},
            Err(e) => {
                return Err(e);
            },
        }
        txn.add_redo_node(slice_to_vec(key));
        Ok(true)
    }

    fn update<F: Fn(&Vec<u8>) -> Vec<u8>>(
        &mut self,
        mgr: &TransactionManager,
        wal: &Wal,
        txn: &mut Transaction,
        key: &[u8],
        f: &F,
    ) -> (r: Result<bool, Error>) {
        let ghost chain = memtable::chain_of(self.chains(), key@);
        let ghost chains0 = self.chains();
        let ghost reader = mgr.reader(*txn);
        let slot: usize = match lf_get(&self.table, key) {
            Some(slot) => slot,
            None => {
                return Ok(false);
            },
        };
        match Self::check_conflict(mgr, txn, &self.versions[slot]) {
            Ok(true) => {
                return Err(Error::aborted("ww-conflict detected in update()"));
            },
            Ok(false) => {},
            Err(e) => {
                return Err(e);
            },
        }
        assert(mgr.reader(*txn) == reader);
        let len: usize = self.versions[slot].len();
        if len == 0 {
            return Ok(false);
        }
        assert(chain.last() == self.versions@[slot as int]@[len - 1]@);
        if !self.versions[slot][len - 1].is_insert() {
            // The key is deleted.
            return Ok(false);
        }
        let seen = match Self::get_value(mgr, txn, &self.versions[slot]) {
            Ok(Some(value)) => value,
            Ok(None) => {
                return Ok(false);
            },
            Err(e) => {
                return Err(e);
            },
        };
        let value = f(&seen);
        let ghost new_value = value;
        let put_log = MemTableLogRecord::create_put_log(key, value.as_slice());
        let redo = txn.get_insert_redo(value);
        self.push_version(key, slot, redo);
        match txn.stage_log_record(wal, &put_log) {
            Ok(_) => {},
            Err(e) => {
                return Err(e);
            },
        }
        txn.add_redo_node(slice_to_vec(key));
        proof {
            assert(call_ensures(*f, (&seen,), new_value));
        }
        Ok(true)
    }

    fn delete(
        &mut self,
        mgr: &TransactionManager,
        wal: &Wal,
        txn: &mut Transaction,
        key: &[u8],
    ) -> (r: Result<bool, Error>) {
        let ghost chain = memtable::chain_of(self.chains(), key@);
        let slot: usize = match lf_get(&self.table, key) {
            Some(slot) => slot,
            None => {
                return Ok(false);
            },
        };
        match Self::check_conflict(mgr, txn, &self.versions[slot]) {
            Ok(true) => {
                return Err(Error::aborted("ww-conflict detected in delete()"));
            },
            Ok(false) => {},
            Err(e) => {
                return Err(e);
            },
        }
        let len: usize = self.versions[slot].len();
        if len == 0 {
            return Ok(false);
        }
        assert(chain.last() == self.versions@[slot as int]@[len - 1]@);
        if !self.versions[slot][len - 1].is_insert() {
            return Ok(false);
        }
        let delete_log = MemTableLogRecord::create_delete_log(key);
        let redo = txn.get_delete_redo();
        self.push_version(key, slot, redo);
        match txn.stage_log_record(wal, &delete_log) {
            Ok(_) => {},
            Err(e) => {
                return Err(e);
            },
        }
        txn.add_redo_node(slice_to_vec(key));
        Ok(true)
    }

    fn rollback(&mut self, txn: &Transaction, key: &[u8]) -> (r: Result<(), Error>) {
        let slot: usize = match lf_get(&self.table, key) {
            Some(slot) => slot,
            None => {
                return Ok(());
            },
        };
        let mut chain = self.take_chain(Ghost(key@), slot);
        let ghost all = chain_view(chain@);
        let mut len: usize = chain.len();
        while len > 0 && chain[len - 1].load_timestamp() == txn.commit_timestamp()
            invariant
                len == chain@.len(),
                memtable::rolled_back(chain_view(chain@), txn.own()) == memtable::rolled_back(
                    all,
                    txn.own(),
                ),
            decreases len,
        {
            let ghost before = chain_view(chain@);
            proof {
                assert(before.last() == chain@[len - 1]@);
            }
            let _ = chain.pop();
            len = len - 1;
            proof {
                assert(chain_view(chain@) =~= before.drop_last());
            }
        }
        proof {
            if len > 0 {
                assert(chain_view(chain@).last() == chain@[len - 1]@);
            }
        }
        self.set_chain(Ghost(key@), slot, chain);
        proof {
            assert(self.chains() =~= old(self).chains().insert(
                key@,
                memtable::rolled_back(all, txn.own()),
            ));
        }
        Ok(())
    }

    fn stamp(&mut self, key: &[u8], from: Timestamp, to: Timestamp) {
        let slot: usize = match lf_get(&self.table, key) {
            Some(slot) => slot,
            None => {
                return;
            },
        };
        let mut chain = self.take_chain(Ghost(key@), slot);
        let ghost all = chain_view(chain@);
        let len: usize = chain.len();
        let mut i: usize = 0;
        while i < len
            invariant
                i <= len,
                len == chain@.len(),
                len == all.len(),
                forall|j: int|
                    0 <= j < i ==> (#[trigger] chain@[j])@ == memtable::stamped(all, from, to)[j],
                forall|j: int| i <= j < len ==> (#[trigger] chain@[j])@ == all[j],
            decreases len - i,
        {
            if chain[i].load_timestamp() == from {
                chain[i].store_timestamp(to);
            }
            i = i + 1;
        }
        proof {
            assert(chain_view(chain@) =~= memtable::stamped(all, from, to));
        }
        self.set_chain(Ghost(key@), slot, chain);
        proof {
            assert(self.chains() =~= old(self).chains().insert(
                key@,
                memtable::stamped(all, from, to),
            ));
        }
    }

    fn snapshot<O: KeyOrder>(&mut self, min_xip: Timestamp, freeze_min_age: usize) -> (r: Result<
        ImmutableHashTable,
        Error,
    >) {
        let mut imm_table = ImmutableHashTable::new();
        let entries = lf_iter(&self.table);
        let ghost slots0 = self.slots();
        let ghost chains0 = self.chains();
        let size: usize = entries.len();
        let mut i: usize = 0;
        while i < size
            invariant
                i <= size,
                size == entries@.len(),
                self.slots_ok(),
                self.slots() == slots0,
                chains0.dom() == slots0.dom(),
                forall|k: Seq<u8>| #[trigger] chains0.contains_key(k) ==> O::valid(k),
                forall|j: int|
                    0 <= j < size ==> slots0.contains_key((#[trigger] entries@[j]).0@)
                        && slots0[entries@[j].0@] == entries@[j].1,
                forall|j: int, l: int|
                    0 <= j < l < size ==> (#[trigger] entries@[j]).0@ != (
                    #[trigger] entries@[l]).0@,
                forall|j: int|
                    0 <= j < i ==> self.chains()[(#[trigger] entries@[j]).0@]
                        == memtable::after_snapshot(
                        chains0[entries@[j].0@],
                        min_xip,
                        freeze_min_age,
                    ),
                forall|j: int|
                    i <= j < size ==> self.chains()[(#[trigger] entries@[j]).0@]
                        == chains0[entries@[j].0@],
                memtable::sorted_keys::<O>(imm_table.entries()),
                forall|k: Seq<u8>, v: Option<Seq<u8>>| #[trigger]
                    imm_table.entries().contains((k, v)) ==> taken_pair(
                        chains0,
                        min_xip,
                        freeze_min_age,
                        k,
                        v,
                    ) && exists|j: int| 0 <= j < i && (#[trigger] entries@[j]).0@ == k,
                forall|j: int, v: Option<Seq<u8>>|
                    #![trigger imm_table.entries().contains((entries@[j].0@, v))]
                    0 <= j < i && taken_pair(
                        chains0,
                        min_xip,
                        freeze_min_age,
                        entries@[j].0@,
                        v,
                    ) ==> imm_table.entries().contains((entries@[j].0@, v)),
            decreases size - i,
        {
            let slot: usize = entries[i].1;
            let ghost key = entries@[i as int].0@;
            let ghost imm0 = imm_table.entries();
            let ghost now = self.chains();
            assert(chains0.contains_key(key));
            let mut chain = self.take_chain(Ghost(key), slot);
            let taken = Self::take_version(&mut chain, min_xip, freeze_min_age);
            self.set_chain(Ghost(key), slot, chain);
            match taken {
                Some(value) => {
                    imm_table.insert::<O>(slice_to_vec(entries[i].0.as_slice()), value);
                },
                None => {},
            }
            proof {
                assert forall|k: Seq<u8>, v: Option<Seq<u8>>| #[trigger]
                    imm_table.entries().contains((k, v)) implies taken_pair(
                    chains0,
                    min_xip,
                    freeze_min_age,
                    k,
                    v,
                ) && exists|j: int| 0 <= j < i + 1 && (#[trigger] entries@[j]).0@ == k by {
                    if k == key {
                        if taken is None {
                            assert(imm0.contains((k, v)));
                        }
                        assert(entries@[i as int].0@ == k);
                    } else {
                        assert(imm0.contains((k, v)));
                    }
                }
                assert forall|j: int, v: Option<Seq<u8>>|
                    #![trigger imm_table.entries().contains((entries@[j].0@, v))]
                    0 <= j < i + 1 && taken_pair(
                        chains0,
                        min_xip,
                        freeze_min_age,
                        entries@[j].0@,
                        v,
                    ) implies imm_table.entries().contains((entries@[j].0@, v)) by {
                    if j < i {
                        assert(entries@[j].0@ != key);
                        assert(imm0.contains((entries@[j].0@, v)));
                    }
                }
            }
            i = i + 1;
        }
        proof {
            assert(self.chains() =~= chains0.map_values(
                |c: Seq<RedoView>| memtable::after_snapshot(c, min_xip, freeze_min_age),
            )) by {
                assert forall|k: Seq<u8>| #[trigger]
                    chains0.contains_key(k) implies self.chains()[k] == memtable::after_snapshot(
                    chains0[k],
                    min_xip,
                    freeze_min_age,
                ) by {
                    assert(slots0.contains_key(k));
                    let j = choose|j: int| 0 <= j < entries@.len() && (#[trigger] entries@[j]).0@ == k;
                    assert(entries@[j].0@ == k);
                }
            }
            assert forall|k: Seq<u8>, v: Option<Seq<u8>>| #[trigger]
                imm_table.entries().contains((k, v)) <==> taken_pair(
                    chains0,
                    min_xip,
                    freeze_min_age,
                    k,
                    v,
                ) by {
                if taken_pair(chains0, min_xip, freeze_min_age, k, v) {
                    assert(chains0.contains_key(k));
                    assert(slots0.contains_key(k));
                    let j = choose|j: int| 0 <= j < entries@.len() && (#[trigger] entries@[j]).0@ == k;
                    assert(imm_table.entries().contains((entries@[j].0@, v)));
                }
            }
        }
        Ok(imm_table)
    }

    fn gc(&mut self, min_xip: Timestamp, freeze_min_age: usize) -> (r: Result<(), Error>) {
        let entries = lf_iter(&self.table);
        let ghost slots0 = self.slots();
        let ghost chains0 = self.chains();
        let size: usize = entries.len();
        let mut i: usize = 0;
        while i < size
            invariant
                i <= size,
                size == entries@.len(),
                self.slots_ok(),
                chains0.dom() == slots0.dom(),
                self.chains().dom() == self.slots().dom(),
                forall|j: int|
                    0 <= j < size ==> slots0.contains_key((#[trigger] entries@[j]).0@)
                        && slots0[entries@[j].0@] == entries@[j].1,
                forall|j: int, l: int|
                    0 <= j < l < size ==> (#[trigger] entries@[j]).0@ != (
                    #[trigger] entries@[l]).0@,
                forall|k: Seq<u8>| #[trigger]
                    self.slots().contains_key(k) ==> slots0.contains_key(k) && self.slots()[k]
                        == slots0[k],
                forall|j: int|
                    0 <= j < i ==> {
                        let k = (#[trigger] entries@[j]).0@;
                        if memtable::chain_leaves(chains0[k], min_xip, freeze_min_age) {
                            !self.chains().contains_key(k)
                        } else {
                            self.chains().contains_key(k) && self.chains()[k] == memtable::after_gc(
                                chains0[k],
                                min_xip,
                                freeze_min_age,
                            )
                        }
                    },
                forall|j: int|
                    i <= j < size ==> self.chains().contains_key((#[trigger] entries@[j]).0@)
                        && self.chains()[entries@[j].0@] == chains0[entries@[j].0@],
            decreases size - i,
        {
            let slot: usize = entries[i].1;
            let ghost key = entries@[i as int].0@;
            let ghost now = self.chains();
            assert(self.chains().contains_key(key));
            assert(self.slots().contains_key(key));
            let mut chain = self.take_chain(Ghost(key), slot);
            let leaves = Self::collect_chain(&mut chain, min_xip, freeze_min_age);
            if leaves {
                self.remove_key(entries[i].0.as_slice(), slot);
                assert(self.chains() =~= now.remove(key));
            } else {
                self.set_chain(Ghost(key), slot, chain);
                assert(self.chains() =~= now.insert(key, chain_view(chain@)));
            }
            proof {
                assert(self.chains().dom() =~= self.slots().dom());
            }
            i = i + 1;
        }
        proof {
            assert forall|k: Seq<u8>| #[trigger] chains0.contains_key(k) implies exists|j: int|
                0 <= j < size && (#[trigger] entries@[j]).0@ == k by {
                assert(slots0.contains_key(k));
            }
            assert forall|k: Seq<u8>| #[trigger]
                self.chains().contains_key(k) <==> chains0.contains_key(k)
                    && !memtable::chain_leaves(chains0[k], min_xip, freeze_min_age) by {
                if self.chains().contains_key(k) {
                    assert(self.slots().contains_key(k));
                }
                if chains0.contains_key(k) {
                    let j = choose|j: int| 0 <= j < size && (#[trigger] entries@[j]).0@ == k;
                    assert(entries@[j].0@ == k);
                }
            }
            assert forall|k: Seq<u8>| #[trigger] self.chains().contains_key(k) implies self.chains()[k]
                == memtable::after_gc(chains0[k], min_xip, freeze_min_age) by {
                assert(chains0.contains_key(k));
                let j = choose|j: int| 0 <= j < size && (#[trigger] entries@[j]).0@ == k;
                assert(entries@[j].0@ == k);
            }
        }
        Ok(())
    }

    fn optimize_space(&mut self) {
        lf_optimize_space(&mut self.table);
        proof {
            assert(self.chains() =~= old(self).chains());
        }
    }
}

/// Whether a snapshot takes a value for a key.
spec fn taken_pair(
    chains: Map<Seq<u8>, Seq<RedoView>>,
    min_xip: Timestamp,
    freeze_min_age: usize,
    k: Seq<u8>,
    v: Option<Seq<u8>>,
) -> bool {
    let chain = memtable::chain_of(chains, k);
    &&& memtable::is_taken(chain, min_xip, freeze_min_age)
    &&& v == chain[memtable::safe_len(chain, min_xip, freeze_min_age) - 1].value
}

} // verus!

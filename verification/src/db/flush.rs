//! Flushes of the memory table.
//!
//! Several flushes can run at the same time. Each of them collects a table, waits until it is the
//! oldest one that is being collected, clears the memory table, writes the table to a file, and
//! waits until it is the oldest one that is being flushed before it adds the file to level 0.
use crate::db::{Db, DbView};
use crate::db;
use crate::error::Error;
use crate::key;
use crate::key::KeyOrder;
use crate::memtable;
use crate::memtable::{ImmutableHashTable, ImmutableMemTable, MemTable, MemTableIterator};
use crate::storage::RedoView;
use crate::table;
use crate::table::block_table;
use crate::table::{
    BlockTableFactory, FileMeta, TableBuilder, TableFileMeta, TableFileRef, TableStore,
};
use crate::transaction::transaction_manager::Reader;
use crate::transaction::{Timestamp, TransactionManager};
use crate::version;
use crate::version::builder;
use crate::version::compaction;
use crate::version::bounds::TableBounds;
use crate::version::contents;
use crate::version::outputs;
use crate::version::VersionEdit;
use crate::wal::checkpoint;
use crate::wal::checkpoint::ManifestTime;
use crate::wal::segment::LogPointer;
use std::sync::Arc;
use vstd::prelude::*;
use vstd::slice::slice_to_vec;

verus! {

/// A flush under way: a table that was taken from the memory table.
pub struct Flush {
    min_xip: Timestamp,
    min_recovery_point: LogPointer,
    imt: Arc<ImmutableHashTable>,
}

impl Flush {
    /// The transaction that the table is older than.
    pub closed spec fn xip(self) -> Timestamp {
        self.min_xip
    }

    /// Where in the log a recovery starts when the table is in a file.
    pub closed spec fn recovery_point(self) -> LogPointer {
        self.min_recovery_point
    }

    /// The keys of the table with their values, in order.
    pub closed spec fn entries(self) -> Seq<(Seq<u8>, Option<Seq<u8>>)> {
        self.imt.entries()
    }

    /// The transaction that the table is older than.
    pub fn min_xip(&self) -> (r: Timestamp)
        ensures
            r == self.xip(),
    {
        self.min_xip
    }

    /// Where in the log a recovery starts when the table is in a file.
    pub fn min_recovery_point(&self) -> (r: LogPointer)
        ensures
            r == self.recovery_point(),
    {
        self.min_recovery_point
    }

    /// What adding the file of the flush changes.
    pub fn edit(&self, meta: &TableFileMeta) -> (r: VersionEdit)
        ensures
            r@ == contents::flush_edit(self.xip(), meta@),
    {
        let mut edit = VersionEdit::new();
        edit.set_min_xip(self.min_xip);
        edit.add_file(0, meta.clone());
        proof {
            let change = contents::flush_edit(self.xip(), meta@);
            assert(edit@.added =~= change.added);
            assert(edit@.deleted =~= change.deleted);
            assert(edit@.marked =~= change.marked);
        }
        edit
    }

    /// The number of keys.
    pub fn size(&self) -> (r: usize)
        ensures
            r == self.entries().len(),
    {
        self.imt.size()
    }
}

/// The entries that are no deletions.
pub open spec fn live(entries: Seq<(Seq<u8>, Option<Seq<u8>>)>) -> Seq<(Seq<u8>, Seq<u8>)>
    decreases entries.len(),
{
    if entries.len() == 0 {
        Seq::empty()
    } else {
        let init = live(entries.drop_last());
        match entries.last().1 {
            Some(v) => init.push((entries.last().0, v)),
            None => init,
        }
    }
}

/// Each entry that is no deletion stands among all, and the other way round.
proof fn lemma_live_has<O: KeyOrder>(entries: Seq<(Seq<u8>, Option<Seq<u8>>)>)
    requires
        memtable::sorted_keys::<O>(entries),
    ensures
        forall|i: int|
            0 <= i < live(entries).len() ==> entries.contains(
                ((#[trigger] live(entries)[i]).0, Some(live(entries)[i].1)),
            ),
        forall|k: Seq<u8>, v: Seq<u8>| #[trigger]
            entries.contains((k, Some(v))) ==> live(entries).contains((k, v)),
        key::ascending::<O>(live(entries)),
    decreases entries.len(),
{
    if entries.len() > 0 {
        let init = entries.drop_last();
        let last = entries[entries.len() - 1];
        assert forall|i: int| 0 <= i < init.len() implies O::valid(#[trigger] init[i].0) by {
            assert(init[i] == entries[i]);
        }
        assert forall|i: int, j: int| 0 <= i < j < init.len() implies O::lt(
            #[trigger] init[i].0,
            #[trigger] init[j].0,
        ) by {
            assert(init[i] == entries[i] && init[j] == entries[j]);
        }
        lemma_live_has::<O>(init);
        let part = live(init);
        let all = live(entries);
        assert forall|i: int| 0 <= i < all.len() implies entries.contains(
            ((#[trigger] all[i]).0, Some(all[i].1)),
        ) by {
            if i < part.len() {
                assert(all[i] == part[i]);
                let e = (part[i].0, Some(part[i].1));
                let j = choose|j: int| 0 <= j < init.len() && init[j] == e;
                assert(entries[j] == e);
            } else {
                assert(entries[entries.len() - 1] == (all[i].0, Some(all[i].1)));
            }
        }
        assert forall|k: Seq<u8>, v: Seq<u8>| #[trigger]
            entries.contains((k, Some(v))) implies all.contains((k, v)) by {
            let e = (k, Some(v));
            let j = choose|j: int| 0 <= j < entries.len() && entries[j] == e;
            if j < init.len() {
                assert(init[j] == e);
                assert(init.contains(e));
                let i = choose|i: int| 0 <= i < part.len() && part[i] == (k, v);
                assert(all[i] == (k, v));
            } else {
                assert(all[part.len() as int] == (k, v));
            }
        }
        assert forall|i: int, j: int| 0 <= i < j < all.len() implies O::lt(
            #[trigger] all[i].0,
            #[trigger] all[j].0,
        ) by {
            if j < part.len() {
                assert(all[i] == part[i] && all[j] == part[j]);
            } else {
                assert(all[i] == part[i]);
                let e = (part[i].0, Some(part[i].1));
                assert(init.contains(e));
                let x = choose|x: int| 0 <= x < init.len() && init[x] == e;
                assert(entries[x] == e);
                assert(O::lt(entries[x].0, entries[entries.len() - 1].0));
            }
        }
    }
}

/// Looking a key up in entries in order finds its value.
proof fn lemma_lookup_ascending<O: KeyOrder>(
    entries: Seq<(Seq<u8>, Seq<u8>)>,
    k: Seq<u8>,
    v: Seq<u8>,
)
    requires
        key::ascending::<O>(entries),
        O::valid(k),
        entries.contains((k, v)),
    ensures
        table::lookup(entries, k) == Some(v),
    decreases entries.len(),
{
    let n = choose|n: int| 0 <= n < entries.len() && entries[n] == (k, v);
    if n > 0 {
        O::irreflexive(k);
        assert(O::lt(entries[0].0, entries[n].0));
        let rest = entries.drop_first();
        assert forall|i: int, j: int| 0 <= i < j < rest.len() implies O::lt(
            #[trigger] rest[i].0,
            #[trigger] rest[j].0,
        ) by {
            assert(rest[i] == entries[i + 1] && rest[j] == entries[j + 1]);
        }
        assert(rest[n - 1] == (k, v));
        lemma_lookup_ascending::<O>(rest, k, v);
    }
}

proof fn lemma_lookup_none(entries: Seq<(Seq<u8>, Seq<u8>)>, k: Seq<u8>)
    requires
        forall|i: int| 0 <= i < entries.len() ==> (#[trigger] entries[i]).0 != k,
    ensures
        table::lookup(entries, k) is None,
    decreases entries.len(),
{
    if entries.len() > 0 {
        let rest = entries.drop_first();
        assert forall|i: int| 0 <= i < rest.len() implies (#[trigger] rest[i]).0 != k by {
            assert(rest[i] == entries[i + 1]);
        }
        lemma_lookup_none(rest, k);
    }
}

/// The table of what is no deletion holds the same values.
proof fn lemma_live_value<O: KeyOrder>(entries: Seq<(Seq<u8>, Option<Seq<u8>>)>, k: Seq<u8>)
    requires
        memtable::sorted_keys::<O>(entries),
        O::valid(k),
    ensures
        table::lookup(live(entries), k) == db::held(entries, k),
{
    lemma_live_has::<O>(entries);
    let all = live(entries);
    match db::held(entries, k) {
        Some(v) => {
            assert(entries.contains((k, Some(v))));
            lemma_lookup_ascending::<O>(all, k, v);
        },
        None => {
            assert forall|i: int| 0 <= i < all.len() implies (#[trigger] all[i]).0 != k by {
                assert(entries.contains((all[i].0, Some(all[i].1))));
            }
            lemma_lookup_none(all, k);
        },
    }
}

/// Whether a file holds a table that was flushed, and its description is right.
pub open spec fn flushed_file(
    files: Map<TableFileRef, Seq<u8>>,
    meta: FileMeta,
    min_xip: Timestamp,
    entries: Seq<(Seq<u8>, Option<Seq<u8>>)>,
) -> bool {
    &&& entries.len() > 0
    &&& files.contains_key(meta.file_ref)
    &&& block_table::is_table(files[meta.file_ref])
    &&& block_table::table_entries(files[meta.file_ref]) == live(entries)
    &&& meta.size == files[meta.file_ref].len()
    &&& meta.min_xip == min_xip
    &&& meta.infimum == entries[0].0
    &&& meta.supremum == entries.last().0
    &&& !meta.being_compacted
}

/// A file with a table that was flushed is sound.
pub proof fn lemma_flushed_sound<O: KeyOrder>(
    files: Map<TableFileRef, Seq<u8>>,
    meta: FileMeta,
    min_xip: Timestamp,
    entries: Seq<(Seq<u8>, Option<Seq<u8>>)>,
)
    requires
        flushed_file(files, meta, min_xip, entries),
        db::entries_sound::<O>(entries),
        min_xip.0 < 0x2000_0000_0000_0000,
    ensures
        contents::file_sound::<O>(files, meta),
{
    lemma_live_has::<O>(entries);
    let all = live(entries);
    let n = entries.len() - 1;
    assert(entries.last() == entries[n]);
    assert forall|i: int| 0 <= i < all.len() implies version::in_range::<O>(
        meta,
        (#[trigger] all[i]).0,
    ) && O::valid(all[i].0) && all[i].0.len() > 0 by {
        let e = (all[i].0, Some(all[i].1));
        assert(entries.contains(e));
        let j = choose|j: int| 0 <= j < entries.len() && entries[j] == e;
        lemma_between::<O>(entries, j);
    }
    lemma_between::<O>(entries, n);
    assert(contents::entries_in(files, meta) == all);
}

proof fn lemma_between<O: KeyOrder>(entries: Seq<(Seq<u8>, Option<Seq<u8>>)>, j: int)
    requires
        memtable::sorted_keys::<O>(entries),
        0 <= j < entries.len(),
    ensures
        O::valid(entries[j].0),
        !O::lt(entries[j].0, entries[0].0),
        !O::lt(entries.last().0, entries[j].0),
{
    let n = entries.len() - 1;
    let k = entries[j].0;
    assert(entries.last() == entries[n]);
    O::irreflexive(k);
    if j > 0 && O::lt(k, entries[0].0) {
        assert(O::lt(entries[0].0, entries[j].0));
        O::transitive(k, entries[0].0, k);
    }
    if j < n && O::lt(entries[n].0, k) {
        assert(O::lt(entries[j].0, entries[n].0));
        O::transitive(k, entries[n].0, k);
    }
}

/// Whether a manager comes from another one by looking up the oldest transaction in progress. Where
/// there is none, a transaction is started and committed for it.
pub open spec fn looked_up(after: TransactionManager, before: TransactionManager) -> bool {
    let xip = Timestamp(before.oldest() as u64);
    &&& after.cached() == xip
    &&& after.active() == before.active()
    &&& forall|xid: Timestamp| #[trigger] after.status(xid) == before.status(xid)
    &&& if before.active().len() > 0 {
        &&& after.counter() == before.counter()
        &&& after.latest() == before.latest()
    } else {
        &&& after.counter() == before.counter() + 2
        &&& after.latest() == if before.latest().before(xip) {
            xip
        } else {
            before.latest()
        }
    }
}

impl<S: TableStore> DbView<S> {
    /// The transaction that a flush would be for.
    pub open spec fn flush_xip(self) -> Timestamp {
        Timestamp(self.txnmgr.oldest() as u64)
    }

    /// The keys of which a flush would take a version.
    pub open spec fn taken_keys(self) -> Set<Seq<u8>> {
        self.memory.dom().filter(
            |k: Seq<u8>|
                memtable::is_taken(
                    self.memory[k],
                    self.flush_xip(),
                    self.options.gc_freeze_min_age,
                ),
        )
    }

    /// The memory table after a flush took versions from it, which are marked.
    pub open spec fn marked_memory(self) -> Map<Seq<u8>, Seq<RedoView>> {
        self.memory.map_values(
            |c: Seq<RedoView>|
                memtable::after_snapshot(c, self.flush_xip(), self.options.gc_freeze_min_age),
        )
    }

    /// Whether a flush takes a value of a key that a reader sees as deleted.
    pub open spec fn uncovers(self, r: Reader, key: Seq<u8>) -> bool {
        let chain = self.chain(key);
        let age = self.options.gc_freeze_min_age;
        &&& memtable::seen_value(chain, r) is None
        &&& memtable::is_taken(chain, self.flush_xip(), age)
        &&& chain[memtable::safe_len(chain, self.flush_xip(), age) - 1].value is Some
    }

    /// Whether a flush takes these entries.
    pub open spec fn takes(self, entries: Seq<(Seq<u8>, Option<Seq<u8>>)>) -> bool {
        forall|k: Seq<u8>, v: Option<Seq<u8>>| #[trigger]
            entries.contains((k, v)) <==> {
                let chain = self.chain(k);
                let age = self.options.gc_freeze_min_age;
                &&& memtable::is_taken(chain, self.flush_xip(), age)
                &&& v == chain[memtable::safe_len(chain, self.flush_xip(), age) - 1].value
            }
    }
}

/// Whether versions that a flush took, and what they hide, have left a memory table.
pub open spec fn cleared(
    before: Map<Seq<u8>, Seq<RedoView>>,
    after: Map<Seq<u8>, Seq<RedoView>>,
    min_xip: Timestamp,
    freeze_min_age: usize,
) -> bool {
    &&& forall|k: Seq<u8>| #[trigger]
        after.contains_key(k) <==> before.contains_key(k) && !memtable::chain_leaves(
            before[k],
            min_xip,
            freeze_min_age,
        )
    &&& forall|k: Seq<u8>| #[trigger]
        after.contains_key(k) ==> after[k] == memtable::after_gc(
            before[k],
            min_xip,
            freeze_min_age,
        )
}

/// The number of entries that a flush takes is that of the keys of which it takes a version.
proof fn lemma_taken_len<O: KeyOrder, S: TableStore>(
    db: DbView<S>,
    entries: Seq<(Seq<u8>, Option<Seq<u8>>)>,
)
    requires
        db.takes(entries),
        memtable::sorted_keys::<O>(entries),
        db.memory.dom().finite(),
    ensures
        entries.len() == db.taken_keys().len(),
        forall|i: int|
            0 <= i < entries.len() ==> db.memory.contains_key((#[trigger] entries[i]).0),
{
    let keys = entries.map_values(|e: (Seq<u8>, Option<Seq<u8>>)| e.0);
    let age = db.options.gc_freeze_min_age;
    assert forall|i: int| 0 <= i < entries.len() implies db.taken_keys().contains(
        (#[trigger] entries[i]).0,
    ) by {
        let e = entries[i];
        assert(entries.contains((e.0, e.1)));
        assert(memtable::is_taken(db.chain(e.0), db.flush_xip(), age));
    }
    assert forall|i: int, j: int| 0 <= i < keys.len() && 0 <= j < keys.len() && i
        != j implies keys[i] != keys[j] by {
        O::irreflexive(entries[i].0);
        if i < j {
            assert(O::lt(entries[i].0, entries[j].0));
        } else {
            assert(O::lt(entries[j].0, entries[i].0));
        }
    }
    assert(keys.no_duplicates());
    keys.unique_seq_to_set();
    assert forall|k: Seq<u8>| #[trigger] keys.to_set().contains(k) <==> db.taken_keys().contains(
        k,
    ) by {
        if keys.to_set().contains(k) {
            let i = choose|i: int| 0 <= i < keys.len() && keys[i] == k;
            assert(entries[i].0 == k);
        }
        if db.taken_keys().contains(k) {
            let chain = db.chain(k);
            let v = chain[memtable::safe_len(chain, db.flush_xip(), age) - 1].value;
            assert(entries.contains((k, v)));
            let i = choose|i: int| 0 <= i < entries.len() && entries[i] == (k, v);
            assert(keys[i] == k);
        }
    }
    assert(keys.to_set() =~= db.taken_keys());
}

impl<O: KeyOrder, S: TableStore> Db<O, S> {
    /// The transaction that a flush is for: the oldest one in progress. Where there is none, one is
    /// started and committed.
    fn look_up_xip(&mut self) -> (r: Result<Timestamp, Error>)
        requires
            old(self).wf(),
            old(self)@.txnmgr.counter() + 2 <= 0x2000_0000_0000_0000,
        ensures
            final(self).wf(),
            final(self).tables_opened() == old(self).tables_opened(),
            final(self)@ == (DbView { txnmgr: final(self)@.txnmgr, ..old(self)@ }),
            looked_up(final(self)@.txnmgr, old(self)@.txnmgr),
            final(self)@.txnmgr.oldest() >= old(self)@.txnmgr.oldest(),
            r == Ok::<Timestamp, Error>(old(self)@.flush_xip()),
    {
        let ghost before = self@;
        proof {
            self.txnmgr.lemma_oldest();
        }
        match self.txnmgr.min_xip() {
            Some(min_xip) => Ok(min_xip),
            None => {
                let ghost mgr0 = self.txnmgr;
                let txn = match self.start_transaction() {
                    Ok(txn) => txn,
                    Err(e) => {
                        return Err(e);
                    },
                };
                let ghost mgr1 = self.txnmgr;
                let min_xip = self.txnmgr.min_xip();
                let ghost mgr2 = self.txnmgr;
                let ghost mem = self@.memory;
                match self.commit_transaction(txn) {
                    Ok(_) => {},
                    Err(e) => {
                        return Err(e);
                    },
                }
                proof {
                    let start = txn.start();
                    let xip = before.flush_xip();
                    assert(start == xip);
                    assert(mgr0.active() =~= Seq::<Timestamp>::empty());
                    assert(mgr2.active() == seq![start]);
                    assert(mgr2.active()[0] == start);
                    assert(mgr2.active().contains(start));
                    assert(mgr2.active().index_of(start) == 0);
                    assert(self.txnmgr.active() =~= Seq::<Timestamp>::empty());
                    assert forall|xid: Timestamp| #[trigger]
                        self.txnmgr.status(xid) == before.txnmgr.status(xid) by {
                        assert(mgr2.status(xid) == mgr1.status(xid));
                        assert(mgr1.status(xid) == mgr0.status(xid));
                        assert(mgr0.status(xid) == before.txnmgr.status(xid));
                    }
                    assert(looked_up(self.txnmgr, before.txnmgr));
                }
                Ok(min_xip.unwrap())
            },
        }
    }

    /// Collects what no transaction needs the memory table for. The flush is over where one for the
    /// same transaction is being collected, or where there is not enough to flush.
    pub fn collect(&mut self) -> (r: Result<Option<Flush>, Error>)
        requires
            old(self).wf(),
            old(self)@.flushing_threads > 0,
            old(self)@.txnmgr.counter() + 2 <= 0x2000_0000_0000_0000,
        ensures
            final(self).wf(),
            final(self).tables_opened() == old(self).tables_opened(),
            looked_up(final(self)@.txnmgr, old(self)@.txnmgr),
            ({
                let xip = old(self)@.flush_xip();
                let duplicate = old(self)@.collecting.contains(xip);
                let enough = old(self)@.taken_keys().len() >= old(self)@.options.write_buffer_size
                    / 2;
                match r {
                    Ok(Some(f)) => {
                        &&& !duplicate
                        &&& enough
                        &&& f.xip() == xip
                        &&& f.recovery_point() == old(self)@.wal.tail().log_start()
                            + old(self)@.wal.tail().position()
                        &&& old(self)@.takes(f.entries())
                        &&& db::entries_sound::<O>(f.entries())
                        &&& f.entries().len() == old(self)@.taken_keys().len()
                        &&& final(self)@ == (DbView {
                            txnmgr: final(self)@.txnmgr,
                            memory: old(self)@.marked_memory(),
                            collecting: old(self)@.collecting.push(xip),
                            ..old(self)@
                        })
                    },
                    Ok(None) => {
                        &&& duplicate || !enough
                        &&& final(self)@ == (DbView {
                            txnmgr: final(self)@.txnmgr,
                            memory: if duplicate {
                                old(self)@.memory
                            } else {
                                old(self)@.marked_memory()
                            },
                            flushing_threads: (old(self)@.flushing_threads - 1) as nat,
                            ..old(self)@
                        })
                    },
                    Err(_) => false,
                }
            }),
    {
        let ghost before = self@;
        let min_recovery_point = self.wal.current_lsn();
        let min_xip = match self.look_up_xip() {
            Ok(min_xip) => min_xip,
            Err(e) => {
                return Err(e);
            },
        };
        proof {
            before.txnmgr.lemma_oldest();
            self.txnmgr.lemma_oldest();
        }
        let size: usize = self.collect_set.len();
        if size > 0 && self.collect_set[size - 1].0 == min_xip.0 {
            proof {
                assert(before.collecting[size - 1] == min_xip);
            }
            self.flushing_threads = self.flushing_threads - 1;
            return Ok(None);
        }
        proof {
            assert forall|i: int| 0 <= i < size implies (#[trigger] before.collecting[i]).0
                < min_xip.0 by {
                if i < size - 1 {
                    assert(before.collecting[i].0 < before.collecting[size - 1].0);
                }
            }
        }
        let imm_table = match self.mem_table.snapshot::<O>(min_xip, self.options.gc_freeze_min_age) {
            Ok(imm_table) => imm_table,
            Err(e) => {
                return Err(e);
            },
        };
        proof {
            assert(before.takes(imm_table.entries()));
            lemma_taken_len::<O, S>(before, imm_table.entries());
            assert(self@.memory.dom() =~= before.memory.dom());
        }
        if imm_table.size() < self.options.write_buffer_size / 2 {
            self.flushing_threads = self.flushing_threads - 1;
            return Ok(None);
        }
        self.collect_set.push(min_xip);
        proof {
            assert forall|i: int| 0 <= i < self@.flushing.len() implies (
            #[trigger] self@.flushing[i]).0.0 <= min_xip.0 by {
                assert(db::flush_times(before.flushing)[i] == before.flushing[i].0);
            }
        }
        Ok(Some(Flush { min_xip, min_recovery_point, imt: Arc::new(imm_table) }))
    }

    /// Clears the memory table of what a flush took, if no older table is being collected.
    pub fn cleanup(&mut self, f: &Flush) -> (r: bool)
        requires
            old(self).wf(),
            old(self)@.collecting.contains(f.xip()),
            !db::flush_times(old(self)@.flushing).contains(f.xip()),
            db::entries_sound::<O>(f.entries()),
        ensures
            final(self).wf(),
            final(self).tables_opened() == old(self).tables_opened(),
            r == (old(self)@.collecting[0] == f.xip()),
            if r {
                &&& cleared(
                    old(self)@.memory,
                    final(self)@.memory,
                    f.xip(),
                    old(self)@.options.gc_freeze_min_age,
                )
                &&& final(self)@ == (DbView {
                    memory: final(self)@.memory,
                    last_flush_size: final(self)@.memory.dom().len(),
                    collecting: old(self)@.collecting.drop_first(),
                    flushing: old(self)@.flushing.push((f.xip(), f.entries())),
                    ..old(self)@
                })
            } else {
                final(self)@ == old(self)@
            },
    {
        let ghost before = self@;
        if self.collect_set[0].0 != f.min_xip.0 {
            return false;
        }
        let _ = self.collect_set.remove(0);
        self.imm_set.push((f.min_xip, f.imt.clone()));
        let _ = self.mem_table.gc(f.min_xip, self.options.gc_freeze_min_age);
        self.last_flush_size = self.mem_table.size();
        proof {
            let xip = f.min_xip;
            assert(before.collecting[0] == xip);
            assert(self@.flushing =~= before.flushing.push((xip, f.entries())));
            assert(self@.collecting =~= before.collecting.drop_first());
            lemma_lined_up::<O, S>(before, self@, xip, f.entries());
            assert(self@.memory.dom().subset_of(before.memory.dom()));
            vstd::set_lib::lemma_len_subset(self@.memory.dom(), before.memory.dom());
        }
        true
    }
}

/// What was built of the entries before one, and of that one.
proof fn lemma_live_take(entries: Seq<(Seq<u8>, Option<Seq<u8>>)>, n: int)
    requires
        0 <= n < entries.len(),
    ensures
        live(entries.take(n + 1)) == match entries[n].1 {
            Some(v) => live(entries.take(n)).push((entries[n].0, v)),
            None => live(entries.take(n)),
        },
        live(entries.take(n + 1)).len() <= live(entries).len(),
        live(entries.take(n + 1)) == live(entries).take(live(entries.take(n + 1)).len() as int),
    decreases entries.len() - n,
{
    assert(entries.take(n + 1).drop_last() =~= entries.take(n));
    let a = live(entries.take(n + 1));
    if n + 1 < entries.len() {
        lemma_live_take(entries, n + 1);
        let b = live(entries.take(n + 2));
        assert(a =~= live(entries).take(a.len() as int));
    } else {
        assert(entries.take(n + 1) =~= entries);
        assert(a =~= live(entries).take(a.len() as int));
    }
}

/// Builds the table of a flush.
fn build_table(
    factory: &BlockTableFactory,
    imt: &ImmutableHashTable,
) -> (r: Result<(Vec<u8>, Vec<u8>, Vec<u8>), Error>)
    requires
        imt.entries().len() > 0,
        outputs::buildable(*factory, live(imt.entries())),
    ensures
        match r {
            Ok((bytes, first_key, last_key)) => {
                &&& block_table::is_table(bytes@)
                &&& block_table::table_entries(bytes@) == live(imt.entries())
                &&& first_key@ == imt.entries()[0].0
                &&& last_key@ == imt.entries().last().0
            },
            Err(_) => false,
        },
{
    let ghost all = imt.entries();
    let mut builder = factory.create_table_builder();
    let mut first_key: Option<Vec<u8>> = None;
    let mut last_key: Vec<u8> = Vec::new();
    let mut imm_iter = imt.iter();
    let ghost mut n: int = 0;
    let mut at_end = false;
    proof {
        assert(all.skip(0) =~= all);
        assert(all.take(0) =~= Seq::<(Seq<u8>, Option<Seq<u8>>)>::empty());
    }
    while !at_end
        invariant
            0 <= n <= all.len(),
            all.len() > 0,
            imm_iter.remaining() == all.skip(n),
            at_end ==> n == all.len(),
            builder.open(),
            builder.table_options() == factory.table_options(),
            builder.taken_out() == Seq::<u8>::empty(),
            outputs::buildable(*factory, live(all)),
            builder.entries() == live(all.take(n)),
            (first_key is Some) == (n > 0),
            n > 0 ==> first_key.unwrap()@ == all[0].0 && last_key@ == all[n - 1].0,
        decreases all.len() - n + if at_end {
            0int
        } else {
            1int
        },
    {
        match imm_iter.next() {
            Some((key, value)) => {
                proof {
                    assert(all.skip(n)[0] == all[n]);
                    assert(all.skip(n).drop_first() =~= all.skip(n + 1));
                    lemma_live_take(all, n);
                }
                if first_key.is_none() {
                    first_key = Some(slice_to_vec(key.as_slice()));
                }
                last_key = slice_to_vec(key.as_slice());
                match value {
                    Some(value) => {
                        proof {
                            let m = live(all.take(n)).len() as int;
                            outputs::lemma_buildable_part(*factory, live(all), 0, m + 1);
                            assert(live(all).subrange(0, m + 1) =~= live(all.take(n + 1)));
                            assert(live(all)[m] == live(all.take(n + 1))[m]);
                            assert(live(all)[m] == (key@, value@));
                        }
                        match builder.add(key.as_slice(), value.as_slice()) {
                            Ok(_) => {},
                            Err(e) => {
                                return Err(e);
                            },
                        }
                    },
                    None => {},
                }
                proof {
                    n = n + 1;
                }
            },
            None => {
                at_end = true;
            },
        }
    }
    proof {
        assert(all.take(n) =~= all);
    }
    match builder.finish() {
        Ok(_) => {},
        Err(e) => {
            return Err(e);
        },
    }
    proof {
        builder.lemma_output();
        assert(Seq::<u8>::empty() + builder.pending() =~= builder.pending());
    }
    let bytes = builder.take_output();
    Ok((bytes, first_key.unwrap(), last_key))
}

impl Flush {
    /// Whether a table of what is to be flushed can be built.
    pub fn fits(&self, factory: BlockTableFactory) -> (r: bool)
        ensures
            r == outputs::buildable(factory, live(self.entries())),
    {
        let ghost all = self.entries();
        let mut bounds = TableBounds::new(factory);
        let mut imm_iter = self.imt.iter();
        let ghost mut n: int = 0;
        let mut at_end = false;
        proof {
            assert(all.skip(0) =~= all);
            assert(all.take(0) =~= Seq::<(Seq<u8>, Option<Seq<u8>>)>::empty());
        }
        while !at_end
            invariant
                0 <= n <= all.len(),
                imm_iter.remaining() == all.skip(n),
                at_end ==> n == all.len(),
                bounds.wf(),
                bounds.made_for() == factory,
                bounds.entries() == live(all.take(n)),
            decreases all.len() - n + if at_end {
                0int
            } else {
                1int
            },
        {
            match imm_iter.next() {
                Some((key, value)) => {
                    proof {
                        assert(all.skip(n)[0] == all[n]);
                        assert(all.skip(n).drop_first() =~= all.skip(n + 1));
                        lemma_live_take(all, n);
                    }
                    match value {
                        Some(value) => {
                            bounds.add(key.as_slice(), value.as_slice());
                        },
                        None => {},
                    }
                    proof {
                        n = n + 1;
                    }
                },
                None => {
                    at_end = true;
                },
            }
        }
        proof {
            assert(all.take(n) =~= all);
        }
        bounds.fits()
    }
}

impl<O: KeyOrder, S: TableStore> Db<O, S> {
    /// Writes the table of a flush to a new file. Deletions are left out, but the bounds of the
    /// file are those of all keys.
    pub fn write_level0_table(&mut self, f: &Flush) -> (r: Result<TableFileMeta, Error>)
        requires
            old(self).wf(),
            f.entries().len() > 0,
            outputs::buildable(old(self)@.options.table_factory, live(f.entries())),
            old(self)@.vset.next_file() < usize::MAX,
        ensures
            final(self).wf(),
            final(self).tables_opened() == old(self).tables_opened(),
            final(self)@ == (DbView {
                vset: final(self)@.vset,
                store: final(self)@.store,
                ..old(self)@
            }),
            final(self)@.vset.same_but_next_file(old(self)@.vset),
            final(self)@.vset.next_file() == old(self)@.vset.next_file() + 1,
            final(self)@.store.reliable() == old(self)@.store.reliable(),
            outputs::only_added(
                old(self)@.store.files(),
                final(self)@.store.files(),
                old(self)@.vset.next_file(),
                final(self)@.vset.next_file(),
            ),
            forall|k: Seq<u8>| #[trigger]
                O::valid(k) ==> final(self)@.stored::<O>(k) == old(self)@.stored::<O>(k),
            match r {
                Ok(meta) => {
                    &&& meta@.file_ref == TableFileRef(0, old(self)@.vset.next_file() as usize)
                    &&& flushed_file(
                        final(self)@.store.files(),
                        meta@,
                        f.xip(),
                        f.entries(),
                    )
                },
                Err(_) => !old(self)@.store.reliable(),
            },
    {
        let ghost before = self@;
        let ghost files0 = self@.store.files();
        let file_num = self.vset.new_file_number();
        let file_ref = TableFileRef::new(0, file_num);
        let (bytes, first_key, last_key) = match build_table(&self.options.table_factory, &f.imt) {
            Ok(res) => res,
            Err(e) => {
                return Err(e);
            },
        };
        let size: usize = bytes.len();
        let ghost bs = bytes@;
        let res = self.store.create_table(file_ref, bytes);
        proof {
            let files = self@.store.files();
            assert(!files0.contains_key(file_ref));
            assert forall|g: TableFileRef| g != file_ref implies (#[trigger] files.contains_key(g)
                == files0.contains_key(g)) && (files0.contains_key(g) ==> files[g] == files0[g]) by {
                assert(files.remove(file_ref).contains_key(g) == files.contains_key(g));
                assert(files0.remove(file_ref).contains_key(g) == files0.contains_key(g));
                assert(files.remove(file_ref) =~= files0.remove(file_ref));
                if files0.contains_key(g) {
                    assert(files.remove(file_ref)[g] == files[g]);
                    assert(files0.remove(file_ref)[g] == files0[g]);
                }
            }
            assert(contents::holds_all(files0, files));
            contents::lemma_more_sound::<O>(files0, files, before.vset.files());
            self.tables.lemma_more_files(files0, files, self.store.reliable());
            assert forall|k: Seq<u8>| #[trigger] O::valid(k) implies self@.stored::<O>(k)
                == before.stored::<O>(k) by {
                contents::lemma_more_values::<O>(files0, files, before.vset.files(), 0, k);
            }
        }
        match res {
            Ok(_) => {},
            Err(e) => {
                return Err(e);
            },
        }
        Ok(TableFileMeta::new(file_ref, size, f.min_xip, first_key, last_key))
    }

    /// Adds the file of a flush to level 0, if no older table is being flushed. Hands back the bytes
    /// of the new manifest then.
    pub fn finish_flush(&mut self, f: &Flush, meta: &TableFileMeta, now: ManifestTime) -> (r: Result<
        Option<Vec<u8>>,
        Error,
    >)
        requires
            old(self).wf(),
            old(self)@.flushing_threads > 0,
            db::flush_times(old(self)@.flushing).contains(f.xip()),
            old(self)@.flushing[0].0 == f.xip() ==> {
                &&& old(self)@.flushing[0].1 == f.entries()
                &&& flushed_file(old(self)@.store.files(), meta@, f.xip(), f.entries())
                &&& forall|i: int|
                    0 <= i < old(self)@.vset.files()[0].len() ==> (
                    #[trigger] old(self)@.vset.files()[0][i]).file_ref != meta@.file_ref
                &&& !f.xip().before(old(self)@.vset.flushed_xip())
                &&& old(self)@.can_apply::<O>(
                    contents::flush_edit(f.xip(), meta@),
                    f.recovery_point(),
                )
            },
        ensures
            final(self).wf(),
            final(self).tables_opened() == old(self).tables_opened(),
            if old(self)@.flushing[0].0 == f.xip() {
                let after = final(self)@;
                &&& r matches Ok(Some(bytes)) && bytes@ == checkpoint::manifest_bytes(
                    after.manifest,
                )
                &&& after == (DbView {
                    vset: after.vset,
                    wal: after.wal,
                    manifest: after.manifest,
                    flushing: old(self)@.flushing.drop_first(),
                    flushing_threads: (old(self)@.flushing_threads - 1) as nat,
                    ..old(self)@
                }).compaction_scheduled()
                &&& after.applied_from::<O>(
                    old(self)@,
                    contents::flush_edit(f.xip(), meta@),
                    f.recovery_point(),
                    now,
                )
                &&& after.vset.level0_busy() == old(self)@.vset.level0_busy()
                // No value is lost.
                &&& (forall|i: int|
                    0 <= i < old(self)@.vset.files()[0].len() ==> (
                    #[trigger] old(self)@.vset.files()[0][i]).min_xip.before(f.xip()))
                    ==> forall|k: Seq<u8>| #[trigger]
                    O::valid(k) ==> after.stored::<O>(k) == old(self)@.stored::<O>(k)
            } else {
                &&& r matches Ok(None)
                &&& final(self)@ == old(self)@
            },
    {
        let ghost before = self@;
        proof {
            assert(db::flush_times(before.flushing).len() == before.flushing.len());
        }
        if self.imm_set[0].0.0 != f.min_xip.0 {
            return Ok(None);
        }
        let edit = f.edit(meta);
        let ghost change = contents::flush_edit(f.xip(), meta@);
        proof {
            assert(before.flushing[0].0 == f.xip());
            before.txnmgr.lemma_oldest();
            assert(db::flush_times(before.flushing)[0] == f.xip());
            assert(db::entries_sound::<O>(before.flushing[0].1));
            lemma_flushed_sound::<O>(before.store.files(), meta@, f.xip(), f.entries());
            contents::lemma_version_sound::<O>(before.store.files(), before.vset.files());
            contents::lemma_flush_sound::<O>(
                before.store.files(),
                before.vset.files(),
                f.xip(),
                meta@,
            );
            assert(version::levels_valid::<O>(before.vset.files()));
            assert(builder::edit_fits::<O>(change, before.vset.files().len()));
        }
        let res = self.vset.log_and_apply::<O>(
            &mut self.wal,
            &mut self.ckptmgr,
            now,
            &edit,
            f.min_recovery_point,
        );
        let manifest = match res {
            Ok(manifest) => manifest,
            Err(e) => {
                return Err(e);
            },
        };
        let _ = self.imm_set.remove(0);
        let ghost mid = self@;
        proof {
            assert(mid.flushing =~= before.flushing.drop_first());
            lemma_first_out::<O, S>(before, mid);
            let levels = mid.vset.files();
            assert(mid.vset.version().scores()[levels.len() - 1] == compaction::level_score(
                levels,
                before.options,
                levels.len() - 1,
            ));
        }
        self.schedule_compaction();
        self.flushing_threads = self.flushing_threads - 1;
        proof {
            if forall|i: int|
                0 <= i < before.vset.files()[0].len() ==> (
                #[trigger] before.vset.files()[0][i]).min_xip.before(f.xip()) {
                assert forall|k: Seq<u8>| #[trigger] O::valid(k) implies self@.stored::<O>(k)
                    == before.stored::<O>(k) by {
                    contents::lemma_flush_value::<O>(
                        before.store.files(),
                        before.vset.files(),
                        f.xip(),
                        meta@,
                        k,
                    );
                    lemma_live_value::<O>(f.entries(), k);
                    lemma_held_first(before.flushing, k);
                }
            }
        }
        Ok(Some(manifest))
    }
}

/// The oldest table comes last among those that are being flushed.
proof fn lemma_held_first(
    tables: Seq<(Timestamp, Seq<(Seq<u8>, Option<Seq<u8>>)>)>,
    k: Seq<u8>,
)
    requires
        tables.len() > 0,
    ensures
        db::held_by_last(tables, k) == match db::held_by_last(tables.drop_first(), k) {
            Some(v) => Some(v),
            None => db::held(tables[0].1, k),
        },
    decreases tables.len(),
{
    let rest = tables.drop_first();
    if tables.len() == 1 {
        assert(tables.drop_last().len() == 0);
        assert(rest.len() == 0);
    } else {
        assert(rest.last() == tables.last());
        assert(rest.drop_last() =~= tables.drop_last().drop_first());
        lemma_held_first(tables.drop_last(), k);
    }
}

/// The other tables stay in line when the oldest one has been flushed.
proof fn lemma_first_out<O: KeyOrder, S: TableStore>(before: DbView<S>, after: DbView<S>)
    requires
        before.flushes_ok::<O>(),
        before.flushing.len() > 0,
        after.flushing == before.flushing.drop_first(),
        after.collecting == before.collecting,
        after.txnmgr == before.txnmgr,
    ensures
        after.flushes_ok::<O>(),
{
    let old_times = db::flush_times(before.flushing);
    let times = db::flush_times(after.flushing);
    assert forall|i: int| 0 <= i < times.len() implies #[trigger] times[i] == old_times[i + 1]
        && after.flushing[i] == before.flushing[i + 1] by {}
    assert forall|i: int, j: int| 0 <= i < j < times.len() implies (#[trigger] times[i]).0 < (
    #[trigger] times[j]).0 by {
        assert(old_times[i + 1].0 < old_times[j + 1].0);
    }
    assert forall|i: int| 0 <= i < after.flushing.len() implies db::entries_sound::<O>(
        (#[trigger] after.flushing[i]).1,
    ) by {
        assert(after.flushing[i] == before.flushing[i + 1]);
    }
    assert forall|i: int, j: int|
        0 <= i < after.flushing.len() && 0 <= j < after.collecting.len() implies (
    #[trigger] after.flushing[i]).0.0 <= (#[trigger] after.collecting[j]).0 by {
        assert(after.flushing[i] == before.flushing[i + 1]);
    }
}

/// The oldest table that is being collected becomes the youngest one that is being flushed.
proof fn lemma_lined_up<O: KeyOrder, S: TableStore>(
    before: DbView<S>,
    after: DbView<S>,
    xip: Timestamp,
    entries: Seq<(Seq<u8>, Option<Seq<u8>>)>,
)
    requires
        before.flushes_ok::<O>(),
        before.collecting.len() > 0,
        before.collecting[0] == xip,
        !db::flush_times(before.flushing).contains(xip),
        db::entries_sound::<O>(entries),
        after.collecting == before.collecting.drop_first(),
        after.flushing == before.flushing.push((xip, entries)),
        after.txnmgr == before.txnmgr,
    ensures
        after.flushes_ok::<O>(),
{
    let old_times = db::flush_times(before.flushing);
    let times = db::flush_times(after.flushing);
    let n = before.flushing.len() as int;
    assert forall|i: int| 0 <= i < n implies (#[trigger] old_times[i]).0 < xip.0 && times[i]
        == old_times[i] && before.flushing[i].0 == old_times[i] by {
        assert(before.flushing[i].0.0 <= before.collecting[0].0);
        assert(old_times.contains(old_times[i]));
    }
    assert(times[n] == xip);
    assert forall|i: int, j: int| 0 <= i < j < times.len() implies (#[trigger] times[i]).0 < (
    #[trigger] times[j]).0 by {
        assert(old_times[i].0 < xip.0);
        if j < n {
            assert(old_times[i].0 < old_times[j].0);
        }
    }
    assert forall|i: int| 0 <= i < times.len() implies 0 < (#[trigger] times[i]).0
        <= after.txnmgr.oldest() && times[i].0 < 0x2000_0000_0000_0000 by {
        if i < n {
            assert(0 < old_times[i].0 <= before.txnmgr.oldest());
        }
    }
    assert forall|i: int, j: int|
        0 <= i < after.flushing.len() && 0 <= j < after.collecting.len() implies (
    #[trigger] after.flushing[i]).0.0 <= (#[trigger] after.collecting[j]).0 by {
        assert(after.collecting[j] == before.collecting[j + 1]);
        if i < n {
            assert(after.flushing[i] == before.flushing[i]);
        } else {
            assert(before.collecting[0].0 < before.collecting[j + 1].0);
        }
    }
    assert forall|i: int| 0 <= i < after.flushing.len() implies db::entries_sound::<O>(
        (#[trigger] after.flushing[i]).1,
    ) by {
        if i < n {
            assert(after.flushing[i] == before.flushing[i]);
        }
    }
    assert forall|i: int| 0 <= i < after.collecting.len() implies 0 < (
    #[trigger] after.collecting[i]).0 <= after.txnmgr.oldest() && after.collecting[i].0
        < 0x2000_0000_0000_0000 by {
        assert(after.collecting[i] == before.collecting[i + 1]);
    }
    assert forall|i: int, j: int| 0 <= i < j < after.collecting.len() implies (
    #[trigger] after.collecting[i]).0 < (#[trigger] after.collecting[j]).0 by {
        assert(after.collecting[i] == before.collecting[i + 1]);
        assert(after.collecting[j] == before.collecting[j + 1]);
    }
}

/// Flushing loses no value: what a reader got from the memory table before the table of a flush was
/// collected, it gets after the memory table was cleared.
///
/// The reader sees every version that can leave the memory table, and no version was taken for the
/// same transaction before.
pub proof fn lemma_flush_keeps_values<O: KeyOrder, S: TableStore>(
    before: DbView<S>,
    after: DbView<S>,
    entries: Seq<(Seq<u8>, Option<Seq<u8>>)>,
    r: Reader,
    k: Seq<u8>,
)
    requires
        before.takes(entries),
        memtable::sorted_keys::<O>(entries),
        cleared(
            before.marked_memory(),
            after.memory,
            before.flush_xip(),
            before.options.gc_freeze_min_age,
        ),
        after.flushing == before.flushing.push((before.flush_xip(), entries)),
        forall|i: int|
            0 <= i < before.chain(k).len() && memtable::safe_for_gc(
                (#[trigger] before.chain(k)[i]).timestamp,
                before.flush_xip(),
                before.options.gc_freeze_min_age,
            ) ==> r.sees(before.chain(k)[i].timestamp),
        forall|i: int|
            0 <= i < before.chain(k).len() ==> !memtable::taken_by(
                #[trigger] before.chain(k)[i],
                before.flush_xip(),
            ),
        memtable::seen_value(before.chain(k), r) is Some,
    ensures
        after.read::<O>(r, k) == before.read::<O>(r, k),
{
    let xip = before.flush_xip();
    let age = before.options.gc_freeze_min_age;
    let chain = before.chain(k);
    let v = memtable::seen_value(chain, r)->Some_0;
    memtable::lemma_flush_keeps_values(chain, xip, age, r);
    let marked = memtable::after_snapshot(chain, xip, age);
    assert(before.memory.contains_key(k));
    assert(before.marked_memory()[k] == marked);
    let rest = memtable::after_flush(chain, xip, age);
    assert(after.chain(k) =~= rest);
    if memtable::seen_value(rest, r) is None {
        assert(entries.contains((k, Some(v))));
        db::lemma_held::<O>(entries, k, Some(v));
        assert(after.flushing.last() == (xip, entries));
    }
}

/// Flushing changes nothing that is read: as long as the table files stay as they are, a reader
/// gets of a key after the memory table was cleared what it got before the table of the flush was
/// collected, be it in memory, in a table or nowhere.
///
/// As above, the reader sees every version that can leave the memory table, and no version was
/// taken for the same transaction before. Left out is a key that the reader sees as deleted and of
/// which an older value was taken: that value stands in the table of the flush, where nothing
/// hides it.
pub proof fn lemma_flush_keeps_reads<O: KeyOrder, S: TableStore>(
    before: DbView<S>,
    after: DbView<S>,
    entries: Seq<(Seq<u8>, Option<Seq<u8>>)>,
    r: Reader,
    k: Seq<u8>,
)
    requires
        before.takes(entries),
        memtable::sorted_keys::<O>(entries),
        cleared(
            before.marked_memory(),
            after.memory,
            before.flush_xip(),
            before.options.gc_freeze_min_age,
        ),
        after.flushing == before.flushing.push((before.flush_xip(), entries)),
        after.store.files() == before.store.files(),
        after.vset.files() == before.vset.files(),
        forall|i: int|
            0 <= i < before.chain(k).len() && memtable::safe_for_gc(
                (#[trigger] before.chain(k)[i]).timestamp,
                before.flush_xip(),
                before.options.gc_freeze_min_age,
            ) ==> r.sees(before.chain(k)[i].timestamp),
        forall|i: int|
            0 <= i < before.chain(k).len() ==> !memtable::taken_by(
                #[trigger] before.chain(k)[i],
                before.flush_xip(),
            ),
        !before.uncovers(r, k),
    ensures
        after.read::<O>(r, k) == before.read::<O>(r, k),
{
    let xip = before.flush_xip();
    let age = before.options.gc_freeze_min_age;
    let chain = before.chain(k);
    if memtable::seen_value(chain, r) is Some {
        lemma_flush_keeps_values::<O, S>(before, after, entries, r, k);
    } else {
        memtable::lemma_flush_adds_no_values(chain, xip, age, r);
        lemma_chain_after::<S>(before, after, k);
        assert(db::held(entries, k) is None) by {
            assert forall|v: Seq<u8>| !entries.contains((k, Some(v))) by {}
        }
        assert(after.flushing.last() == (xip, entries));
        assert(after.flushing.drop_last() =~= before.flushing);
    }
}

/// What collecting a table and clearing the memory table leave of the versions of a key.
proof fn lemma_chain_after<S: TableStore>(before: DbView<S>, after: DbView<S>, k: Seq<u8>)
    requires
        cleared(
            before.marked_memory(),
            after.memory,
            before.flush_xip(),
            before.options.gc_freeze_min_age,
        ),
    ensures
        after.chain(k) == memtable::after_flush(
            before.chain(k),
            before.flush_xip(),
            before.options.gc_freeze_min_age,
        ),
{
    let xip = before.flush_xip();
    let age = before.options.gc_freeze_min_age;
    if before.memory.contains_key(k) {
        assert(before.marked_memory()[k] == memtable::after_snapshot(before.chain(k), xip, age));
    } else {
        assert(!after.memory.contains_key(k));
        assert(before.chain(k) =~= Seq::empty());
        assert(memtable::after_snapshot(before.chain(k), xip, age) =~= Seq::empty());
    }
    assert(after.chain(k) =~= memtable::after_flush(before.chain(k), xip, age));
}

} // verus!

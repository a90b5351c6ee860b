//! Starts and ends transactions.
use crate::error::Error;
use crate::memtable;
use crate::memtable::MemTable;
use crate::transaction::{
    Snapshot, SnapshotView, Timestamp, TimestampType, Transaction, TransactionMode,
    TransactionLogRecord, TransactionStatus, TransactionTable,
};
use crate::wal::log_record;
use crate::wal::log_record::RecordView;
use crate::wal::Wal;
use vstd::prelude::*;

verus! {

/// Knows which transactions are active and what became of the others.
pub struct TransactionManager {
    timestamp_counter: u64,
    /// The transactions in progress, the oldest first.
    xips: Vec<Timestamp>,
    latest_completed_xid: Timestamp,
    cached_min_xip: Timestamp,
    txn_table: TransactionTable,
}

/// The first of the timestamps that come before a limit, or the limit.
pub open spec fn first_before(xips: Seq<Timestamp>, limit: Timestamp) -> Timestamp {
    if xips.len() > 0 && xips[0].before(limit) {
        xips[0]
    } else {
        limit
    }
}

/// The timestamps that come before a limit, without one of them.
pub open spec fn others_before(
    xips: Seq<Timestamp>,
    limit: Timestamp,
    own: Timestamp,
) -> Seq<Timestamp>
    decreases xips.len(),
{
    if xips.len() == 0 {
        Seq::empty()
    } else {
        let init = others_before(xips.drop_last(), limit, own);
        if xips.last().before(limit) && xips.last() != own {
            init.push(xips.last())
        } else {
            init
        }
    }
}

/// The snapshot that a transaction takes while the given ones are in progress and `latest` is the
/// greatest that has ended.
pub open spec fn snapshot_of(
    xips: Seq<Timestamp>,
    latest: Timestamp,
    own: Timestamp,
) -> SnapshotView {
    let max_xid = latest.next();
    SnapshotView {
        min_xid: first_before(xips, max_xid),
        max_xid,
        xips: others_before(xips, max_xid, own),
    }
}

/// What decides which versions a transaction reads: its timestamps, its snapshot, and what became
/// of the other transactions.
pub struct Reader {
    pub start: Timestamp,
    pub own: Timestamp,
    pub snapshot: SnapshotView,
    pub manager: TransactionManager,
}

impl Reader {
    /// Whether the transaction sees a version with the given timestamp.
    pub open spec fn sees(self, ts: Timestamp) -> bool {
        match ts.typ() {
            TimestampType::Commit => ts == self.start || ts.before(self.start),
            TimestampType::Uncommitted => ts == self.own,
            _ => {
                let xid = ts.normal();
                xid == self.start || (!self.snapshot.in_progress(xid) && self.manager.status(xid)
                    == TransactionStatus::Committed)
            },
        }
    }

    /// Whether the transaction may not write over a version with the given timestamp: it was
    /// written by another one that has not ended, or that ended after this one started.
    pub open spec fn conflicts(self, ts: Timestamp) -> bool {
        match ts.typ() {
            TimestampType::Start | TimestampType::StartCommitted => {
                let xid = ts.normal();
                self.snapshot.in_progress(xid) && xid != self.start
            },
            _ => {
                ||| ts.invalid()
                ||| !ts.committed() && ts != self.own
                ||| ts.committed() && ts != self.start && !ts.before(self.start)
            },
        }
    }
}

impl TransactionManager {
    /// The number that is given out next.
    pub closed spec fn counter(self) -> nat {
        self.timestamp_counter as nat
    }

    /// The transactions in progress, the oldest first.
    pub closed spec fn active(self) -> Seq<Timestamp> {
        self.xips@
    }

    /// The greatest start of a transaction that has ended.
    pub closed spec fn latest(self) -> Timestamp {
        self.latest_completed_xid
    }

    /// The oldest transaction in progress, as far as it was looked up.
    pub closed spec fn cached(self) -> Timestamp {
        self.cached_min_xip
    }

    /// What became of a transaction.
    pub closed spec fn status(self, xid: Timestamp) -> TransactionStatus {
        self.txn_table.status(xid)
    }

    /// The snapshot that a transaction with the given start would take now.
    pub open spec fn snapshot_for(self, own: Timestamp) -> SnapshotView {
        snapshot_of(self.active(), self.latest(), own)
    }

    /// The snapshot that a transaction reads by: the one it has, or the one it would take now.
    pub open spec fn reads_by(self, txn: Transaction) -> SnapshotView {
        match txn.snapshot() {
            Some(s) => s,
            None => self.snapshot_for(txn.start()),
        }
    }

    /// What decides which versions a transaction reads now.
    pub open spec fn reader(self, txn: Transaction) -> Reader {
        Reader {
            start: txn.start(),
            own: txn.own(),
            snapshot: self.reads_by(txn),
            manager: self,
        }
    }

    /// The oldest transaction in progress, or the one that starts next where there is none.
    pub open spec fn oldest(self) -> nat {
        if self.active().len() > 0 {
            self.active()[0].0 as nat
        } else {
            self.counter()
        }
    }

    /// The transactions in progress stand in the order in which they started, and all numbers
    /// given out are in the first half of their range, where this is their order. One that is
    /// known to have committed has ended.
    pub closed spec fn wf(self) -> bool {
        &&& 1 <= self.timestamp_counter <= 0x2000_0000_0000_0000
        &&& forall|i: int|
            0 <= i < self.xips@.len() ==> 0 < (#[trigger] self.xips@[i]).0
                < self.timestamp_counter
        &&& forall|i: int, j: int|
            0 <= i < j < self.xips@.len() ==> (#[trigger] self.xips@[i]).0 < (
            #[trigger] self.xips@[j]).0
        &&& self.latest_completed_xid.0 < self.timestamp_counter
        &&& forall|x: Timestamp| #[trigger]
            self.txn_table.status(x) == TransactionStatus::Committed ==> x.0
                <= self.latest_completed_xid.0 && !self.xips@.contains(x)
    }

    pub fn new() -> (r: Self)
        ensures
            r.wf(),
            r.counter() == 1,
            r.active() == Seq::<Timestamp>::empty(),
            r.latest() == Timestamp(0),
            r.cached() == Timestamp(0),
            forall|xid: Timestamp| #[trigger] r.status(xid) == TransactionStatus::InProgress,
    {
        Self {
            timestamp_counter: 1,
            xips: Vec::new(),
            latest_completed_xid: Timestamp::default(),
            cached_min_xip: Timestamp::default(),
            txn_table: TransactionTable::new(),
        }
    }

    /// Starts a transaction.
    pub fn start_transaction(&mut self, mode: TransactionMode) -> (r: Result<Transaction, Error>)
        requires
            old(self).wf(),
            old(self).counter() < 0x2000_0000_0000_0000,
        ensures
            final(self).wf(),
            final(self).started_from(*old(self)),
            r matches Ok(txn) && txn.fresh(mode, old(self).counter()),
    {
        let ts = self.timestamp_counter;
        self.timestamp_counter = self.timestamp_counter + 1;
        self.xips.push(Timestamp::new(TimestampType::Commit, ts));
        proof {
            let before = old(self).xips@;
            assert forall|x: Timestamp| #[trigger]
                self.txn_table.status(x) == TransactionStatus::Committed implies x.0
                <= self.latest_completed_xid.0 && !self.xips@.contains(x) by {
                if self.xips@.contains(x) {
                    let i = choose|i: int| 0 <= i < self.xips@.len() && self.xips@[i] == x;
                    if i < before.len() {
                        assert(before[i] == x);
                    }
                }
            }
        }
        let commit_ts = match mode {
            TransactionMode::FastCommit => Timestamp::new(TimestampType::Start, ts),
            TransactionMode::Normal => Timestamp::new(TimestampType::Uncommitted, ts),
        };
        Ok(Transaction::new(mode, Timestamp::new(TimestampType::Commit, ts), commit_ts))
    }

    /// Whether this state comes from another one by the start of a transaction.
    pub open spec fn started_from(self, before: TransactionManager) -> bool {
        &&& self.counter() == before.counter() + 1
        &&& self.latest() == before.latest()
        &&& self.cached() == before.cached()
        &&& self.active() == before.active().push(Timestamp(before.counter() as u64))
        &&& forall|xid: Timestamp| #[trigger] self.status(xid) == before.status(xid)
    }

    /// Whether this state comes from another one by the commit of a transaction.
    pub open spec fn committed_from(self, before: TransactionManager, txn: Transaction) -> bool {
        &&& self.counter() == before.counter() + 1
        &&& self.ended_from(before, txn.start())
        &&& forall|xid: Timestamp| #[trigger]
            self.status(xid) == if xid == txn.start() && txn.kind() == TransactionMode::FastCommit {
                TransactionStatus::Committed
            } else {
                before.status(xid)
            }
    }

    /// Whether this state comes from another one by the abort of a transaction.
    pub open spec fn aborted_from(self, before: TransactionManager, txn: Transaction) -> bool {
        &&& self.counter() == before.counter()
        &&& self.ended_from(before, txn.start())
        &&& forall|xid: Timestamp| #[trigger]
            self.status(xid) == if xid == txn.start() && txn.kind() == TransactionMode::FastCommit {
                TransactionStatus::Aborted
            } else {
                before.status(xid)
            }
    }

    /// Whether this state comes from another one by the end of a transaction.
    pub open spec fn ended_from(self, before: TransactionManager, start: Timestamp) -> bool {
        &&& self.active() == if before.active().contains(start) {
            before.active().remove(before.active().index_of(start))
        } else {
            before.active()
        }
        &&& self.latest() == if before.latest().before(start) {
            start
        } else {
            before.latest()
        }
        &&& self.cached() == before.cached()
    }

    /// Takes note that a transaction has ended.
    fn end_transaction(&mut self, start_ts: Timestamp)
        requires
            old(self).wf(),
            start_ts.0 < old(self).counter(),
        ensures
            final(self).wf(),
            final(self).counter() == old(self).counter(),
            final(self).ended_from(*old(self), start_ts),
            start_ts.0 <= final(self).latest().0,
            !final(self).active().contains(start_ts),
            forall|xid: Timestamp| #[trigger] final(self).status(xid) == old(self).status(xid),
    {
        let ghost active = self.xips@;
        let size: usize = self.xips.len();
        let mut i: usize = 0;
        while i < size && self.xips[i].0 != start_ts.0
            invariant
                i <= size,
                size == self.xips@.len(),
                forall|j: int| 0 <= j < i ==> self.xips@[j] != start_ts,
            decreases size - i,
        {
            i = i + 1;
        }
        if i < size {
            assert(active[i as int] == start_ts);
            let _ = self.xips.remove(i);
            proof {
                let at = active.index_of(start_ts);
                assert(active[at] == start_ts);
                if at != i {
                    assert(active[at].0 != active[i as int].0);
                }
            }
        } else {
            assert(!active.contains(start_ts));
        }
        proof {
            crate::transaction::lemma_before_is_less(self.latest_completed_xid, start_ts);
        }
        if self.latest_completed_xid < start_ts {
            self.latest_completed_xid = start_ts;
        }
        proof {
            lemma_removed(active, self.xips@, i as int, start_ts);
            assert forall|x: Timestamp| #[trigger]
                self.txn_table.status(x) == TransactionStatus::Committed implies x.0
                <= self.latest_completed_xid.0 && !self.xips@.contains(x) by {
                assert(old(self).txn_table.status(x) == TransactionStatus::Committed);
            }
        }
    }

    /// Marks what a transaction wrote with a commit timestamp.
    fn stamp_all<M: MemTable>(
        table: &mut M,
        keys: &Vec<Vec<u8>>,
        from: Timestamp,
        to: Timestamp,
    )
        requires
            old(table).wf(),
        ensures
            final(table).wf(),
            final(table).chains() == memtable::stamped_all(
                old(table).chains(),
                crate::transaction::bytes_view(keys@),
                from,
                to,
            ),
    {
        let ghost all = crate::transaction::bytes_view(keys@);
        let ghost chains0 = table.chains();
        let size: usize = keys.len();
        let mut i: usize = 0;
        proof {
            assert(all.take(0) =~= Seq::<Seq<u8>>::empty());
            assert(memtable::stamped_all(chains0, all.take(0), from, to) =~= chains0);
        }
        while i < size
            invariant
                i <= size,
                size == keys@.len(),
                all == crate::transaction::bytes_view(keys@),
                table.wf(),
                table.chains() == memtable::stamped_all(chains0, all.take(i as int), from, to),
            decreases size - i,
        {
            proof {
                assert(all.take(i + 1) =~= all.take(i as int).push(keys@[i as int]@));
                memtable::lemma_stamped_step(
                    chains0,
                    all.take(i as int),
                    keys@[i as int]@,
                    from,
                    to,
                );
            }
            table.stamp(keys[i].as_slice(), from, to);
            i = i + 1;
        }
        proof {
            assert(all.take(size as int) =~= all);
        }
    }

    /// The log records of a transaction that commits: what it wrote, and that it committed.
    pub open spec fn commit_records(self, txn: Transaction) -> Seq<Seq<u8>> {
        txn.staged().push(
            log_record::full_encoding(
                txn.start(),
                RecordView::Commit(
                    Timestamp(self.counter() as u64),
                    self.cached(),
                ),
            ),
        )
    }

    /// Commits a transaction: marks what it wrote and writes its log records. A transaction that
    /// wrote nothing leaves nothing in the log.
    pub fn commit<M: MemTable>(
        &mut self,
        table: &mut M,
        wal: &mut Wal,
        txn: Transaction,
    ) -> (r: Result<(), Error>)
        requires
            old(self).wf(),
            old(self).counter() < 0x2000_0000_0000_0000,
            txn.start().0 < old(self).counter(),
            old(table).wf(),
            old(wal).wf(),
            old(wal).tail().usable(),
            !txn.readonly() ==> old(wal).segment_size() % 0x10000 == 0 && old(wal).fits_all(
                old(self).commit_records(txn),
            ),
        ensures
            r is Ok,
            final(self).wf(),
            final(self).committed_from(*old(self), txn),
            final(table).wf(),
            final(wal).wf(),
            final(wal).tail().usable(),
            final(wal).segment_size() == old(wal).segment_size(),
            if txn.readonly() {
                &&& final(table).chains() == old(table).chains()
                &&& *final(wal) == *old(wal)
            } else {
                &&& final(table).chains() == memtable::stamped_all(
                    old(table).chains(),
                    txn.written(),
                    txn.own(),
                    Timestamp(old(self).counter() as u64),
                )
                &&& exists|mid: Wal| #[trigger]
                    mid.appended_all(*old(wal), old(self).commit_records(txn)) && final(wal).flushed_from(mid)
            },
    {
        let mut txn = txn;
        let ghost txn0 = txn;
        let start_ts = txn.start_timestamp();
        let is_readonly = txn.is_readonly();
        let commit_ts = Timestamp::new(TimestampType::Commit, self.timestamp_counter);
        self.timestamp_counter = self.timestamp_counter + 1;
        if !is_readonly {
            let own = txn.commit_timestamp();
            let keys = txn.take_redo_keys();
            Self::stamp_all(table, &keys, own, commit_ts);
        }
        self.end_transaction(start_ts);
        if !is_readonly {
            let ghost all = old(self).commit_records(txn0);
            proof {
                let c = wal.segment_size() as int;
                let staged = txn.staged();
                assert(all.drop_last() =~= staged);
                assert forall|i: int| 0 <= i < staged.len() implies crate::wal::segment::has_room(
                    wal.segment_size(),
                    0,
                    0,
                    (#[trigger] staged[i]).len(),
                ) by {
                    assert(all[i] == staged[i]);
                }
                assert(all[staged.len() as int] == all.last());
                let n = wal.tail().number() as int;
                assert((n + staged.len()) * c <= (n + all.len()) * c) by (nonlinear_arith)
                    requires
                        staged.len() <= all.len(),
                        c >= 0,
                ;
            }
            match txn.commit_log_records(wal) {
                Ok(_) => {},
                Err(e) => {
                    return Err(e);
                },
            }
            let ghost logged = *wal;
            let min_xip = match self.cached_min_xip() {
                Some(min_xip) => min_xip,
                None => Timestamp::default(),
            };
            let txn_commit_log = TransactionLogRecord::create_transaction_commit_log(
                commit_ts,
                min_xip,
            );
            proof {
                let c = wal.segment_size() as int;
                let a = wal.tail().number() + 1;
                let b = old(wal).tail().number() + all.len();
                assert(a * c <= b * c) by (nonlinear_arith)
                    requires
                        a <= b,
                        c >= 0,
                ;
                assert(log_record::full_encoding(start_ts, txn_commit_log@) == all.last());
            }
            match wal.append_record_and_flush(start_ts, &txn_commit_log) {
                Ok(_) => {},
                Err(e) => {
                    return Err(e);
                },
            }
            proof {
                let (turned, mid) = choose|turned: Wal, mid: Wal| #[trigger]
                    turned.turned_from(logged, all.last().len()) && mid.appended_to(
                        turned,
                        all.last(),
                    ) && #[trigger] wal.flushed_from(mid);
                assert(logged.appended_all(*old(wal), all.drop_last()));
                assert(turned.turned_from(logged, all.last().len()));
                assert(mid.appended_all(*old(wal), all));
            }
        }
        let ghost ended = *self;
        if txn.is_fast_commit() {
            match self.txn_table.set_transaction_status(start_ts, TransactionStatus::Committed) {
                Ok(_) => {},
                Err(e) => {
                    return Err(e);
                },
            }
        }
        proof {
            assert forall|xid: Timestamp| #[trigger] self.status(xid) == if xid == start_ts
                && txn.kind() == TransactionMode::FastCommit {
                TransactionStatus::Committed
            } else {
                old(self).status(xid)
            } by {
                assert(ended.status(xid) == old(self).status(xid));
            }
        }
        Ok(())
    }

    /// Takes back what a transaction wrote.
    fn rollback_all<M: MemTable>(table: &mut M, keys: &Vec<Vec<u8>>, txn: &Transaction) -> (r:
        Result<(), Error>)
        requires
            old(table).wf(),
        ensures
            r is Ok,
            final(table).wf(),
            final(table).chains() == memtable::rolled_back_all(
                old(table).chains(),
                crate::transaction::bytes_view(keys@),
                txn.own(),
            ),
    {
        let ghost all = crate::transaction::bytes_view(keys@);
        let ghost chains0 = table.chains();
        let size: usize = keys.len();
        let mut i: usize = 0;
        proof {
            assert(all.take(0) =~= Seq::<Seq<u8>>::empty());
            assert(memtable::rolled_back_all(chains0, all.take(0), txn.own()) =~= chains0);
        }
        while i < size
            invariant
                i <= size,
                size == keys@.len(),
                all == crate::transaction::bytes_view(keys@),
                table.wf(),
                table.chains() == memtable::rolled_back_all(
                    chains0,
                    all.take(i as int),
                    txn.own(),
                ),
            decreases size - i,
        {
            proof {
                assert(all.take(i + 1) =~= all.take(i as int).push(keys@[i as int]@));
                memtable::lemma_rolled_back_step(
                    chains0,
                    all.take(i as int),
                    keys@[i as int]@,
                    txn.own(),
                );
            }
            match table.rollback(txn, keys[i].as_slice()) {
                Ok(_) => {},
                Err(e) => {
                    return Err(e);
                },
            }
            i = i + 1;
        }
        proof {
            assert(all.take(size as int) =~= all);
        }
        Ok(())
    }

    /// Aborts a transaction: takes back what it wrote and says so in the log.
    pub fn abort<M: MemTable>(
        &mut self,
        table: &mut M,
        wal: &mut Wal,
        txn: Transaction,
    ) -> (r: Result<(), Error>)
        requires
            old(self).wf(),
            txn.start().0 < old(self).counter(),
            old(table).wf(),
            old(wal).wf(),
            old(wal).tail().usable(),
            old(wal).segment_size() % 0x10000 == 0,
            old(wal).fits(log_record::full_encoding(txn.start(), RecordView::Abort).len()),
        ensures
            r is Ok,
            final(self).wf(),
            final(self).aborted_from(*old(self), txn),
            final(table).wf(),
            final(table).chains() == memtable::rolled_back_all(
                old(table).chains(),
                txn.written(),
                txn.own(),
            ),
            final(wal).wf(),
            final(wal).tail().usable(),
            final(wal).segment_size() == old(wal).segment_size(),
            exists|pos: nat| #[trigger]
                final(wal).logged_from(
                    *old(wal),
                    log_record::full_encoding(txn.start(), RecordView::Abort),
                    pos,
                ),
    {
        let mut txn = txn;
        let start_ts = txn.start_timestamp();
        let keys = txn.take_redo_keys();
        self.end_transaction(start_ts);
        match Self::rollback_all(table, &keys, &txn) {
            Ok(_) => {},
            Err(e) => {
                return Err(e);
            },
        }
        let txn_abort_log = TransactionLogRecord::create_transaction_abort_log();
        match wal.append_record_and_flush(start_ts, &txn_abort_log) {
            Ok(_) => {},
            Err(e) => {
                return Err(e);
            },
        }
        let ghost ended = *self;
        if txn.is_fast_commit() {
            match self.txn_table.set_transaction_status(start_ts, TransactionStatus::Aborted) {
                Ok(_) => {},
                Err(e) => {
                    return Err(e);
                },
            }
        }
        proof {
            assert forall|xid: Timestamp| #[trigger] self.status(xid) == if xid == start_ts
                && txn.kind() == TransactionMode::FastCommit {
                TransactionStatus::Aborted
            } else {
                old(self).status(xid)
            } by {
                assert(ended.status(xid) == old(self).status(xid));
            }
        }
        Ok(())
    }

    /// The oldest transaction in progress, which is remembered.
    pub fn min_xip(&mut self) -> (r: Option<Timestamp>)
        ensures
            r == if old(self).active().len() > 0 {
                Some(old(self).active()[0])
            } else {
                None
            },
            final(self).cached() == match r {
                Some(t) => t,
                None => old(self).cached(),
            },
            final(self).counter() == old(self).counter(),
            final(self).active() == old(self).active(),
            final(self).latest() == old(self).latest(),
            forall|xid: Timestamp| #[trigger] final(self).status(xid) == old(self).status(xid),
            old(self).wf() ==> final(self).wf(),
    {
        if self.xips.len() > 0 {
            let min_ts = self.xips[0];
            self.cached_min_xip = min_ts;
            Some(min_ts)
        } else {
            None
        }
    }

    /// The number that is given out next.
    pub fn next_timestamp(&self) -> (r: u64)
        ensures
            r == self.counter(),
    {
        self.timestamp_counter
    }

    /// The oldest transaction in progress when it was last looked up.
    pub fn cached_min_xip(&self) -> (r: Option<Timestamp>)
        ensures
            r == if self.cached().invalid() {
                None
            } else {
                Some(self.cached())
            },
    {
        if self.cached_min_xip.is_invalid() {
            None
        } else {
            Some(self.cached_min_xip)
        }
    }

    fn record_snapshot(&self, own: Timestamp) -> (r: Snapshot)
        requires
            self.wf(),
        ensures
            r@ == self.snapshot_for(own),
    {
        let max_xid = self.latest_completed_xid.inc();
        let mut min_xid = max_xid;
        let mut xips: Vec<Timestamp> = Vec::new();
        let size: usize = self.xips.len();
        let mut i: usize = 0;
        proof {
            assert(self.xips@.take(0) =~= Seq::<Timestamp>::empty());
        }
        while i < size
            invariant
                i <= size,
                size == self.xips@.len(),
                self.wf(),
                max_xid == self.latest().next(),
                min_xid == first_before(self.xips@.take(i as int), max_xid),
                xips@ == others_before(self.xips@.take(i as int), max_xid, own),
            decreases size - i,
        {
            let xid = self.xips[i];
            proof {
                let part = self.xips@.take(i + 1);
                assert(part.drop_last() =~= self.xips@.take(i as int));
                assert(part.last() == xid);
                assert(part[0] == self.xips@[0]);
                self.lemma_order(i as int);
                if i > 0 {
                    self.lemma_first(i as int);
                }
            }
            if xid < max_xid {
                if xid < min_xid {
                    min_xid = xid;
                }
                if xid.0 != own.0 {
                    xips.push(xid);
                }
            }
            i = i + 1;
        }
        proof {
            assert(self.xips@.take(size as int) =~= self.xips@);
        }
        Snapshot { min_xid, max_xid, xips }
    }

    proof fn lemma_order(self, i: int)
        requires
            self.wf(),
            0 <= i < self.xips@.len(),
        ensures
            !self.xips@[i].before(self.xips@[0]),
            self.xips@[i].typ() == TimestampType::Commit,
    {
        if i > 0 {
            assert(self.xips@[0].0 < self.xips@[i].0);
        }
        crate::transaction::lemma_before_is_less(self.xips@[i], self.xips@[0]);
    }

    /// Where a transaction comes before the next number, so does the oldest one.
    proof fn lemma_first(self, i: int)
        requires
            self.wf(),
            0 <= i < self.xips@.len(),
        ensures
            self.xips@[i].before(self.latest().next()) ==> self.xips@[0].before(
                self.latest().next(),
            ),
    {
        let latest = self.latest_completed_xid;
        let next = latest.next();
        crate::transaction::lemma_timestamp_of(latest.typ(), latest.raw() + 1);
        assert(next.0 == latest.0 + 1);
        if next.0 < 0x2000_0000_0000_0000 {
            crate::transaction::lemma_before_is_less(self.xips@[i], next);
            crate::transaction::lemma_before_is_less(self.xips@[0], next);
            if i > 0 {
                assert(self.xips@[0].0 < self.xips@[i].0);
            }
        } else {
            assert(self.xips@[0].0 > 0);
        }
    }

    /// The snapshot that a transaction reads by, which is taken if it has none.
    pub fn get_snapshot<'a>(&self, txn: &'a mut Transaction) -> (r: &'a Snapshot)
        requires
            self.wf(),
        ensures
            r@ == self.reads_by(*old(txn)),
            final(txn).snapshot() == Some(self.reads_by(*old(txn))),
            final(txn).same_but_snapshot(*old(txn)),
    {
        if txn.current_snapshot.is_none() {
            txn.current_snapshot = Some(self.record_snapshot(txn.start_timestamp));
        }
        txn.current_snapshot.as_ref().unwrap()
    }

    /// What became of a transaction.
    pub fn get_transaction_status(&self, xid: Timestamp) -> (r: Result<TransactionStatus, Error>)
        ensures
            r == Ok::<TransactionStatus, Error>(self.status(xid)),
    {
        self.txn_table.get_transaction_status(xid)
    }

    /// No transaction in progress is older than the oldest one, whose number has been given out or
    /// is given out next.
    pub proof fn lemma_oldest(self)
        requires
            self.wf(),
        ensures
            1 <= self.oldest() <= self.counter() <= 0x2000_0000_0000_0000,
            self.active().len() > 0 ==> self.oldest() < self.counter(),
            forall|i: int|
                0 <= i < self.active().len() ==> self.oldest() <= (#[trigger] self.active()[i]).0
                    < self.counter(),
    {
        if self.xips@.len() > 0 {
            assert(0 < self.xips@[0].0 < self.timestamp_counter);
        }
        assert forall|i: int| 0 <= i < self.active().len() implies self.oldest() <= (
        #[trigger] self.active()[i]).0 < self.counter() by {
            if i > 0 {
                assert(self.xips@[0].0 < self.xips@[i].0);
            }
        }
    }

    /// The oldest transaction in progress does not get older when one ends.
    pub proof fn lemma_oldest_ended(self, before: TransactionManager, start: Timestamp)
        requires
            before.wf(),
            self.ended_from(before, start),
            self.counter() >= before.counter(),
        ensures
            self.oldest() >= before.oldest(),
    {
        before.lemma_oldest();
        let active = before.xips@;
        if active.contains(start) {
            let n = active.index_of(start);
            assert(0 <= n < active.len());
            if self.active().len() > 0 {
                if n == 0 {
                    assert(self.active()[0] == active[1]);
                    assert(active[0].0 < active[1].0);
                } else {
                    assert(self.active()[0] == active[0]);
                }
            }
        }
    }

    /// No transaction is in progress twice, and none that has ended has a number that was not given
    /// out.
    pub proof fn lemma_numbers(self)
        requires
            self.wf(),
        ensures
            self.active().no_duplicates(),
            self.latest().0 < self.counter() <= 0x2000_0000_0000_0000,
    {
        let xips = self.xips@;
        assert forall|i: int, j: int|
            0 <= i < xips.len() && 0 <= j < xips.len() && i != j implies xips[i] != xips[j] by {
            if i < j {
                assert(xips[i].0 < xips[j].0);
            } else {
                assert(xips[j].0 < xips[i].0);
            }
        }
    }

    /// The transactions in progress stand in the order of their numbers.
    pub proof fn lemma_ascending(self)
        requires
            self.wf(),
        ensures
            forall|i: int, j: int|
                0 <= i < j < self.active().len() ==> (#[trigger] self.active()[i]).0 < (
                #[trigger] self.active()[j]).0,
    {
    }

    /// A transaction that is known to have committed has ended, and every snapshot tells so.
    pub proof fn lemma_committed_has_ended(self, own: Timestamp, xid: Timestamp)
        requires
            self.wf(),
            self.latest().0 + 1 < 0x2000_0000_0000_0000,
            self.status(xid) == TransactionStatus::Committed,
        ensures
            xid.0 <= self.latest().0,
            !self.active().contains(xid),
            !self.snapshot_for(own).in_progress(xid),
    {
        assert(self.txn_table.status(xid) == TransactionStatus::Committed);
        self.lemma_snapshot_tells(own, xid);
    }

    /// A snapshot tells which transactions are in progress: the others that are, and all that start
    /// after the last one that has ended.
    pub proof fn lemma_snapshot_tells(self, own: Timestamp, xid: Timestamp)
        requires
            self.wf(),
            xid.0 < self.counter(),
            self.latest().0 + 1 < 0x2000_0000_0000_0000,
        ensures
            self.snapshot_for(own).in_progress(xid) <==> xid.0 > self.latest().0 || (
            self.active().contains(xid) && xid != own),
    {
        let latest = self.latest_completed_xid;
        let max = latest.next();
        crate::transaction::lemma_timestamp_of(latest.typ(), latest.raw() + 1);
        assert(max.0 == latest.0 + 1);
        let snap = self.snapshot_for(own);
        crate::transaction::lemma_before_is_less(xid, max);
        lemma_others_before(self.xips@, max, own, xid);
        if self.xips@.len() > 0 {
            crate::transaction::lemma_before_is_less(self.xips@[0], max);
            crate::transaction::lemma_before_is_less(xid, self.xips@[0]);
        }
        if self.xips@.contains(xid) {
            let i = choose|i: int| 0 <= i < self.xips@.len() && self.xips@[i] == xid;
            if i > 0 {
                assert(self.xips@[0].0 < self.xips@[i].0);
            }
        }
    }
}

/// What is in progress after one transaction was taken out: no other one, and not that one.
proof fn lemma_removed(before: Seq<Timestamp>, after: Seq<Timestamp>, i: int, x: Timestamp)
    requires
        0 <= i <= before.len(),
        forall|a: int, b: int|
            0 <= a < b < before.len() ==> (#[trigger] before[a]).0 < (#[trigger] before[b]).0,
        if i < before.len() {
            before[i] == x && after == before.remove(i)
        } else {
            !before.contains(x) && after == before
        },
    ensures
        !after.contains(x),
        forall|y: Timestamp| after.contains(y) ==> #[trigger] before.contains(y),
{
    assert forall|j: int| 0 <= j < after.len() implies before.contains(#[trigger] after[j])
        && after[j] != x by {
        let j0 = if j < i {
            j
        } else {
            j + 1
        };
        if i < before.len() {
            assert(after[j] == before[j0]);
            if j < i {
                assert(before[j].0 < before[i].0);
            } else {
                assert(before[i].0 < before[j0].0);
            }
        } else {
            assert(after[j] == before[j]);
        }
    }
}

proof fn lemma_others_before(xips: Seq<Timestamp>, limit: Timestamp, own: Timestamp, xid: Timestamp)
    ensures
        others_before(xips, limit, own).contains(xid) <==> xips.contains(xid) && xid.before(limit)
            && xid != own,
    decreases xips.len(),
{
    if xips.len() > 0 {
        let init = others_before(xips.drop_last(), limit, own);
        lemma_others_before(xips.drop_last(), limit, own, xid);
        assert(xips =~= xips.drop_last().push(xips.last()));
        let pushed = init.push(xips.last());
        if xips.contains(xid) {
            let i = choose|i: int| 0 <= i < xips.len() && xips[i] == xid;
            if i < xips.len() - 1 {
                assert(xips.drop_last()[i] == xid);
                if init.contains(xid) {
                    let j = choose|j: int| 0 <= j < init.len() && init[j] == xid;
                    assert(pushed[j] == xid);
                }
            } else {
                assert(pushed[init.len() as int] == xid);
            }
        }
        if pushed.contains(xid) {
            let j = choose|j: int| 0 <= j < pushed.len() && pushed[j] == xid;
            if j < init.len() {
                assert(init[j] == xid);
            } else {
                assert(xips[xips.len() - 1] == xid);
            }
        }
        if xips.drop_last().contains(xid) {
            let i = choose|i: int| 0 <= i < xips.len() - 1 && xips.drop_last()[i] == xid;
            assert(xips[i] == xid);
        }
    }
}

} // verus!

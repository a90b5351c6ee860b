//! Transactions and the timestamps that order them.
pub mod history;
pub mod lifecycle;
pub mod transaction_log;
pub mod transaction_manager;
pub mod transaction_table;

use crate::error::Error;
use crate::storage::RedoNode;
use crate::wal::log_record::RecordView;
use crate::wal::{LogRecord, Wal};
use std::cmp::Ordering;
use vstd::prelude::*;

pub use crate::transaction::transaction_log::TransactionLogRecord;
pub use crate::transaction::transaction_manager::TransactionManager;
pub use crate::transaction::transaction_table::{TransactionStatus, TransactionTable};

verus! {

/// The bits of a timestamp that hold its type.
pub const TIMESTAMP_TYPE_WIDTH: usize = 2;

/// The bits of a timestamp that hold its number.
pub const TIMESTAMP_MASK: u64 = 0x3fff_ffff_ffff_ffff;

/// The timestamp that stands for none.
pub const INVALID_TIMESTAMP: u64 = 0;

/// What the number of a timestamp counts.
#[derive(Copy, Clone, Debug, Hash, PartialEq, Eq, Structural)]
pub enum TimestampType {
    /// When a transaction committed.
    Commit,
    /// When a transaction started that may have committed since.
    Start,
    /// When a transaction started that has committed since.
    StartCommitted,
    /// When a transaction started that has not committed.
    Uncommitted,
}

impl TimestampType {
    /// The number of a type, by which types are ordered.
    pub open spec fn rank(self) -> nat {
        match self {
            TimestampType::Commit => 0,
            TimestampType::Start => 1,
            TimestampType::StartCommitted => 2,
            TimestampType::Uncommitted => 3,
        }
    }

    /// The type with a number.
    pub open spec fn of(value: nat) -> TimestampType {
        if value == 0 {
            TimestampType::Commit
        } else if value == 1 {
            TimestampType::Start
        } else if value == 2 {
            TimestampType::StartCommitted
        } else {
            TimestampType::Uncommitted
        }
    }

    fn number(self) -> (r: u64)
        ensures
            r == self.rank(),
    {
        match self {
            TimestampType::Commit => 0,
            TimestampType::Start => 1,
            TimestampType::StartCommitted => 2,
            TimestampType::Uncommitted => 3,
        }
    }
}

impl From<u8> for TimestampType {
    fn from(value: u8) -> (r: Self) {
        match value {
            0 => TimestampType::Commit,
            1 => TimestampType::Start,
            2 => TimestampType::StartCommitted,
            _ => TimestampType::Uncommitted,
        }
    }
}

impl vstd::std_specs::convert::FromSpecImpl<u8> for TimestampType {
    open spec fn obeys_from_spec() -> bool {
        true
    }

    open spec fn from_spec(value: u8) -> Self {
        TimestampType::of(value as nat)
    }
}

/// A type and a number that goes round.
#[derive(Copy, Clone, Debug, Hash, PartialEq, Eq, Structural)]
pub struct Timestamp(pub u64);

/// One more than the greatest number of a timestamp.
pub open spec fn timestamp_range() -> int {
    0x4000_0000_0000_0000
}

impl Timestamp {
    /// The number.
    pub open spec fn raw(self) -> nat {
        self.0 as nat % 0x4000_0000_0000_0000
    }

    /// The type.
    pub open spec fn typ(self) -> TimestampType {
        TimestampType::of(self.0 as nat / 0x4000_0000_0000_0000)
    }

    /// The timestamp with a type and a number, of which the low bits count.
    pub open spec fn of(typ: TimestampType, number: nat) -> Timestamp {
        Timestamp(
            (number % 0x4000_0000_0000_0000 + typ.rank() * 0x4000_0000_0000_0000) as u64,
        )
    }

    /// Whether it stands for no timestamp.
    pub open spec fn invalid(self) -> bool {
        self.0 == 0
    }

    /// Whether the number counts commits or starts of transactions that may have committed.
    pub open spec fn committed(self) -> bool {
        self.typ() != TimestampType::Uncommitted
    }

    /// The number as that of a commit.
    pub open spec fn normal(self) -> Timestamp {
        if self.invalid() {
            self
        } else {
            Timestamp::of(TimestampType::Commit, self.raw())
        }
    }

    /// Whether this comes before the other. Numbers go round: of two numbers of the same type the
    /// one comes first from which the other is reached in less than half a round, or in exactly
    /// half a round.
    pub open spec fn before(self, other: Timestamp) -> bool {
        if self.invalid() || other.invalid() {
            self.invalid() && !other.invalid()
        } else if self.typ() != other.typ() {
            self.typ().rank() < other.typ().rank()
        } else {
            (self.raw() - other.raw()) % timestamp_range() >= 0x2000_0000_0000_0000
        }
    }

    pub fn new(typ: TimestampType, timestamp: u64) -> (r: Self)
        ensures
            r == Timestamp::of(typ, timestamp as nat),
    {
        let number: u64 = timestamp & TIMESTAMP_MASK;
        let kind: u64 = typ.number();
        let r: u64 = number | ((kind & 3) << 62);
        assert(number == timestamp % 0x4000_0000_0000_0000 && (kind <= 3 ==> r == number + kind
            * 0x4000_0000_0000_0000)) by (bit_vector)
            requires
                number == timestamp & 0x3fff_ffff_ffff_ffff,
                r == number | ((kind & 3) << 62),
        ;
        Self(r)
    }

    pub fn type_(&self) -> (r: TimestampType)
        ensures
            r == self.typ(),
    {
        let v: u64 = self.0;
        let kind: u64 = (v >> 62) & 3;
        assert(kind == v / 0x4000_0000_0000_0000 && kind < 4) by (bit_vector)
            requires
                kind == (v >> 62) & 3,
        ;
        TimestampType::from(kind as u8)
    }

    pub fn raw_timestamp(&self) -> (r: u64)
        ensures
            r == self.raw(),
    {
        let v: u64 = self.0;
        assert(v & 0x3fff_ffff_ffff_ffff == v % 0x4000_0000_0000_0000) by (bit_vector);
        self.0 & TIMESTAMP_MASK
    }

    pub fn is_invalid(self) -> (r: bool)
        ensures
            r == self.invalid(),
    {
        self.0 == INVALID_TIMESTAMP
    }

    pub fn is_committed(self) -> (r: bool)
        ensures
            r == self.committed(),
    {
        self.type_() != TimestampType::Uncommitted
    }

    pub fn normalize(self) -> (r: Self)
        ensures
            r == self.normal(),
    {
        if self.is_invalid() {
            Self::default()
        } else {
            Self::new(TimestampType::Commit, self.raw_timestamp())
        }
    }

    /// The timestamp after this one.
    pub open spec fn next(self) -> Timestamp {
        let t = Timestamp::of(self.typ(), self.raw() + 1);
        if t.invalid() {
            Timestamp::of(self.typ(), 1)
        } else {
            t
        }
    }

    /// The timestamp before this one.
    pub open spec fn prev(self) -> Timestamp {
        let t = Timestamp::of(self.typ(), ((self.raw() - 1) % timestamp_range()) as nat);
        if t.invalid() {
            Timestamp::of(self.typ(), 0x3fff_ffff_ffff_ffff)
        } else {
            t
        }
    }

    /// The next timestamp of the same type that is not invalid.
    pub fn inc(self) -> (r: Self)
        ensures
            r == self.next(),
    {
        let xid: u64 = self.raw_timestamp() + 1;
        let next = Timestamp::new(self.type_(), xid);
        if next.is_invalid() {
            proof {
                assert((xid + 1) as nat % 0x4000_0000_0000_0000 == 1);
            }
            Timestamp::new(self.type_(), xid + 1)
        } else {
            next
        }
    }

    /// The timestamp of the same type before this one that is not invalid.
    pub fn dec(self) -> (r: Self)
        ensures
            r == self.prev(),
    {
        let raw = self.raw_timestamp();
        let xid: u64 = raw.wrapping_sub(1);
        proof {
            assert(xid as nat % 0x4000_0000_0000_0000 == (raw - 1) % timestamp_range());
        }
        let prev = Timestamp::new(self.type_(), xid);
        if prev.is_invalid() {
            let xid: u64 = xid.wrapping_sub(1);
            Timestamp::new(self.type_(), xid)
        } else {
            prev
        }
    }

    /// Whether this comes before the other.
    pub fn is_before(&self, other: &Timestamp) -> (r: bool)
        ensures
            r == self.before(*other),
    {
        if self.is_invalid() || other.is_invalid() {
            self.is_invalid() && !other.is_invalid()
        } else if self.type_() != other.type_() {
            self.type_().number() < other.type_().number()
        } else {
            let a: u64 = self.raw_timestamp();
            let b: u64 = other.raw_timestamp();
            let delta: u64 = a.wrapping_sub(b);
            let r = delta & 0x2000_0000_0000_0000 != 0;
            assert(a < 0x4000_0000_0000_0000 && b < 0x4000_0000_0000_0000 ==> (delta
                & 0x2000_0000_0000_0000 != 0) == (delta % 0x4000_0000_0000_0000
                >= 0x2000_0000_0000_0000)) by (bit_vector);
            proof {
                assert(delta as nat % 0x4000_0000_0000_0000 == (a - b) % timestamp_range());
            }
            r
        }
    }
}

impl Default for Timestamp {
    /// No timestamp.
    fn default() -> (r: Self)
        ensures
            r == Timestamp(0),
    {
        Self(INVALID_TIMESTAMP)
    }
}

impl PartialOrd for Timestamp {
    fn partial_cmp(&self, other: &Timestamp) -> (r: Option<Ordering>) {
        if self.0 == other.0 {
            Some(Ordering::Equal)
        } else if self.is_before(other) {
            Some(Ordering::Less)
        } else {
            Some(Ordering::Greater)
        }
    }
}

impl vstd::std_specs::cmp::PartialOrdSpecImpl for Timestamp {
    open spec fn obeys_partial_cmp_spec() -> bool {
        true
    }

    open spec fn partial_cmp_spec(&self, other: &Timestamp) -> Option<Ordering> {
        if *self == *other {
            Some(Ordering::Equal)
        } else if self.before(*other) {
            Some(Ordering::Less)
        } else {
            Some(Ordering::Greater)
        }
    }
}

impl From<u64> for Timestamp {
    fn from(value: u64) -> (r: Self) {
        Self(value)
    }
}

impl vstd::std_specs::convert::FromSpecImpl<u64> for Timestamp {
    open spec fn obeys_from_spec() -> bool {
        true
    }

    open spec fn from_spec(value: u64) -> Self {
        Timestamp(value)
    }
}

/// A timestamp has its type and its number, and no two have both in common.
pub proof fn lemma_timestamp_parts(t: Timestamp)
    ensures
        Timestamp::of(t.typ(), t.raw()) == t,
        t.raw() < 0x4000_0000_0000_0000,
{
}

/// A timestamp is made of the type and the low bits of the number that it is made from.
pub proof fn lemma_timestamp_of(typ: TimestampType, number: nat)
    ensures
        Timestamp::of(typ, number).typ() == typ,
        Timestamp::of(typ, number).raw() == number % 0x4000_0000_0000_0000,
{
}

/// The next timestamp comes after this one, and this one is the one before it. The timestamp that
/// stands for none is left out: none is the one before the first.
pub proof fn lemma_next_and_prev(t: Timestamp)
    requires
        !t.invalid(),
    ensures
        !t.next().invalid(),
        !t.prev().invalid(),
        t.before(t.next()),
        t.prev().before(t),
        t.next().prev() == t,
        t.prev().next() == t,
        t.next().typ() == t.typ(),
        t.prev().typ() == t.typ(),
{
    lemma_next(t);
    lemma_prev(t);
    lemma_prev(t.next());
    lemma_next(t.prev());
    lemma_timestamp_parts(t);
}

proof fn lemma_next(t: Timestamp)
    requires
        !t.invalid(),
    ensures
        !t.next().invalid(),
        t.before(t.next()),
        t.next().typ() == t.typ(),
        t.next().raw() == if t.raw() == 0x3fff_ffff_ffff_ffff {
            if t.typ().rank() == 0 {
                1nat
            } else {
                0
            }
        } else {
            t.raw() + 1
        },
{
    lemma_timestamp_of(t.typ(), t.raw() + 1);
    lemma_timestamp_of(t.typ(), 1);
}

proof fn lemma_prev(t: Timestamp)
    requires
        !t.invalid(),
    ensures
        !t.prev().invalid(),
        t.prev().before(t),
        t.prev().typ() == t.typ(),
        t.prev().raw() == if t.raw() == 0 || (t.raw() == 1 && t.typ().rank() == 0) {
            0x3fff_ffff_ffff_ffff
        } else {
            (t.raw() - 1) as nat
        },
{
    lemma_timestamp_of(t.typ(), ((t.raw() - 1) % timestamp_range()) as nat);
    lemma_timestamp_of(t.typ(), 0x3fff_ffff_ffff_ffff);
}

/// Timestamps are comparable one way only. Left out are two of the same type whose numbers are
/// exactly half a round apart: each of them comes before the other.
pub proof fn lemma_before_is_asymmetric(a: Timestamp, b: Timestamp)
    requires
        !a.invalid() && !b.invalid() && a.typ() == b.typ() ==> (a.raw() - b.raw())
            % timestamp_range() != 0x2000_0000_0000_0000,
    ensures
        !(a.before(b) && b.before(a)),
        a == b || a.before(b) || b.before(a),
{
}

/// Among commit timestamps of the first half of the range, one comes before another exactly where
/// its number is less.
pub proof fn lemma_before_is_less(a: Timestamp, b: Timestamp)
    requires
        a.0 < 0x2000_0000_0000_0000,
        b.0 < 0x2000_0000_0000_0000,
    ensures
        a.before(b) == (a.0 < b.0),
        a.typ() == TimestampType::Commit,
        a.normal() == a,
{
}

/// How a transaction marks what it writes.
#[derive(Copy, Clone, Debug, Hash, PartialEq, Eq, Structural)]
pub enum TransactionMode {
    /// Versions are marked with the commit timestamp when the transaction commits.
    Normal,
    /// Versions keep the start timestamp; whether it committed is looked up.
    FastCommit,
}

/// What a snapshot says: the first transaction that was active, the first that was not assigned,
/// and the others that were active in between.
pub struct SnapshotView {
    pub min_xid: Timestamp,
    pub max_xid: Timestamp,
    pub xips: Seq<Timestamp>,
}

impl SnapshotView {
    /// Whether a transaction had not ended when the snapshot was taken.
    pub open spec fn in_progress(self, xid: Timestamp) -> bool {
        if xid.before(self.min_xid) {
            false
        } else if !xid.before(self.max_xid) {
            true
        } else {
            self.xips.contains(xid)
        }
    }
}

/// Which transactions were active at one time.
pub struct Snapshot {
    pub min_xid: Timestamp,
    pub max_xid: Timestamp,
    pub xips: Vec<Timestamp>,
}

impl View for Snapshot {
    type V = SnapshotView;

    open spec fn view(&self) -> SnapshotView {
        SnapshotView { min_xid: self.min_xid, max_xid: self.max_xid, xips: self.xips@ }
    }
}

impl Snapshot {
    /// Whether the transaction was in progress when the snapshot was taken.
    pub fn is_xid_in_progress(&self, xid: Timestamp) -> (r: bool)
        ensures
            r == self@.in_progress(xid),
    {
        if xid < self.min_xid {
            return false;
        }
        if !(xid < self.max_xid) {
            return true;
        }
        let size: usize = self.xips.len();
        let mut i: usize = 0;
        while i < size
            invariant
                i <= size,
                size == self.xips@.len(),
                !xid.before(self.min_xid),
                xid.before(self.max_xid),
                forall|j: int| 0 <= j < i ==> self.xips@[j] != xid,
            decreases size - i,
        {
            if self.xips[i].0 == xid.0 {
                assert(self.xips@[i as int] == xid);
                return true;
            }
            i = i + 1;
        }
        false
    }
}

/// A transaction in progress.
pub struct Transaction {
    mode: TransactionMode,
    start_timestamp: Timestamp,
    commit_timestamp: Timestamp,
    is_readonly: bool,
    /// The keys whose versions have to be marked with the commit timestamp.
    redo_keys: Vec<Vec<u8>>,
    staged_log_records: Vec<Vec<u8>>,
    current_snapshot: Option<Snapshot>,
}

/// The bytes of several byte strings.
pub open spec fn bytes_view(v: Seq<Vec<u8>>) -> Seq<Seq<u8>> {
    v.map_values(|b: Vec<u8>| b@)
}

impl Transaction {
    /// How the transaction marks what it writes.
    pub closed spec fn kind(self) -> TransactionMode {
        self.mode
    }

    /// When the transaction started.
    pub closed spec fn start(self) -> Timestamp {
        self.start_timestamp
    }

    /// The timestamp of the versions that the transaction writes.
    pub closed spec fn own(self) -> Timestamp {
        self.commit_timestamp
    }

    /// Whether the transaction wrote nothing.
    pub closed spec fn readonly(self) -> bool {
        self.is_readonly
    }

    /// The keys that the transaction wrote, as far as their versions have to be marked.
    pub closed spec fn written(self) -> Seq<Seq<u8>> {
        bytes_view(self.redo_keys@)
    }

    /// The log records of what the transaction wrote.
    pub closed spec fn staged(self) -> Seq<Seq<u8>> {
        bytes_view(self.staged_log_records@)
    }

    /// The snapshot that the transaction reads by, if it has taken one.
    pub closed spec fn snapshot(self) -> Option<SnapshotView> {
        match self.current_snapshot {
            Some(s) => Some(s@),
            None => None,
        }
    }

    /// Whether this state comes from another one by taking the snapshot that a manager gives, if
    /// by anything.
    pub open spec fn read_from(self, before: Transaction, mgr: TransactionManager) -> bool {
        &&& self.same_but_snapshot(before)
        &&& self.snapshot() == before.snapshot() || self.snapshot() == Some(mgr.reads_by(before))
    }

    /// Whether this state comes from another one by writing a key, whose log record is given, after
    /// reading.
    pub open spec fn wrote(
        self,
        before: Transaction,
        mgr: TransactionManager,
        key: Seq<u8>,
        record: RecordView,
    ) -> bool {
        &&& self.kind() == before.kind()
        &&& self.start() == before.start()
        &&& self.own() == before.own()
        &&& !self.readonly()
        &&& self.written() == if before.kind() == TransactionMode::FastCommit {
            before.written()
        } else {
            before.written().push(key)
        }
        &&& self.staged() == before.staged().push(
            crate::wal::log_record::full_encoding(before.start(), record),
        )
        &&& self.snapshot() == before.snapshot() || self.snapshot() == Some(mgr.reads_by(before))
    }

    /// Whether the transaction was just started, with a number.
    pub open spec fn fresh(self, mode: TransactionMode, number: nat) -> bool {
        &&& self.kind() == mode
        &&& self.start() == Timestamp(number as u64)
        &&& self.own() == Timestamp::of(
            if mode == TransactionMode::FastCommit {
                TimestampType::Start
            } else {
                TimestampType::Uncommitted
            },
            number,
        )
        &&& self.readonly()
        &&& self.written() == Seq::<Seq<u8>>::empty()
        &&& self.staged() == Seq::<Seq<u8>>::empty()
        &&& self.snapshot() is None
    }

    /// Whether two states differ in nothing but their snapshot.
    pub open spec fn same_but_snapshot(self, other: Transaction) -> bool {
        &&& self.kind() == other.kind()
        &&& self.start() == other.start()
        &&& self.own() == other.own()
        &&& self.readonly() == other.readonly()
        &&& self.written() == other.written()
        &&& self.staged() == other.staged()
    }

    pub fn new(
        mode: TransactionMode,
        start_timestamp: Timestamp,
        commit_timestamp: Timestamp,
    ) -> (r: Self)
        ensures
            r.kind() == mode,
            r.start() == start_timestamp,
            r.own() == commit_timestamp,
            r.readonly(),
            r.written() == Seq::<Seq<u8>>::empty(),
            r.staged() == Seq::<Seq<u8>>::empty(),
            r.snapshot() is None,
    {
        let r = Self {
            mode,
            start_timestamp,
            commit_timestamp,
            is_readonly: true,
            redo_keys: Vec::new(),
            staged_log_records: Vec::new(),
            current_snapshot: None,
        };
        proof {
            assert(r.written() =~= Seq::<Seq<u8>>::empty());
            assert(r.staged() =~= Seq::<Seq<u8>>::empty());
        }
        r
    }

    pub fn mode(&self) -> (r: TransactionMode)
        ensures
            r == self.kind(),
    {
        self.mode
    }

    pub fn start_timestamp(&self) -> (r: Timestamp)
        ensures
            r == self.start(),
    {
        self.start_timestamp
    }

    pub fn commit_timestamp(&self) -> (r: Timestamp)
        ensures
            r == self.own(),
    {
        self.commit_timestamp
    }

    pub fn is_readonly(&self) -> (r: bool)
        ensures
            r == self.readonly(),
    {
        self.is_readonly
    }

    pub fn is_fast_commit(&self) -> (r: bool)
        ensures
            r == (self.kind() == TransactionMode::FastCommit),
    {
        self.mode == TransactionMode::FastCommit
    }

    /// The version that gives a key a value.
    pub fn get_insert_redo(&self, inserted: Vec<u8>) -> (r: RedoNode)
        ensures
            r@.timestamp == self.own(),
            r@.collected.invalid(),
            r@.value == Some(inserted@),
    {
        RedoNode::new_insert(self.commit_timestamp, inserted)
    }

    /// The version that deletes a key.
    pub fn get_delete_redo(&self) -> (r: RedoNode)
        ensures
            r@.timestamp == self.own(),
            r@.collected.invalid(),
            r@.value is None,
    {
        RedoNode::new_delete(self.commit_timestamp)
    }

    /// Notes that the transaction wrote a key.
    pub fn add_redo_node(&mut self, key: Vec<u8>)
        ensures
            final(self).kind() == old(self).kind(),
            final(self).start() == old(self).start(),
            final(self).own() == old(self).own(),
            final(self).staged() == old(self).staged(),
            final(self).snapshot() == old(self).snapshot(),
            !final(self).readonly(),
            final(self).written() == if old(self).kind() == TransactionMode::FastCommit {
                old(self).written()
            } else {
                old(self).written().push(key@)
            },
    {
        self.is_readonly = false;
        if !self.is_fast_commit() {
            let ghost before = self.redo_keys@;
            self.redo_keys.push(key);
            proof {
                assert(bytes_view(self.redo_keys@) =~= bytes_view(before).push(key@));
            }
        }
    }

    /// Takes the keys whose versions have to be marked or rolled back.
    pub(crate) fn take_redo_keys(&mut self) -> (r: Vec<Vec<u8>>)
        ensures
            bytes_view(r@) == old(self).written(),
            final(self).kind() == old(self).kind(),
            final(self).start() == old(self).start(),
            final(self).own() == old(self).own(),
            final(self).staged() == old(self).staged(),
            final(self).snapshot() == old(self).snapshot(),
            final(self).readonly() == old(self).readonly(),
            final(self).written() == Seq::<Seq<u8>>::empty(),
    {
        let mut keys: Vec<Vec<u8>> = Vec::new();
        std::mem::swap(&mut keys, &mut self.redo_keys);
        proof {
            assert(bytes_view(self.redo_keys@) =~= Seq::<Seq<u8>>::empty());
        }
        keys
    }

    /// Keeps a log record until the transaction commits.
    pub fn stage_log_record(&mut self, wal: &Wal, record: &LogRecord) -> (r: Result<(), Error>)
        ensures
            r is Ok,
            final(self).kind() == old(self).kind(),
            final(self).start() == old(self).start(),
            final(self).own() == old(self).own(),
            final(self).written() == old(self).written(),
            final(self).snapshot() == old(self).snapshot(),
            final(self).readonly() == old(self).readonly(),
            final(self).staged() == old(self).staged().push(
                crate::wal::log_record::full_encoding(old(self).start(), record@),
            ),
    {
        let buf = wal.get_full_record(self.start_timestamp, record);
        let ghost before = self.staged_log_records@;
        self.staged_log_records.push(buf);
        proof {
            assert(bytes_view(self.staged_log_records@) =~= bytes_view(before).push(buf@));
        }
        Ok(())
    }

    /// The log records that are kept until the transaction commits.
    pub fn staged_log_records(&self) -> (r: &Vec<Vec<u8>>)
        ensures
            bytes_view(r@) == self.staged(),
    {
        &self.staged_log_records
    }

    /// Appends the kept log records to the log.
    pub fn commit_log_records(&self, wal: &mut Wal) -> (r: Result<(), Error>)
        requires
            old(wal).wf(),
            old(wal).tail().usable(),
            old(wal).fits_all(self.staged()),
            old(wal).segment_size() % 0x10000 == 0 || self.staged().len() <= 1,
        ensures
            r is Ok,
            final(wal).wf(),
            final(wal).segment_size() == old(wal).segment_size(),
            old(wal).segment_size() % 0x10000 == 0 ==> final(wal).tail().usable(),
            final(wal).appended_all(*old(wal), self.staged()),
            final(wal).tail().number() <= old(wal).tail().number() + self.staged().len(),
    {
        proof {
            assert(crate::wal::records_view(self.staged_log_records@) =~= self.staged());
        }
        wal.append_all(&self.staged_log_records)
    }
}

} // verus!

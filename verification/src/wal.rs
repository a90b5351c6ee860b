//! The write-ahead log.
pub mod checkpoint;
pub mod files;
pub mod layout;
pub mod log_record;
pub mod reader;
pub mod segment;
pub mod wal_log;

use crate::coding;
use crate::error::Error;
use crate::transaction::Timestamp;
use crate::wal::log_record::{decode_record, encode_record};
use crate::wal::segment::{Segment, SegmentView};
use vstd::prelude::*;

pub use crate::wal::checkpoint::{CheckpointManager, DbState};
pub use crate::wal::log_record::LogRecord;
pub use crate::wal::reader::{ReadStep, WalReader};
pub use crate::wal::segment::{LogPointer, WalSyncMethod};
pub use crate::wal::wal_log::{CheckpointLog, WalLogRecord};

verus! {

/// Whether a log pointer points nowhere.
pub fn is_invalid_lsn(lsn: LogPointer) -> (r: bool)
    ensures
        r == (lsn == 0),
{
    lsn == 0
}

/// What a log is made with.
#[derive(Clone, Copy)]
pub struct WalOptions {
    pub segment_capacity: usize,
    pub wal_sync_method: WalSyncMethod,
}

impl Default for WalOptions {
    fn default() -> (r: Self)
        ensures
            r.segment_capacity == 0x100_0000,
            r.wal_sync_method == WalSyncMethod::SyncData,
    {
        Self { segment_capacity: 16 * 1024 * 1024, wal_sync_method: WalSyncMethod::SyncData }
    }
}

impl WalOptions {
    pub fn new() -> (r: Self)
        ensures
            r.segment_capacity == 0x100_0000,
            r.wal_sync_method == WalSyncMethod::SyncData,
    {
        Self::default()
    }

    pub fn segment_capacity(self, to: usize) -> (r: Self)
        ensures
            r == (WalOptions { segment_capacity: to, ..self }),
    {
        WalOptions { segment_capacity: to, wal_sync_method: self.wal_sync_method }
    }

    pub fn wal_sync_method(self, to: WalSyncMethod) -> (r: Self)
        ensures
            r == (WalOptions { wal_sync_method: to, ..self }),
    {
        WalOptions { segment_capacity: self.segment_capacity, wal_sync_method: to }
    }
}

/// The value of a hexadecimal digit.
pub open spec fn hex_digit(b: u8) -> Option<nat> {
    if 0x30 <= b <= 0x39 {
        Some((b - 0x30) as nat)
    } else if 0x41 <= b <= 0x46 {
        Some((b - 0x37) as nat)
    } else if 0x61 <= b <= 0x66 {
        Some((b - 0x57) as nat)
    } else {
        None
    }
}

/// The value of hexadecimal digits.
pub open spec fn hex_value(s: Seq<u8>) -> Option<nat>
    decreases s.len(),
{
    if s.len() == 0 {
        Some(0)
    } else {
        match (hex_value(s.drop_last()), hex_digit(s.last())) {
            (Some(v), Some(d)) => Some(v * 16 + d),
            _ => None,
        }
    }
}

/// The number that a file name stands for: hexadecimal digits, after a plus sign or not.
pub open spec fn segno_of(name: Seq<u8>) -> Option<nat> {
    let digits = if name.len() > 0 && name[0] == 0x2b {
        name.drop_first()
    } else {
        name
    };
    if digits.len() == 0 {
        None
    } else {
        match hex_value(digits) {
            Some(v) => if v <= u32::MAX {
                Some(v)
            } else {
                None
            },
            None => None,
        }
    }
}

/// The upper-case hexadecimal digit with a value.
pub open spec fn digit_of(v: nat) -> u8 {
    if v < 10 {
        (0x30 + v) as u8
    } else {
        (0x37 + v) as u8
    }
}

/// The last `n` hexadecimal digits of a number.
pub open spec fn hex_digits(v: nat, n: nat) -> Seq<u8>
    decreases n,
{
    if n == 0 {
        Seq::empty()
    } else {
        hex_digits(v / 16, (n - 1) as nat).push(digit_of(v % 16))
    }
}

proof fn lemma_hex_digits(v: nat, n: nat)
    ensures
        hex_digits(v, n).len() == n,
        n <= 8 && v < vstd::arithmetic::power::pow(16, n) ==> hex_value(hex_digits(v, n)) == Some(
            v,
        ),
        n > 0 ==> hex_digits(v, n)[0] != 0x2b,
    decreases n,
{
    if n > 0 {
        vstd::arithmetic::power::lemma_pow_positive(16, (n - 1) as nat);
        assert(vstd::arithmetic::power::pow(16, n) == 16 * vstd::arithmetic::power::pow(
            16,
            (n - 1) as nat,
        )) by {
            reveal(vstd::arithmetic::power::pow);
        }
        lemma_hex_digits(v / 16, (n - 1) as nat);
        let s = hex_digits(v, n);
        assert(s.drop_last() =~= hex_digits(v / 16, (n - 1) as nat));
        assert(hex_digit(digit_of(v % 16)) == Some(v % 16));
        if n == 1 {
            assert(s[0] == digit_of(v % 16));
        } else {
            assert(s[0] == hex_digits(v / 16, (n - 1) as nat)[0]);
        }
    } else {
        reveal(vstd::arithmetic::power::pow);
    }
}

/// The name of a segment's file stands for its number.
pub proof fn lemma_filename_round_trip(segno: u32)
    ensures
        segno_of(hex_digits(segno as nat, 8)) == Some(segno as nat),
{
    assert(vstd::arithmetic::power::pow(16, 8) == 0x1_0000_0000) by {
        reveal_with_fuel(vstd::arithmetic::power::pow, 9);
    }
    lemma_hex_digits(segno as nat, 8);
}

/// The name of a segment's file: its number in eight hexadecimal digits.
pub fn segno_to_filename(segno: u32) -> (r: Vec<u8>)
    ensures
        r@ == hex_digits(segno as nat, 8),
{
    let mut name: Vec<u8> = Vec::new();
    let mut i: u32 = 0;
    while i < 8
        invariant
            i <= 8,
            name@ == hex_digits(segno as nat / top_divisor(i as nat), i as nat),
        decreases 8 - i,
    {
        let v: u32 = match i {
            0 => segno / 0x1000_0000,
            1 => segno / 0x100_0000,
            2 => segno / 0x10_0000,
            3 => segno / 0x1_0000,
            4 => segno / 0x1000,
            5 => segno / 0x100,
            6 => segno / 0x10,
            _ => segno,
        };
        let d: u8 = (v % 16) as u8;
        proof {
            assert(v == segno as nat / top_divisor(i as nat + 1));
            assert(v / 16 == segno as nat / top_divisor(i as nat));
        }
        if d < 10 {
            name.push(0x30 + d);
        } else {
            name.push(0x37 + d);
        }
        i = i + 1;
    }
    name
}

/// What a number is divided by to keep its first `i` of eight hexadecimal digits.
pub open spec fn top_divisor(i: nat) -> nat {
    if i == 0 {
        0x1_0000_0000
    } else if i == 1 {
        0x1000_0000
    } else if i == 2 {
        0x100_0000
    } else if i == 3 {
        0x10_0000
    } else if i == 4 {
        0x1_0000
    } else if i == 5 {
        0x1000
    } else if i == 6 {
        0x100
    } else if i == 7 {
        0x10
    } else {
        1
    }
}

/// Formats, with `std::format`, why a file name is refused. Nothing is said of the text.
#[verifier::external_body]
fn unexpected_segment(filename: &str) -> (r: String)
{
    format!("unexpected segment in wal directory: '{}'", filename)
}

proof fn lemma_hex_prefix(s: Seq<u8>, n: int)
    requires
        0 <= n <= s.len(),
        hex_value(s) is Some,
    ensures
        hex_value(s.take(n)) is Some,
        hex_value(s.take(n)).unwrap() <= hex_value(s).unwrap(),
    decreases s.len(),
{
    if n == s.len() {
        assert(s.take(n) =~= s);
    } else {
        lemma_hex_prefix(s.drop_last(), n);
        assert(s.drop_last().take(n) =~= s.take(n));
    }
}

/// The number of the segment with the given file name.
pub fn filename_to_segno(filename: &str) -> (r: Result<u32, Error>)
    ensures
        match r {
            Ok(segno) => segno_of(vstd::utf8::encode_utf8(filename@)) == Some(segno as nat),
            Err(e) => segno_of(vstd::utf8::encode_utf8(filename@)) is None && e is WrongObjectType,
        },
{
    let name = filename.as_bytes();
    let size: usize = name.len();
    let start: usize = if size > 0 && name[0] == 0x2b {
        1
    } else {
        0
    };
    let ghost digits = name@.skip(start as int);
    proof {
        assert(digits =~= if name@.len() > 0 && name@[0] == 0x2b {
            name@.drop_first()
        } else {
            name@
        });
    }
    if start >= size {
        return Err(Error::WrongObjectType(unexpected_segment(filename)));
    }
    let mut v: u64 = 0;
    let mut i: usize = start;
    proof {
        assert(digits.take(0) =~= Seq::<u8>::empty());
    }
    while i < size
        invariant
            start <= i <= size,
            size == name@.len(),
            digits == name@.skip(start as int),
            digits.len() > 0,
            name@ == vstd::utf8::encode_utf8(filename@),
            digits == if name@.len() > 0 && name@[0] == 0x2b {
                name@.drop_first()
            } else {
                name@
            },
            hex_value(digits.take(i - start)) == Some(v as nat),
            v <= u32::MAX,
        decreases size - i,
    {
        let b: u8 = name[i];
        let ghost part = digits.take(i - start + 1);
        proof {
            assert(part.drop_last() =~= digits.take(i - start));
            assert(part.last() == b);
            if hex_value(digits) is Some {
                lemma_hex_prefix(digits, i - start + 1);
            }
        }
        let d: u64 = if 0x30 <= b && b <= 0x39 {
            (b - 0x30) as u64
        } else if 0x41 <= b && b <= 0x46 {
            (b - 0x37) as u64
        } else if 0x61 <= b && b <= 0x66 {
            (b - 0x57) as u64
        } else {
            return Err(Error::WrongObjectType(unexpected_segment(filename)));
        };
        v = v * 16 + d;
        if v > u32::MAX as u64 {
            return Err(Error::WrongObjectType(unexpected_segment(filename)));
        }
        i = i + 1;
    }
    proof {
        assert(digits.take(size - start) =~= digits);
    }
    Ok(v as u32)
}

/// The greatest number among segments' files, or zero where there are none.
pub open spec fn greatest_segno(names: Seq<String>) -> Option<nat>
    decreases names.len(),
{
    if names.len() == 0 {
        Some(0)
    } else {
        match (greatest_segno(names.drop_last()), segno_of(vstd::utf8::encode_utf8(names.last()@))) {
            (Some(m), Some(n)) => Some(
                if n > m {
                    n
                } else {
                    m
                },
            ),
            _ => None,
        }
    }
}

/// The number of the last segment among segments' files.
pub fn last_segno(names: &Vec<String>) -> (r: Result<u32, Error>)
    ensures
        match r {
            Ok(segno) => greatest_segno(names@) == Some(segno as nat),
            Err(e) => greatest_segno(names@) is None && e is WrongObjectType,
        },
{
    let mut last: u32 = 0;
    let mut i: usize = 0;
    let size: usize = names.len();
    proof {
        assert(names@.take(0) =~= Seq::<String>::empty());
    }
    while i < size
        invariant
            i <= size,
            size == names@.len(),
            greatest_segno(names@.take(i as int)) == Some(last as nat),
        decreases size - i,
    {
        proof {
            assert(names@.take(i + 1).drop_last() =~= names@.take(i as int));
            assert(names@.take(i + 1).last() == names@[i as int]);
        }
        match filename_to_segno(names[i].as_str()) {
            Ok(segno) => {
                if segno > last {
                    last = segno;
                }
            },
            Err(e) => {
                proof {
                    lemma_greatest_segno(names@, i + 1);
                }
                return Err(e);
            },
        }
        i = i + 1;
    }
    proof {
        assert(names@.take(size as int) =~= names@);
    }
    Ok(last)
}

proof fn lemma_greatest_segno(names: Seq<String>, n: int)
    requires
        0 <= n <= names.len(),
        greatest_segno(names.take(n)) is None,
    ensures
        greatest_segno(names) is None,
    decreases names.len(),
{
    if n == names.len() {
        assert(names.take(n) =~= names);
    } else {
        assert(names.drop_last().take(n) =~= names.take(n));
        lemma_greatest_segno(names.drop_last(), n);
    }
}

/// Makes the segments of a log.
struct SegmentCreator {
    last_segno: u32,
    capacity: usize,
    sync_method: WalSyncMethod,
}

impl SegmentCreator {
    fn new(capacity: usize, last_segno: u32, sync_method: WalSyncMethod) -> (r: Self)
        ensures
            r.last_segno == last_segno,
            r.capacity == capacity,
            r.sync_method == sync_method,
    {
        Self { last_segno, capacity, sync_method }
    }

    fn open_segment(&self, segno: u32, file_size: usize) -> (r: Result<Segment, Error>)
        requires
            segno > 0,
            segment::capacity_fits(self.capacity as nat),
        ensures
            match r {
                Ok(s) => {
                    &&& self.capacity > 7
                    &&& file_size <= self.capacity
                    &&& s.wf()
                    &&& s.number() == segno
                    &&& s.size() == self.capacity
                    &&& s.sync() == self.sync_method
                    &&& s.start() == file_size + segment::padding_of(file_size as nat)
                    &&& s.used() == 0
                    &&& s.handed_over() == 0
                    &&& s.opened_at() == s.start()
                    &&& s.image() == Seq::<u8>::empty()
                    &&& s.pending() == segment::zeros(segment::padding_of(file_size as nat))
                    &&& s.taken_out() == Seq::<u8>::empty()
                    &&& s.lead_in() == segment::padding_of(file_size as nat)
                    &&& self.capacity % 0x10000 == 0 ==> s.usable()
                },
                Err(e) => (self.capacity <= 7 || file_size > self.capacity) && e is InvalidArgument,
            },
    {
        Segment::open(segno, file_size, self.capacity, self.sync_method)
    }

    fn next_segment(&mut self) -> (r: Result<Segment, Error>)
        requires
            old(self).last_segno < u32::MAX,
            segment::capacity_fits(old(self).capacity as nat),
        ensures
            final(self).last_segno == old(self).last_segno + 1,
            final(self).capacity == old(self).capacity,
            final(self).sync_method == old(self).sync_method,
            match r {
                Ok(s) => {
                    &&& old(self).capacity > 7
                    &&& s.wf()
                    &&& s.usable()
                    &&& s.number() == final(self).last_segno
                    &&& s.size() == old(self).capacity
                    &&& s.sync() == old(self).sync_method
                    &&& s.start() == 0
                    &&& s.used() == 0
                    &&& s.handed_over() == 0
                    &&& s.opened_at() == 0
                    &&& s.image() == Seq::<u8>::empty()
                    &&& s.pending() == Seq::<u8>::empty()
                    &&& s.taken_out() == Seq::<u8>::empty()
                    &&& s.lead_in() == 0
                },
                Err(e) => old(self).capacity <= 7 && e is InvalidArgument,
            },
    {
        self.last_segno = self.last_segno + 1;
        Segment::create(self.last_segno, self.capacity, self.sync_method)
    }
}

/// A log. What is to be written to its files is handed over to whoever owns them.
pub struct Wal {
    capacity: usize,
    segment_creator: SegmentCreator,
    open_segment: Segment,
    finished: Vec<(u32, Vec<u8>)>,
    closed: Ghost<Seq<Segment>>,
}

/// A piece of output: the number of a segment and bytes that go to the end of its file.
pub open spec fn output_view(out: Seq<(u32, Vec<u8>)>) -> Seq<(u32, Seq<u8>)> {
    out.map_values(|o: (u32, Vec<u8>)| (o.0, o.1@))
}

/// The bytes of records.
pub open spec fn records_view(records: Seq<Vec<u8>>) -> Seq<Seq<u8>> {
    records.map_values(|r: Vec<u8>| r@)
}

impl Wal {
    /// The segment that records are appended to.
    pub closed spec fn tail(self) -> Segment {
        self.open_segment
    }

    /// The segments that were filled since the log was opened, in the state in which they were
    /// left.
    pub closed spec fn filled(self) -> Seq<Segment> {
        self.closed@
    }

    /// The capacity of the segments.
    pub closed spec fn segment_size(self) -> nat {
        self.capacity as nat
    }

    /// The output of filled segments that was not taken yet.
    pub closed spec fn left_over(self) -> Seq<(u32, Seq<u8>)> {
        output_view(self.finished@)
    }

    /// The open segment is well formed and the last one.
    pub closed spec fn wf(self) -> bool {
        &&& self.open_segment.wf()
        &&& self.open_segment.size() == self.capacity
        &&& self.open_segment.number() == self.segment_creator.last_segno
        &&& self.segment_creator.capacity == self.capacity
        &&& self.segment_creator.sync_method == self.open_segment.sync()
        &&& self.open_segment.lsn_fits()
        &&& self.open_segment.number() >= 1
        &&& self.capacity > 7
        &&& segment::capacity_fits(self.capacity as nat)
    }

    /// The open segment is well formed, is as large as every segment of the log, has a number, and
    /// its places can be told. With this a caller can tell where a record that is appended ends.
    pub proof fn lemma_tail(self)
        requires
            self.wf(),
        ensures
            self.tail().wf(),
            self.tail().size() == self.segment_size(),
            self.tail().lsn_fits(),
            self.tail().number() >= 1,
            self.segment_size() > 7,
            segment::capacity_fits(self.segment_size()),
    {
    }

    /// Whether there is room for a record in the open segment.
    pub open spec fn has_room(self, len: nat) -> bool {
        segment::has_room(self.segment_size(), self.tail().start(), self.tail().used(), len)
    }

    /// Whether a record can be appended: it fits in the open segment or in a new one, whose
    /// number and places can be told.
    pub open spec fn fits(self, len: nat) -> bool {
        self.has_room(len) || self.can_turn(len)
    }

    /// Whether a new segment can be opened for a record.
    pub open spec fn can_turn(self, len: nat) -> bool {
        &&& segment::has_room(self.segment_size(), 0, 0, len)
        &&& self.tail().number() < u32::MAX
        &&& (self.tail().number() + 1) * self.segment_size() + 0x20000 <= usize::MAX
    }

    /// Whether the log was just opened: it goes on with its last segment behind a whole page, or
    /// with the first one where there is none.
    pub open spec fn opened(self, last_segno: u32, last_size: usize, options: WalOptions) -> bool {
        &&& options.segment_capacity > 7
        &&& last_segno > 0 ==> last_size <= options.segment_capacity
        &&& self.segment_size() == options.segment_capacity
        &&& self.filled() == Seq::<Segment>::empty()
        &&& self.left_over() == Seq::<(u32, Seq<u8>)>::empty()
        &&& self.tail().sync() == options.wal_sync_method
        &&& self.tail().size() == options.segment_capacity
        &&& self.tail().image() == Seq::<u8>::empty()
        &&& self.tail().opened_at() == self.tail().start()
        &&& self.tail().used() == 0
        &&& self.tail().handed_over() == 0
        &&& self.tail().taken_out() == Seq::<u8>::empty()
        &&& if last_segno == 0 {
            &&& self.tail().number() == 1
            &&& self.tail().start() == 0
            &&& self.tail().lead_in() == 0
            &&& self.tail().pending() == Seq::<u8>::empty()
        } else {
            &&& self.tail().number() == last_segno
            &&& self.tail().start() == last_size + segment::padding_of(last_size as nat)
            &&& self.tail().lead_in() == segment::padding_of(last_size as nat)
            &&& self.tail().pending() == segment::zeros(segment::padding_of(last_size as nat))
        }
    }

    /// Goes on with a log whose last segment has the given number and size, or starts a new one
    /// where there is none.
    pub fn open(last_segno: u32, last_size: usize, options: &WalOptions) -> (r: Result<Self, Error>)
        requires
            segment::capacity_fits(options.segment_capacity as nat),
            (last_segno + 1) * options.segment_capacity + 0x20000 <= usize::MAX,
        ensures
            match r {
                Ok(wal) => {
                    &&& wal.wf()
                    &&& wal.opened(last_segno, last_size, *options)
                    &&& last_segno == 0 || options.segment_capacity % 0x10000 == 0
                        ==> wal.tail().usable()
                },
                Err(e) => {
                    &&& e is InvalidArgument
                    &&& options.segment_capacity <= 7 || (last_segno > 0 && last_size
                        > options.segment_capacity)
                },
            },
    {
        let mut segment_creator = SegmentCreator::new(
            options.segment_capacity,
            last_segno,
            options.wal_sync_method,
        );
        let res = if last_segno == 0 {
            segment_creator.next_segment()
        } else {
            segment_creator.open_segment(last_segno, last_size)
        };
        match res {
            Ok(open_segment) => {
                let finished: Vec<(u32, Vec<u8>)> = Vec::new();
                proof {
                    assert(output_view(finished@) =~= Seq::<(u32, Seq<u8>)>::empty());
                    let c = options.segment_capacity as int;
                    let n = open_segment.number();
                    assert((n - 1) * c + c == n * c) by (nonlinear_arith);
                    assert(n * c <= (last_segno + 1) * c) by (nonlinear_arith)
                        requires
                            n <= last_segno + 1,
                            c >= 0,
                    ;
                }
                Ok(
                    Wal {
                        capacity: options.segment_capacity,
                        segment_creator,
                        open_segment,
                        finished,
                        closed: Ghost(Seq::empty()),
                    },
                )
            },
            Err(e) => Err(e),
        }
    }

    /// Opens a new segment where the open one has no room for a record.
    fn make_room(&mut self, len: usize)
        requires
            old(self).wf(),
            old(self).tail().usable(),
            old(self).fits(len as nat),
        ensures
            final(self).wf(),
            final(self).tail().usable(),
            final(self).has_room(len as nat),
            final(self).segment_size() == old(self).segment_size(),
            final(self).turned_from(*old(self), len as nat),
    {
        if !self.open_segment.sufficient_capacity(len) {
            let ghost image0 = self.open_segment.image();
            if self.open_segment.dirty() {
                self.open_segment.flush_page(true);
            } else {
                proof {
                    self.open_segment.lemma_clean();
                    self.open_segment.lemma_hands_over_nothing();
                    assert(image0 + Seq::<u8>::empty() =~= image0);
                }
            }
            proof {
                let c = self.capacity as int;
                let n = self.open_segment.number() + 1;
                assert((n - 1) * c + c == n * c) by (nonlinear_arith);
            }
            match self.segment_creator.next_segment() {
                Ok(next) => {
                    let mut last = next;
                    std::mem::swap(&mut last, &mut self.open_segment);
                    let ghost left = last;
                    let segno = last.number_of();
                    let out = last.take_output();
                    let ghost before = self.finished@;
                    self.finished.push((segno, out));
                    self.closed = Ghost(self.closed@.push(left));
                    proof {
                        assert(self.closed@.drop_last() =~= old(self).closed@);
                        assert(output_view(self.finished@) =~= output_view(before).push(
                            (segno, left.pending()),
                        ));
                    }
                },
                Err(_) => {},
            }
        }
    }

    /// What opening a new segment, where there is no room for a record, does.
    pub open spec fn turned_from(self, before: Wal, len: nat) -> bool {
        if before.has_room(len) {
            &&& self.tail() == before.tail()
            &&& self.filled() == before.filled()
            &&& self.left_over() == before.left_over()
        } else {
            &&& self.tail().number() == before.tail().number() + 1
            &&& self.tail().size() == before.tail().size()
            &&& self.tail().sync() == before.tail().sync()
            &&& self.tail().start() == 0
            &&& self.tail().used() == 0
            &&& self.tail().handed_over() == 0
            &&& self.tail().opened_at() == 0
            &&& self.tail().lead_in() == 0
            &&& self.tail().image() == Seq::<u8>::empty()
            &&& self.tail().taken_out() == Seq::<u8>::empty()
            &&& self.tail().pending() == Seq::<u8>::empty()
            &&& self.filled().len() == before.filled().len() + 1
            &&& self.filled().drop_last() == before.filled()
            &&& ({
                let left = self.filled().last();
                &&& left.same_place(before.tail())
                &&& left.hands_over(before.tail())
                &&& left.wf()
                &&& left.used() == left.handed_over()
                &&& left.image() == left.flushed()
                &&& left.image() == before.tail().image() + if before.tail().used()
                    != before.tail().handed_over() {
                    segment::zeros((0x10000 - before.tail().used()) as nat)
                } else {
                    Seq::<u8>::empty()
                }
                &&& self.left_over() == before.left_over().push(
                    (before.tail().number() as u32, left.pending()),
                )
            })
        }
    }

    /// Appends a record, in a new segment where the open one has no room for it, and says where
    /// in the log it starts and ends.
    pub fn append(&mut self, record: &[u8]) -> (r: Result<(LogPointer, LogPointer), Error>)
        requires
            old(self).wf(),
            old(self).tail().usable(),
            old(self).fits(record@.len()),
        ensures
            r is Ok,
            final(self).wf(),
            final(self).segment_size() == old(self).segment_size(),
            old(self).segment_size() % 0x10000 == 0 ==> final(self).tail().usable(),
            exists|mid: Wal| #[trigger]
                mid.turned_from(*old(self), record@.len()) && final(self).appended_to(
                    mid,
                    record@,
                ) && r->Ok_0.0 == mid.tail().log_start() + mid.tail().position(),
            r->Ok_0.1 == final(self).tail().log_start() + final(self).tail().position(),
            final(self).tail().number() <= old(self).tail().number() + 1,
    {
        self.make_room(record.len());
        let ghost mid = *self;
        let start_pos = self.open_segment.current_lsn();
        match self.open_segment.append(record) {
            Some(end_pos) => {
                proof {
                    assert(mid.turned_from(*old(self), record@.len()));
                    assert(self.appended_to(mid, record@));
                }
                Ok((start_pos, end_pos))
            },
            None => Ok((start_pos, start_pos)),
        }
    }

    /// What appending a record that there is room for does.
    pub open spec fn appended_to(self, before: Wal, record: Seq<u8>) -> bool {
        &&& self.filled() == before.filled()
        &&& self.left_over() == before.left_over()
        &&& self.tail().appended_from(before.tail(), record)
    }

    /// What appending records one after the other does.
    pub open spec fn appended_all(self, before: Wal, records: Seq<Seq<u8>>) -> bool
        decreases records.len(),
    {
        if records.len() == 0 {
            self == before
        } else {
            exists|last: Wal, turned: Wal|
                #![trigger turned.turned_from(last, records.last().len())]
                last.appended_all(before, records.drop_last()) && turned.turned_from(
                    last,
                    records.last().len(),
                ) && self.appended_to(turned, records.last())
        }
    }

    /// Whether records can be appended one after the other: each of them fits in a segment, and
    /// the numbers and places of as many segments can be told.
    pub open spec fn fits_all(self, records: Seq<Seq<u8>>) -> bool {
        &&& forall|i: int|
            0 <= i < records.len() ==> segment::has_room(
                self.segment_size(),
                0,
                0,
                (#[trigger] records[i]).len(),
            )
        &&& self.tail().number() + records.len() <= u32::MAX
        &&& (self.tail().number() + records.len()) * self.segment_size() + 0x20000 <= usize::MAX
    }

    /// Whether a record fits in a new segment.
    pub fn fits_in_segment(&self, len: usize) -> (r: bool)
        requires
            self.wf(),
        ensures
            r == segment::has_room(self.segment_size(), 0, 0, len as nat),
    {
        let pages: usize = self.capacity / 0x10000;
        let more: u128 = if pages > 0 {
            0xfff9 * (pages as u128 - 1)
        } else {
            0
        };
        0x10000 + more >= len as u128
    }

    /// Whether the numbers and places of that many more segments can be told.
    pub fn can_go_on(&self, segments: usize) -> (r: bool)
        requires
            self.wf(),
        ensures
            r == (self.tail().number() + segments <= u32::MAX && (self.tail().number() + segments)
                * self.segment_size() + 0x20000 <= usize::MAX),
    {
        let number: u128 = self.open_segment.number_of() as u128 + segments as u128;
        if number > u32::MAX as u128 {
            return false;
        }
        let capacity: u128 = self.capacity as u128;
        proof {
            assert(number * capacity <= 0xffff_ffff * 0xffff_ffff_ffff_ffff) by (nonlinear_arith)
                requires
                    number <= 0xffff_ffff,
                    capacity <= 0xffff_ffff_ffff_ffff,
            ;
        }
        number * capacity + 0x20000 <= usize::MAX as u128
    }

    /// Whether a record can be appended.
    pub fn can_append(&self, len: usize) -> (r: bool)
        requires
            self.wf(),
            self.tail().usable(),
        ensures
            r == self.fits(len as nat),
    {
        self.open_segment.sufficient_capacity(len) || (self.fits_in_segment(len) && self.can_go_on(
            1,
        ))
    }

    /// Appends records one after the other.
    pub fn append_all(&mut self, records: &Vec<Vec<u8>>) -> (r: Result<(), Error>)
        requires
            old(self).wf(),
            old(self).tail().usable(),
            old(self).fits_all(records_view(records@)),
            old(self).segment_size() % 0x10000 == 0 || records@.len() <= 1,
        ensures
            r is Ok,
            final(self).wf(),
            final(self).segment_size() == old(self).segment_size(),
            old(self).segment_size() % 0x10000 == 0 ==> final(self).tail().usable(),
            final(self).appended_all(*old(self), records_view(records@)),
            final(self).tail().number() <= old(self).tail().number() + records@.len(),
    {
        let size: usize = records.len();
        let ghost all = records_view(records@);
        let mut i: usize = 0;
        proof {
            assert(all.take(0) =~= Seq::<Seq<u8>>::empty());
        }
        while i < size
            invariant
                i <= size,
                size == records@.len(),
                all == records_view(records@),
                old(self).fits_all(all),
                old(self).segment_size() % 0x10000 == 0 || size <= 1,
                self.wf(),
                old(self).segment_size() % 0x10000 == 0 || i == 0 ==> self.tail().usable(),
                self.segment_size() == old(self).segment_size(),
                self.tail().number() <= old(self).tail().number() + i,
                self.appended_all(*old(self), all.take(i as int)),
            decreases size - i,
        {
            let ghost before = *self;
            proof {
                assert(all[i as int] == records@[i as int]@);
                let c = self.segment_size() as int;
                let a = self.tail().number() + 1;
                let b = old(self).tail().number() + all.len();
                assert(a * c <= b * c) by (nonlinear_arith)
                    requires
                        a <= b,
                        c >= 0,
                ;
            }
            let _ = self.append(records[i].as_slice());
            proof {
                let part = all.take(i + 1);
                assert(part.drop_last() =~= all.take(i as int));
                assert(part.last() == records@[i as int]@);
                let turned = choose|turned: Wal| #[trigger]
                    turned.turned_from(before, records@[i as int]@.len()) && self.appended_to(
                        turned,
                        records@[i as int]@,
                    );
                assert(turned.turned_from(before, part.last().len()));
            }
            i = i + 1;
        }
        proof {
            assert(all.take(size as int) =~= all);
        }
        Ok(())
    }

    /// Appends the record of a transaction.
    pub fn append_record(&mut self, xid: Timestamp, record: &LogRecord) -> (r: Result<
        (LogPointer, LogPointer),
        Error,
    >)
        requires
            old(self).wf(),
            old(self).tail().usable(),
            old(self).fits(log_record::full_encoding(xid, record@).len()),
        ensures
            r is Ok,
            final(self).wf(),
            final(self).segment_size() == old(self).segment_size(),
            old(self).segment_size() % 0x10000 == 0 ==> final(self).tail().usable(),
            ({
                let bytes = log_record::full_encoding(xid, record@);
                exists|mid: Wal| #[trigger]
                    mid.turned_from(*old(self), bytes.len()) && final(self).appended_to(mid, bytes)
                        && r->Ok_0.0 == mid.tail().log_start() + mid.tail().position()
            }),
            r->Ok_0.1 == final(self).tail().log_start() + final(self).tail().position(),
    {
        let buf = self.get_full_record(xid, record);
        self.append(buf.as_slice())
    }

    /// What is read of the checkpoint at a place of the log: nothing where the place is none, or
    /// the checkpoint that the bytes of the segment hold there.
    pub open spec fn checkpoint_at(pos: LogPointer, data: Seq<u8>, capacity: nat) -> Option<
        log_record::RecordView,
    > {
        match segment::read_result(data, pos as nat % capacity) {
            Ok(Some((record, _))) => match log_record::full_decoding(record) {
                Some((_, log_record::RecordView::Checkpoint(m, p, n, ls))) => Some(
                    log_record::RecordView::Checkpoint(m, p, n, ls),
                ),
                _ => None,
            },
            _ => None,
        }
    }

    /// Whether reading the checkpoint at a place of the log fails with an error.
    pub open spec fn checkpoint_fails(
        pos: LogPointer,
        data: Seq<u8>,
        capacity: nat,
        e: Error,
    ) -> bool {
        &&& pos != 0
        &&& if data.len() > capacity {
            e is InvalidArgument
        } else {
            match segment::read_result(data, pos as nat % capacity) {
                Err(f) => f.reported_as(e),
                Ok(None) => e.is_corrupted("cannot load the checkpoint log record"@),
                Ok(Some((record, _))) => match log_record::full_decoding(record) {
                    None => e.is_corrupted("cannot deserialize the checkpoint log record"@),
                    Some((_, v)) => !(v is Checkpoint) && e.is_corrupted(
                        "last checkpoint pos points to non checkpoint record"@,
                    ),
                },
            }
        }
    }

    /// Reads the last checkpoint, whose place is given, from the bytes of its segment.
    pub fn read_checkpoint_record(
        &self,
        last_checkpoint_pos: LogPointer,
        data: &[u8],
    ) -> (r: Result<Option<CheckpointLog>, Error>)
        requires
            self.wf(),
            last_checkpoint_pos as nat / self.segment_size() + 1 <= u32::MAX,
        ensures
            match r {
                Ok(None) => last_checkpoint_pos == 0,
                Ok(Some(c)) => {
                    &&& last_checkpoint_pos != 0
                    &&& data@.len() <= self.segment_size()
                    &&& Wal::checkpoint_at(last_checkpoint_pos, data@, self.segment_size()) == Some(
                        LogRecord::Wal(WalLogRecord::Checkpoint(c))@,
                    )
                },
                Err(e) => Wal::checkpoint_fails(
                    last_checkpoint_pos,
                    data@,
                    self.segment_size(),
                    e,
                ),
            },
    {
        if is_invalid_lsn(last_checkpoint_pos) {
            return Ok(None);
        }
        let view = match SegmentView::open(data, self.capacity) {
            Ok(view) => view,
            Err(e) => {
                return Err(e);
            },
        };
        let offset: usize = (last_checkpoint_pos % self.capacity as u64) as usize;
        match view.read_record(offset) {
            Ok(Some((record, _))) => match decode_record(record.as_slice()) {
                Some((_, LogRecord::Wal(WalLogRecord::Checkpoint(ckpt_log)))) => Ok(Some(ckpt_log)),
                Some(_) => Err(
                    Error::corrupted("last checkpoint pos points to non checkpoint record"),
                ),
                None => Err(Error::corrupted("cannot deserialize the checkpoint log record")),
            },
            Ok(None) => Err(Error::corrupted("cannot load the checkpoint log record")),
            Err(e) => Err(e),
        }
    }

    /// Takes out what is to be written: for each piece the number of a segment and bytes for the
    /// end of its file.
    pub fn take_output(&mut self) -> (r: Vec<(u32, Vec<u8>)>)
        requires
            old(self).wf(),
        ensures
            final(self).wf(),
            final(self).segment_size() == old(self).segment_size(),
            final(self).taken_from(*old(self), output_view(r@)),
    {
        let mut all: Vec<(u32, Vec<u8>)> = Vec::new();
        std::mem::swap(&mut all, &mut self.finished);
        let ghost before = all@;
        let segno = self.open_segment.number_of();
        let out = self.open_segment.take_output();
        all.push((segno, out));
        proof {
            assert(output_view(all@) =~= output_view(before).push((segno, out@)));
            assert(output_view(self.finished@) =~= Seq::<(u32, Seq<u8>)>::empty());
        }
        all
    }

    /// What taking out all output does, the filled segments' first. Nothing else changes.
    pub open spec fn taken_from(self, before: Wal, pieces: Seq<(u32, Seq<u8>)>) -> bool {
        let t = self.tail();
        let b = before.tail();
        &&& pieces == before.left_over().push((b.number() as u32, b.pending()))
        &&& self.left_over() == Seq::<(u32, Seq<u8>)>::empty()
        &&& self.filled() == before.filled()
        &&& t.pending() == Seq::<u8>::empty()
        &&& t.taken_out() == b.taken_out() + b.pending()
        &&& t.lead_in() == b.lead_in()
        &&& t.same_place(b)
        &&& t.image() == b.image()
        &&& t.flushed() == b.flushed()
        &&& t.start() == b.start()
        &&& t.used() == b.used()
        &&& t.handed_over() == b.handed_over()
    }

    /// The bytes of a record and the transaction that it belongs to.
    pub fn get_full_record(&self, xid: Timestamp, record: &LogRecord) -> (r: Vec<u8>)
        ensures
            r@ == log_record::full_encoding(xid, record@),
            log_record::record_fits(record@),
            r@.len() >= 16,
    {
        encode_record(xid, record)
    }

    /// Hands over everything up to a place in the log, or everything there is.
    pub fn flush(&mut self, lsn: Option<LogPointer>) -> (r: Result<(), Error>)
        requires
            old(self).wf(),
            old(self).tail().usable(),
        ensures
            r is Ok,
            final(self).wf(),
            final(self).segment_size() == old(self).segment_size(),
            final(self).filled() == old(self).filled(),
            final(self).left_over() == old(self).left_over(),
            final(self).tail().same_place(old(self).tail()),
            ({
                let t = old(self).tail();
                if lsn matches Some(l) && t.log_start() + t.start() + t.handed_over() >= l {
                    final(self).tail() == t
                } else {
                    &&& final(self).tail().hands_over(t)
                    &&& final(self).tail().used() == final(self).tail().handed_over()
                    &&& final(self).tail().image() == final(self).tail().flushed()
                    &&& final(self).tail().image() == t.image() + if t.used() + 7 >= 0x10000 {
                        segment::zeros((0x10000 - t.used()) as nat)
                    } else {
                        Seq::<u8>::empty()
                    }
                    &&& final(self).tail().position() == t.position() + if t.used() + 7 >= 0x10000 {
                        0x10000 - t.used()
                    } else {
                        0
                    }
                }
            }),
            old(self).tail().used() + 7 < 0x10000 || old(self).segment_size() % 0x10000 == 0
                ==> final(self).tail().usable(),
    {
        match lsn {
            Some(lsn) => {
                if self.open_segment.flushed_lsn() >= lsn {
                    return Ok(());
                }
            },
            None => {},
        }
        let ghost t = self.open_segment;
        self.open_segment.flush_page(false);
        proof {
            assert(t.image() + Seq::<u8>::empty() =~= t.image());
        }
        Ok(())
    }

    /// What handing over everything does.
    pub open spec fn flushed_from(self, before: Wal) -> bool {
        &&& self.filled() == before.filled()
        &&& self.left_over() == before.left_over()
        &&& self.tail().same_place(before.tail())
        &&& self.tail().hands_over(before.tail())
        &&& self.tail().used() == self.tail().handed_over()
        &&& self.tail().image() == self.tail().flushed()
        &&& self.tail().image() == before.tail().image() + if before.tail().used()
            != before.tail().handed_over() && before.tail().used() + 7 >= 0x10000 {
            segment::zeros((0x10000 - before.tail().used()) as nat)
        } else {
            Seq::<u8>::empty()
        }
    }

    /// Appends the record of a transaction, hands over everything up to its end, and says where it
    /// starts.
    pub(crate) fn append_record_and_flush(&mut self, xid: Timestamp, record: &LogRecord) -> (r:
        Result<LogPointer, Error>)
        requires
            old(self).wf(),
            old(self).tail().usable(),
            old(self).fits(log_record::full_encoding(xid, record@).len()),
            old(self).segment_size() % 0x10000 == 0,
        ensures
            r is Ok,
            final(self).wf(),
            final(self).segment_size() == old(self).segment_size(),
            final(self).tail().usable(),
            final(self).logged_from(
                *old(self),
                log_record::full_encoding(xid, record@),
                r->Ok_0 as nat,
            ),
    {
        match self.append_record(xid, record) {
            Ok((pos, lsn)) => {
                let ghost mid = *self;
                let _ = self.flush(Some(lsn));
                proof {
                    let bytes = log_record::full_encoding(xid, record@);
                    let turned = choose|turned: Wal| #[trigger]
                        turned.turned_from(*old(self), bytes.len()) && mid.appended_to(
                            turned,
                            bytes,
                        ) && pos == turned.tail().log_start() + turned.tail().position();
                    if mid.tail().used() == mid.tail().handed_over() {
                        mid.open_segment.lemma_clean();
                    }
                    mid.open_segment.lemma_handed_over();
                    mid.open_segment.lemma_hands_over_nothing();
                    assert(mid.tail().image() + Seq::<u8>::empty() =~= mid.tail().image());
                    assert(self.flushed_from(mid));
                    assert(turned.turned_from(*old(self), bytes.len()));
                }
                Ok(pos)
            },
            Err(e) => Err(e),
        }
    }

    /// What appending a record and handing over everything up to its end does; the record starts
    /// at `pos`.
    pub open spec fn logged_from(self, before: Wal, bytes: Seq<u8>, pos: nat) -> bool {
        exists|turned: Wal, mid: Wal| #[trigger]
            turned.turned_from(before, bytes.len()) && mid.appended_to(turned, bytes)
                && #[trigger] self.flushed_from(mid) && pos == turned.tail().log_start()
                + turned.tail().position()
    }

    /// Where in the log the next byte goes.
    pub fn current_lsn(&self) -> (r: LogPointer)
        requires
            self.wf(),
        ensures
            r == self.tail().log_start() + self.tail().position(),
    {
        self.open_segment.current_lsn()
    }

    /// A reader that stands at a position of the log.
    pub fn get_reader(&self, start_pos: LogPointer) -> (r: WalReader)
        requires
            self.wf(),
            start_pos as nat / self.segment_size() + 1 <= u32::MAX,
        ensures
            r.wf(),
            r.size() == self.segment_size(),
            r.position() == start_pos,
            r.number() == start_pos as nat / self.segment_size() + 1,
            r.at() == start_pos as nat % self.segment_size(),
    {
        WalReader::open(self.capacity, start_pos)
    }
}

/// Where in its segment a place of the log lies.
pub proof fn lemma_place_in_segment(number: nat, at: nat, capacity: nat, pos: nat)
    requires
        number >= 1,
        at < capacity,
        capacity % 0x10000 == 0,
        pos == (number - 1) * capacity + at,
    ensures
        pos % capacity == at,
        pos / capacity + 1 == number,
        pos % 0x10000 == at % 0x10000,
{
    let n = number - 1;
    let c = capacity as int;
    assert(c * n == n * c) by (nonlinear_arith);
    vstd::arithmetic::div_mod::lemma_fundamental_div_mod_converse(pos as int, c, n, at as int);
    let k = c / 0x10000;
    let m = n * k;
    assert(n * c == 0x10000 * m) by (nonlinear_arith)
        requires
            c == 0x10000 * k,
            m == n * k,
    ;
    assert((0x10000 * m + at) % 0x10000 == at % 0x10000);
}

} // verus!

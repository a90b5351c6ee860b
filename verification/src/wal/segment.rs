//! Segments: the files that the log is cut into.
//!
//! A segment is a run of pages. A record is stored as one chunk, or as several where it goes over
//! the end of a page. A chunk is a type byte, the length of its data in two bytes, the data and a
//! checksum over all of that. Where no chunk fits at the end of a page, the page is filled up with
//! zeros.
use crate::coding;
use crate::coding::{checksum, read_u16_le, read_u32_le, write_u16_le, write_u32_le};
use crate::error::Error;
use vstd::prelude::*;
use vstd::slice::slice_subrange;

verus! {

/// Points at a byte of the log.
pub type LogPointer = u64;

/// How the log is brought to disk.
#[derive(Clone, Copy, PartialEq, Eq, Structural, Debug)]
pub enum WalSyncMethod {
    OpenSyncData,
    OpenSyncAll,
    SyncData,
    SyncAll,
    NoSync,
}

/// The bytes of a page.
pub const SEGMENT_PAGE_SIZE: usize = 0x10000;

/// The bytes of a checksum.
pub const CHECKSUM_SIZE: usize = 4;

/// The bytes of a chunk besides its data.
pub const RECORD_HEADER_SIZE: usize = 7;

/// The types of chunks.
#[derive(Clone, Copy, PartialEq, Eq, Structural, Debug)]
pub enum RecordHeaderType {
    /// No chunk: the rest of the page is empty.
    Empty,
    /// A whole record.
    Full,
    /// The beginning of a record.
    First,
    /// Neither the beginning nor the end of a record.
    Middle,
    /// The end of a record.
    Last,
    /// Not a type.
    Error,
}

impl RecordHeaderType {
    /// The type that a byte stands for.
    pub open spec fn of(value: u8) -> RecordHeaderType {
        if value == 0 {
            RecordHeaderType::Empty
        } else if value == 1 {
            RecordHeaderType::Full
        } else if value == 2 {
            RecordHeaderType::First
        } else if value == 3 {
            RecordHeaderType::Middle
        } else if value == 4 {
            RecordHeaderType::Last
        } else {
            RecordHeaderType::Error
        }
    }

    /// The byte that stands for a type.
    pub open spec fn byte(self) -> u8 {
        match self {
            RecordHeaderType::Empty => 0,
            RecordHeaderType::Full => 1,
            RecordHeaderType::First => 2,
            RecordHeaderType::Middle => 3,
            RecordHeaderType::Last => 4,
            RecordHeaderType::Error => 5,
        }
    }

    fn to_byte(self) -> (r: u8)
        ensures
            r == self.byte(),
    {
        match self {
            RecordHeaderType::Empty => 0,
            RecordHeaderType::Full => 1,
            RecordHeaderType::First => 2,
            RecordHeaderType::Middle => 3,
            RecordHeaderType::Last => 4,
            RecordHeaderType::Error => 5,
        }
    }
}

impl From<u8> for RecordHeaderType {
    fn from(value: u8) -> (r: Self) {
        match value {
            0 => RecordHeaderType::Empty,
            1 => RecordHeaderType::Full,
            2 => RecordHeaderType::First,
            3 => RecordHeaderType::Middle,
            4 => RecordHeaderType::Last,
            _ => RecordHeaderType::Error,
        }
    }
}

impl vstd::std_specs::convert::FromSpecImpl<u8> for RecordHeaderType {
    open spec fn obeys_from_spec() -> bool {
        true
    }

    open spec fn from_spec(value: u8) -> Self {
        RecordHeaderType::of(value)
    }
}

/// The type of a chunk that is or is not the first and the last of its record.
pub open spec fn chunk_type(first: bool, last: bool) -> RecordHeaderType {
    if first && last {
        RecordHeaderType::Full
    } else if first {
        RecordHeaderType::First
    } else if last {
        RecordHeaderType::Last
    } else {
        RecordHeaderType::Middle
    }
}

/// A chunk without its checksum.
pub open spec fn chunk_body(typ: RecordHeaderType, data: Seq<u8>) -> Seq<u8> {
    seq![typ.byte()] + coding::le_bytes(data.len(), 2) + data
}

/// The bytes of a chunk.
pub open spec fn chunk_bytes(typ: RecordHeaderType, data: Seq<u8>) -> Seq<u8> {
    let body = chunk_body(typ, data);
    body + coding::le_bytes(coding::crc32(body) as nat, 4)
}

/// Zeros.
pub open spec fn zeros(n: nat) -> Seq<u8> {
    Seq::new(n, |i: int| 0u8)
}

/// Where in a page a chunk starts that comes next after `used` bytes.
pub open spec fn chunk_start(used: nat) -> nat {
    if 0x10000 - used <= 7 {
        0
    } else {
        used
    }
}

/// The zeros that fill a page up before the next chunk.
pub open spec fn page_fill(used: nat) -> Seq<u8> {
    if 0x10000 - used <= 7 {
        zeros((0x10000 - used) as nat)
    } else {
        Seq::empty()
    }
}

/// The number of bytes of data in the next chunk.
pub open spec fn chunk_len(used: nat, len: nat) -> nat {
    let room = (0x10000 - chunk_start(used) - 7) as nat;
    if len <= room {
        len
    } else {
        room
    }
}

/// What is written for the data of a record, or for what is left of it, after `used` bytes of a
/// page.
#[verifier::opaque]
pub open spec fn record_bytes(used: nat, data: Seq<u8>, first: bool) -> Seq<u8>
    decreases data.len(),
{
    if data.len() == 0 || used > 0x10000 {
        Seq::empty()
    } else {
        let n = chunk_len(used, data.len());
        page_fill(used) + chunk_bytes(chunk_type(first, n == data.len()), data.take(n as int))
            + record_bytes(chunk_start(used) + n + 7, data.skip(n as int), false)
    }
}

/// The data that a chunk in the same page has room for.
pub open spec fn room_in(used: nat) -> nat {
    if 0x10000 - used <= 7 {
        0
    } else {
        (0x10000 - used - 7) as nat
    }
}

proof fn lemma_record_bytes_step(used: nat, data: Seq<u8>, first: bool)
    requires
        used <= 0x10000,
        data.len() > 0,
    ensures
        ({
            let n = chunk_len(used, data.len());
            record_bytes(used, data, first) == page_fill(used) + chunk_bytes(
                chunk_type(first, n == data.len()),
                data.take(n as int),
            ) + record_bytes(chunk_start(used) + n + 7, data.skip(n as int), false)
        }),
{
    reveal(record_bytes);
}

/// A full page is like an empty one.
proof fn lemma_full_page(data: Seq<u8>, first: bool)
    ensures
        record_bytes(0x10000, data, first) == record_bytes(0, data, first),
{
    reveal(record_bytes);
    assert(page_fill(0x10000) =~= page_fill(0));
    assert(chunk_len(0x10000, data.len()) == chunk_len(0, data.len()));
}

proof fn lemma_no_record(used: nat, data: Seq<u8>, first: bool)
    requires
        data.len() == 0,
    ensures
        record_bytes(used, data, first) == Seq::<u8>::empty(),
{
    reveal(record_bytes);
}

/// Why a record cannot be read.
pub enum ReadFailure {
    /// The segment ends inside a record.
    UnexpectedEof,
    /// A byte that should be a type is none.
    InvalidType,
    /// A checksum is wrong.
    ChecksumMismatch,
    /// The segment ends inside a chunk.
    Truncated,
}

impl ReadFailure {
    /// What the failure is reported as.
    pub open spec fn reported_as(self, e: Error) -> bool {
        match self {
            ReadFailure::UnexpectedEof => e.is_corrupted("unexpected EOF when reading WAL segment"@),
            ReadFailure::InvalidType => e.is_corrupted("invalid record type in segment"@),
            ReadFailure::ChecksumMismatch => e.is_corrupted(
                "record is corrupted (checksum does not match)"@,
            ),
            ReadFailure::Truncated => e.is_corrupted("segment is truncated"@),
        }
    }
}

/// The start of the page that is looked at after an empty place whose next byte is at `p`.
pub open spec fn next_page(p: nat) -> nat {
    (p + 0x10000 - p % 0x10000) as nat
}

/// The bytes from `a` up to `b`.
pub open spec fn span(data: Seq<u8>, a: nat, b: nat) -> Seq<u8> {
    data.subrange(a as int, b as int)
}

/// What reading on at `p` gives: the data of the record, after what was collected of it, and where
/// it ends; nothing where no record starts any more; or why it fails.
pub open spec fn read_chunks(
    data: Seq<u8>,
    p: nat,
    started: bool,
    collected: Seq<u8>,
) -> Result<Option<(Seq<u8>, nat)>, ReadFailure>
    decreases data.len() - p,
{
    if data.len() <= p + 7 {
        Err(ReadFailure::UnexpectedEof)
    } else {
        let typ = RecordHeaderType::of(data[p as int]);
        match typ {
            RecordHeaderType::Empty => {
                let q = next_page(p + 1);
                if data.len() <= q + 7 {
                    if started {
                        Err(ReadFailure::UnexpectedEof)
                    } else {
                        Ok(None)
                    }
                } else {
                    read_chunks(data, q, started, collected)
                }
            },
            RecordHeaderType::Error => Err(ReadFailure::InvalidType),
            _ => {
                let len = coding::le_value(span(data, p + 1, p + 3));
                let end = p + 3 + len;
                if end + 4 > data.len() {
                    Err(ReadFailure::Truncated)
                } else if coding::crc32(span(data, p, end)) != coding::le_value(
                    span(data, end, end + 4),
                ) {
                    Err(ReadFailure::ChecksumMismatch)
                } else {
                    let all = collected + span(data, p + 3, end);
                    if typ == RecordHeaderType::Full || typ == RecordHeaderType::Last {
                        Ok(Some((all, end + 4)))
                    } else {
                        read_chunks(data, end + 4, true, all)
                    }
                }
            },
        }
    }
}

/// What reading a record at an offset gives.
pub open spec fn read_result(data: Seq<u8>, offset: nat) -> Result<
    Option<(Seq<u8>, nat)>,
    ReadFailure,
> {
    if data.len() <= offset + 7 {
        Ok(None)
    } else {
        read_chunks(data, offset, false, Seq::empty())
    }
}

proof fn lemma_chunk_len(typ: RecordHeaderType, data: Seq<u8>)
    requires
        data.len() < 0x10000,
    ensures
        chunk_body(typ, data).len() == data.len() + 3,
        chunk_bytes(typ, data).len() == data.len() + 7,
{
    coding::lemma_le_bytes_len(data.len(), 2);
    coding::lemma_le_bytes_len(coding::crc32(chunk_body(typ, data)) as nat, 4);
}

/// A chunk that stands in the segment is read as it was written.
proof fn lemma_read_chunk(
    data: Seq<u8>,
    p: nat,
    typ: RecordHeaderType,
    chunk: Seq<u8>,
)
    requires
        0 < chunk.len() < 0x10000,
        typ != RecordHeaderType::Empty,
        typ != RecordHeaderType::Error,
        p + chunk.len() + 7 <= data.len(),
        span(data, p, p + chunk.len() + 7) == chunk_bytes(typ, chunk),
    ensures
        data.len() > p + 7,
        RecordHeaderType::of(data[p as int]) == typ,
        coding::le_value(span(data, p + 1, p + 3)) == chunk.len(),
        span(data, p + 3, p + 3 + chunk.len()) == chunk,
        coding::crc32(span(data, p, p + 3 + chunk.len())) == coding::le_value(
            span(data, p + 3 + chunk.len(), p + chunk.len() + 7),
        ),
{
    let body = chunk_body(typ, chunk);
    let crc = coding::le_bytes(coding::crc32(body) as nat, 4);
    let all = chunk_bytes(typ, chunk);
    let len = coding::le_bytes(chunk.len(), 2);
    coding::lemma_pow256_values();
    lemma_chunk_len(typ, chunk);
    coding::lemma_le_bytes_len(chunk.len(), 2);
    coding::lemma_le_bytes_len(coding::crc32(body) as nat, 4);
    coding::lemma_le_value_of_le_bytes(chunk.len(), 2);
    coding::lemma_le_value_of_le_bytes(coding::crc32(body) as nat, 4);
    let n = chunk.len() as int;
    assert forall|i: int| 0 <= i < n + 7 implies data[p + i] == #[trigger] all[i] by {
        assert(span(data, p, p + chunk.len() + 7)[i] == data[p + i]);
    }
    assert(all[0] == typ.byte());
    assert(span(data, p + 1, p + 3) =~= len) by {
        assert(all[1] == len[0] && all[2] == len[1]);
    }
    assert(span(data, p + 3, p + 3 + chunk.len()) =~= chunk) by {
        assert forall|i: int| 0 <= i < n implies data[p + 3 + i] == #[trigger] chunk[i] by {
            assert(all[3 + i] == chunk[i]);
        }
    }
    assert(span(data, p, p + 3 + chunk.len()) =~= body) by {
        assert forall|i: int| 0 <= i < n + 3 implies data[p + i] == #[trigger] body[i] by {
            assert(all[i] == body[i]);
        }
    }
    assert(span(data, p + 3 + chunk.len(), p + chunk.len() + 7) =~= crc) by {
        assert forall|i: int| 0 <= i < 4 implies data[p + 3 + n + i] == #[trigger] crc[i] by {
            assert(all[n + 3 + i] == crc[i]);
        }
    }
}

/// Data that was written from the start of a chunk on is read back, after what was collected.
proof fn lemma_read_back_chunks(
    data: Seq<u8>,
    p: nat,
    record: Seq<u8>,
    first: bool,
    collected: Seq<u8>,
)
    requires
        record.len() > 0,
        ({
            let bytes = record_bytes(p % 0x10000, record, first);
            &&& p + bytes.len() <= data.len()
            &&& span(data, p, p + bytes.len()) == bytes
        }),
        0x10000 - p % 0x10000 > 7,
    ensures
        read_chunks(data, p, !first, collected) == Ok::<_, ReadFailure>(
            Some((collected + record, p + record_bytes(p % 0x10000, record, first).len())),
        ),
    decreases record.len(),
{
    reveal(record_bytes);
    let used = p % 0x10000;
    let n = chunk_len(used, record.len());
    let last = n == record.len();
    let typ = chunk_type(first, last);
    let chunk = record.take(n as int);
    let cb = chunk_bytes(typ, chunk);
    let rest = record_bytes(used + n + 7, record.skip(n as int), false);
    let bytes = record_bytes(used, record, first);
    lemma_chunk_len(typ, chunk);
    assert(bytes =~= cb + rest);
    assert(span(data, p, p + n + 7) =~= cb) by {
        assert forall|i: int| 0 <= i < n + 7 implies data[p + i] == #[trigger] cb[i] by {
            assert(span(data, p, p + bytes.len())[i] == data[p + i]);
            assert(bytes[i] == cb[i]);
        }
    }
    lemma_read_chunk(data, p, typ, chunk);
    let q = p + n + 7;
    let all = collected + chunk;
    if last {
        assert(record.skip(n as int).len() == 0);
        assert(chunk =~= record);
    } else {
        assert(used + n + 7 == 0x10000);
        let tail = record.skip(n as int);
        assert(q % 0x10000 == 0);
        assert(page_fill(0x10000) =~= Seq::<u8>::empty());
        assert(page_fill(0) =~= Seq::<u8>::empty());
        assert(record_bytes(0x10000, tail, false) == record_bytes(0, tail, false)) by {
            assert(chunk_start(0x10000) == chunk_start(0));
            assert(chunk_len(0x10000, tail.len()) == chunk_len(0, tail.len()));
        }
        assert(span(data, q, q + rest.len()) =~= rest) by {
            assert forall|i: int| 0 <= i < rest.len() implies data[q + i] == #[trigger] rest[i] by {
                assert(span(data, p, p + bytes.len())[n + 7 + i] == data[q + i]);
                assert(bytes[n + 7 + i] == rest[i]);
            }
        }
        lemma_read_back_chunks(data, q, tail, false, all);
        assert(all + tail =~= collected + record) by {
            assert(chunk + tail =~= record);
        }
    }
}

/// A record is read back from where it was written, whatever follows it. Left out is a record that
/// was written with one byte left in the page: there a whole page is passed over.
pub proof fn lemma_read_back(data: Seq<u8>, offset: nat, record: Seq<u8>)
    requires
        record.len() > 0,
        ({
            let bytes = record_bytes(offset % 0x10000, record, true);
            &&& offset + bytes.len() <= data.len()
            &&& span(data, offset, offset + bytes.len()) == bytes
        }),
        offset % 0x10000 != 0xffff,
    ensures
        read_result(data, offset) == Ok::<_, ReadFailure>(
            Some((record, offset + record_bytes(offset % 0x10000, record, true).len())),
        ),
{
    reveal(record_bytes);
    let used = offset % 0x10000;
    let bytes = record_bytes(used, record, true);
    let none = Seq::<u8>::empty();
    let n = chunk_len(used, record.len());
    let typ = chunk_type(true, n == record.len());
    lemma_chunk_len(typ, record.take(n as int));
    if 0x10000 - used > 7 {
        lemma_read_back_chunks(data, offset, record, true, none);
        assert(none + record =~= record);
    } else {
        let fill = page_fill(used);
        let q = offset + fill.len();
        assert(q % 0x10000 == 0);
        assert(page_fill(0) =~= none);
        let rest = record_bytes(0, record, true);
        assert(bytes =~= fill + rest) by {
            assert(chunk_len(used, record.len()) == chunk_len(0, record.len()));
            assert(chunk_start(used) == chunk_start(0));
        }
        assert(span(data, q, q + rest.len()) =~= rest) by {
            assert forall|i: int| 0 <= i < rest.len() implies data[q + i] == #[trigger] rest[i] by {
                assert(span(data, offset, offset + bytes.len())[fill.len() + i] == data[q
                    + i]);
                assert(bytes[fill.len() + i] == rest[i]);
            }
        }
        lemma_read_back_chunks(data, q, record, true, none);
        assert(none + record =~= record);
        assert(data[offset as int] == 0) by {
            assert(span(data, offset, offset + bytes.len())[0] == data[offset as int]);
            assert(bytes[0] == fill[0]);
        }
        assert(next_page(offset + 1) == q);
        assert(data.len() > q + 7);
    }
}

/// An open segment, to which records are appended.
///
/// What is to be written to the file is handed over to whoever owns the file.
pub struct Segment {
    segno: u32,
    sync_method: WalSyncMethod,
    page: Vec<u8>,
    page_flushed: usize,
    page_start: usize,
    capacity: usize,
    out: Vec<u8>,
    origin: Ghost<nat>,
    lead: Ghost<nat>,
    taken: Ghost<Seq<u8>>,
}

/// The capacity of a segment, beyond which page offsets do not fit in a machine word.
pub open spec fn capacity_fits(capacity: nat) -> bool {
    capacity + 0x20000 <= usize::MAX
}

fn check_capacity(capacity: usize) -> (r: Result<(), Error>)
    ensures
        match r {
            Ok(_) => capacity > 7,
            Err(e) => capacity <= 7 && e.is_invalid_argument(
                "segment capacity is smalle than record header size"@,
            ),
        },
{
    if capacity > RECORD_HEADER_SIZE {
        Ok(())
    } else {
        Err(Error::invalid_argument("segment capacity is smalle than record header size"))
    }
}

/// Formats, with `std::format`, the reason why a segment does not go with a capacity. Nothing is
/// said of the text.
#[verifier::external_body]
fn capacity_mismatch(file_size: usize, capacity: usize) -> (r: String)
{
    format!("invalid segment capacity: file size = {}, capacity = {}", file_size, capacity)
}

/// The bytes that fill a file of the given size up to a whole page.
pub open spec fn padding_of(file_size: nat) -> nat {
    if file_size % 0x10000 != 0 {
        (0x10000 - file_size % 0x10000) as nat
    } else {
        0
    }
}

/// Whether a segment with the given state has room for a record of the given size.
pub open spec fn has_room(capacity: nat, page_start: nat, used: nat, record_size: nat) -> bool {
    &&& capacity != page_start
    &&& ({
        let pages = ((capacity - page_start) as nat) / 0x10000;
        let remaining = 0x10000 - used + (if pages > 0 {
            0xfff9 * (pages - 1)
        } else {
            0
        });
        remaining >= record_size
    })
}

impl Segment {
    /// The number of the segment.
    pub closed spec fn number(self) -> nat {
        self.segno as nat
    }

    /// The capacity of the segment.
    pub closed spec fn size(self) -> nat {
        self.capacity as nat
    }

    /// Where the open page starts.
    pub closed spec fn start(self) -> nat {
        self.page_start as nat
    }

    /// The bytes of the open page that are used.
    pub closed spec fn used(self) -> nat {
        self.page@.len()
    }

    /// The bytes of the open page that were handed over.
    pub closed spec fn handed_over(self) -> nat {
        self.page_flushed as nat
    }

    /// Where the next byte goes.
    pub open spec fn position(self) -> nat {
        self.start() + self.used()
    }

    /// How the segment is brought to disk.
    pub closed spec fn sync(self) -> WalSyncMethod {
        self.sync_method
    }

    /// Where in the file the records start that were appended since the segment was opened.
    pub closed spec fn opened_at(self) -> nat {
        self.origin@
    }

    /// The bytes of appended records that were handed over since the segment was opened.
    pub closed spec fn flushed(self) -> Seq<u8> {
        (self.taken@ + self.out@).skip(self.lead@ as int)
    }

    /// The bytes that were handed over and not taken out yet.
    pub closed spec fn pending(self) -> Seq<u8> {
        self.out@
    }

    /// The bytes that were taken out since the segment was opened.
    pub closed spec fn taken_out(self) -> Seq<u8> {
        self.taken@
    }

    /// The number of bytes that were handed over when the segment was opened, before any record:
    /// those that fill its file up to a whole page.
    pub closed spec fn lead_in(self) -> nat {
        self.lead@
    }

    /// The size of the file when the segment was opened.
    pub open spec fn found(self) -> int {
        self.opened_at() - self.lead_in()
    }

    /// Whether a file holds what was taken out: it stands behind what was in the file when the
    /// segment was opened.
    pub open spec fn written_to(self, data: Seq<u8>) -> bool {
        &&& 0 <= self.found() <= data.len()
        &&& data.skip(self.found()) == self.taken_out()
    }

    /// Whether nothing was taken out since another state of the segment, and what was handed over
    /// since then is behind what was still to be taken out.
    pub open spec fn hands_over(self, before: Segment) -> bool {
        let n = before.flushed().len() as int;
        &&& self.taken_out() == before.taken_out()
        &&& self.lead_in() == before.lead_in()
        &&& n <= self.flushed().len()
        &&& self.flushed().take(n) == before.flushed()
        &&& self.pending() == before.pending() + self.flushed().skip(n)
    }

    /// What appending a record that there is room for does: the record is behind all that was
    /// appended. Of the page that it ends in, nothing more is handed over than before.
    pub open spec fn appended_from(self, before: Segment, record: Seq<u8>) -> bool {
        &&& self.same_place(before)
        &&& self.hands_over(before)
        &&& ({
            let bytes = record_bytes(before.position() % 0x10000, record, true);
            &&& self.image() == before.image() + bytes
            &&& self.position() == before.position() + bytes.len()
        })
        &&& self.handed_over() == if self.start() == before.start() {
            before.handed_over()
        } else {
            0
        }
        &&& record.len() > 0 ==> self.used() > 0
        &&& record.len() == 0 ==> self.used() == before.used()
    }

    /// What was handed over of the records was taken out or is still to be taken out.
    pub proof fn lemma_output(self)
        requires
            self.wf(),
        ensures
            self.lead_in() <= self.taken_out().len() + self.pending().len(),
            self.flushed() == (self.taken_out() + self.pending()).skip(self.lead_in() as int),
            self.flushed().len() == self.start() - self.opened_at() + self.handed_over(),
            self.flushed().len() <= self.image().len(),
            self.image().take(self.flushed().len() as int) == self.flushed(),
    {
        assert(self.image().take(self.flushed().len() as int) =~= self.flushed());
    }

    /// The number of a segment fits in four bytes.
    pub proof fn lemma_number(self)
        ensures
            self.number() <= u32::MAX,
    {
    }

    /// Nothing was taken out between two states if nothing was up to one in between and from there
    /// on.
    pub proof fn lemma_hands_over(self, mid: Segment, before: Segment)
        requires
            self.hands_over(mid),
            mid.hands_over(before),
        ensures
            self.hands_over(before),
    {
        let n = before.flushed().len() as int;
        let m = mid.flushed().len() as int;
        let f = self.flushed();
        assert(f.take(n) =~= f.take(m).take(n));
        assert(f.skip(n) =~= f.take(m).skip(n) + f.skip(m));
        assert(self.pending() =~= before.pending() + f.skip(n));
    }

    /// Nothing was taken out of a segment that stays as it is.
    pub proof fn lemma_hands_over_nothing(self)
        ensures
            self.hands_over(self),
    {
        let f = self.flushed();
        assert(f.take(f.len() as int) =~= f);
        assert(self.pending() + f.skip(f.len() as int) =~= self.pending());
    }

    /// The bytes that are taken out, put at the end of the file, hold all that was appended, if
    /// all of it was handed over.
    pub proof fn lemma_file_holds(self, data: Seq<u8>)
        requires
            self.wf(),
            self.used() == self.handed_over(),
            self.written_to(data),
        ensures
            self.is_held_by(data + self.pending()),
    {
        let all = data + self.pending();
        let o = self.opened_at();
        self.lemma_clean();
        assert(all.skip(self.found()) =~= self.taken_out() + self.pending());
        assert(all.len() == self.found() + self.taken_out().len() + self.pending().len());
        assert(span(all, o, o + self.image().len()) =~= self.image()) by {
            assert forall|i: int| 0 <= i < self.image().len() implies all[o + i]
                == #[trigger] self.image()[i] by {
                assert(all.skip(self.found())[self.lead_in() + i] == all[o + i]);
            }
        }
    }

    /// All bytes of the records that were appended since the segment was opened.
    pub closed spec fn image(self) -> Seq<u8> {
        self.flushed() + self.page@.skip(self.page_flushed as int)
    }

    /// The page is no longer than a page, and the pages before it were handed over.
    pub closed spec fn wf(self) -> bool {
        &&& self.page@.len() <= 0x10000
        &&& self.page_flushed <= self.page@.len()
        &&& self.lead@ <= self.taken@.len() + self.out@.len()
        &&& self.page_start % 0x10000 == 0
        &&& self.origin@ % 0x10000 == 0
        &&& self.origin@ <= self.page_start
        &&& self.flushed().len() == self.page_start - self.origin@ + self.page_flushed
        &&& self.page_start <= self.capacity + 0x10000
        &&& capacity_fits(self.capacity as nat)
        &&& self.capacity > 7
        &&& self.segno > 0
    }

    /// Whether more can be written: the open page starts within the capacity, or is one that was
    /// begun with the last bytes of a record.
    pub open spec fn usable(self) -> bool {
        self.start() < self.size() || (self.start() == self.size() && self.used() + 7 < 0x10000)
    }

    /// Whether the file of the segment holds all that was appended since it was opened.
    pub open spec fn is_held_by(self, data: Seq<u8>) -> bool {
        &&& self.opened_at() + self.image().len() <= data.len()
        &&& span(data, self.opened_at(), self.opened_at() + self.image().len()) == self.image()
    }

    /// Where everything was handed over, the appended bytes are those that were handed over.
    pub proof fn lemma_clean(self)
        requires
            self.wf(),
            self.used() == self.handed_over(),
        ensures
            self.image() == self.flushed(),
    {
        assert(self.image() =~= self.flushed());
    }

    /// Where the open page lies, and how much was appended.
    pub proof fn lemma_place(self)
        requires
            self.wf(),
        ensures
            self.used() <= 0x10000,
            self.start() % 0x10000 == 0,
            self.opened_at() + self.image().len() == self.position(),
    {
    }

    /// No more was handed over of the open page than was written.
    pub proof fn lemma_handed_over(self)
        requires
            self.wf(),
        ensures
            self.handed_over() <= self.used(),
    {
    }

    /// Makes an empty segment.
    pub fn create(segno: u32, capacity: usize, sync_method: WalSyncMethod) -> (r: Result<
        Self,
        Error,
    >)
        requires
            segno > 0,
            capacity_fits(capacity as nat),
        ensures
            match r {
                Ok(s) => {
                    &&& capacity > 7
                    &&& s.wf()
                    &&& s.usable()
                    &&& s.number() == segno
                    &&& s.size() == capacity
                    &&& s.sync() == sync_method
                    &&& s.start() == 0
                    &&& s.used() == 0
                    &&& s.handed_over() == 0
                    &&& s.opened_at() == 0
                    &&& s.image() == Seq::<u8>::empty()
                    &&& s.pending() == Seq::<u8>::empty()
                    &&& s.taken_out() == Seq::<u8>::empty()
                    &&& s.lead_in() == 0
                },
                Err(e) => capacity <= 7 && e.is_invalid_argument(
                    "segment capacity is smalle than record header size"@,
                ),
            },
    {
        match check_capacity(capacity) {
            Ok(_) => {},
            Err(e) => {
                return Err(e);
            },
        }
        let segment = Segment {
            segno,
            sync_method,
            page: Vec::new(),
            page_flushed: 0,
            page_start: 0,
            capacity,
            out: Vec::new(),
            origin: Ghost(0),
            lead: Ghost(0),
            taken: Ghost(Seq::empty()),
        };
        proof {
            assert(segment.image() =~= Seq::<u8>::empty());
        }
        Ok(segment)
    }

    /// Goes on with a segment whose file has the given size, after filling the file up to a whole
    /// page.
    pub fn open(
        segno: u32,
        file_size: usize,
        capacity: usize,
        sync_method: WalSyncMethod,
    ) -> (r: Result<Self, Error>)
        requires
            segno > 0,
            capacity_fits(capacity as nat),
        ensures
            match r {
                Ok(s) => {
                    &&& capacity > 7
                    &&& file_size <= capacity
                    &&& s.wf()
                    &&& s.number() == segno
                    &&& s.size() == capacity
                    &&& s.sync() == sync_method
                    &&& s.start() == file_size + padding_of(file_size as nat)
                    &&& s.used() == 0
                    &&& s.handed_over() == 0
                    &&& s.opened_at() == file_size + padding_of(file_size as nat)
                    &&& s.image() == Seq::<u8>::empty()
                    &&& s.pending() == zeros(padding_of(file_size as nat))
                    &&& s.taken_out() == Seq::<u8>::empty()
                    &&& s.lead_in() == padding_of(file_size as nat)
                    &&& capacity % 0x10000 == 0 ==> s.usable()
                },
                Err(e) => if capacity <= 7 {
                    e.is_invalid_argument("segment capacity is smalle than record header size"@)
                } else {
                    file_size > capacity && e is InvalidArgument
                },
            },
    {
        match check_capacity(capacity) {
            Ok(_) => {},
            Err(e) => {
                return Err(e);
            },
        }
        if file_size > capacity {
            return Err(Error::InvalidArgument(capacity_mismatch(file_size, capacity)));
        }
        let mut page_start: usize = file_size;
        let mut out: Vec<u8> = Vec::new();
        if file_size % SEGMENT_PAGE_SIZE != 0 {
            let padding: usize = SEGMENT_PAGE_SIZE - file_size % SEGMENT_PAGE_SIZE;
            out = vec![0; padding];
            page_start = page_start + padding;
        }
        proof {
            assert(out@ =~= zeros(padding_of(file_size as nat)));
        }
        let ghost pad = out@;
        let segment = Segment {
            segno,
            sync_method,
            page: Vec::new(),
            page_flushed: 0,
            page_start,
            capacity,
            out,
            origin: Ghost(page_start as nat),
            lead: Ghost(pad.len()),
            taken: Ghost(Seq::empty()),
        };
        proof {
            assert(segment.image() =~= Seq::<u8>::empty());
        }
        Ok(segment)
    }

    /// Takes out the bytes that are to be written at the end of the file.
    pub fn take_output(&mut self) -> (r: Vec<u8>)
        ensures
            r@ == old(self).pending(),
            final(self).pending() == Seq::<u8>::empty(),
            final(self).taken_out() == old(self).taken_out() + r@,
            final(self).lead_in() == old(self).lead_in(),
            final(self).flushed() == old(self).flushed(),
            final(self).image() == old(self).image(),
            final(self).same_place(*old(self)),
            final(self).start() == old(self).start(),
            final(self).used() == old(self).used(),
            final(self).handed_over() == old(self).handed_over(),
            old(self).wf() ==> final(self).wf(),
    {
        let mut out: Vec<u8> = Vec::new();
        std::mem::swap(&mut out, &mut self.out);
        self.taken = Ghost(self.taken@ + out@);
        proof {
            assert(self.taken@ + self.out@ =~= old(self).taken@ + old(self).out@);
        }
        out
    }

    /// Whether two states are of the same segment, opened at the same place.
    pub open spec fn same_place(self, other: Segment) -> bool {
        &&& self.number() == other.number()
        &&& self.size() == other.size()
        &&& self.sync() == other.sync()
        &&& self.opened_at() == other.opened_at()
    }

    /// Hands over what was written of the open page. A page that is full, or to be closed, is
    /// filled up with zeros and a new page is opened.
    pub fn flush_page(&mut self, reset: bool)
        requires
            old(self).wf(),
            old(self).usable(),
        ensures
            final(self).wf(),
            final(self).same_place(*old(self)),
            final(self).hands_over(*old(self)),
            final(self).image() == final(self).flushed(),
            old(self).size() % 0x10000 == 0 && !reset ==> final(self).usable(),
            ({
                let reset = reset || old(self).used() + 7 >= 0x10000;
                if reset {
                    &&& final(self).image() == old(self).image() + zeros(
                        (0x10000 - old(self).used()) as nat,
                    )
                    &&& final(self).start() == old(self).start() + 0x10000
                    &&& final(self).used() == 0
                    &&& final(self).handed_over() == 0
                } else {
                    &&& final(self).image() == old(self).image()
                    &&& final(self).start() == old(self).start()
                    &&& final(self).used() == old(self).used()
                    &&& final(self).handed_over() == old(self).used()
                }
            }),
    {
        let reset = reset || self.page.len() + RECORD_HEADER_SIZE >= SEGMENT_PAGE_SIZE;
        if reset {
            self.page.resize(SEGMENT_PAGE_SIZE, 0);
        }
        let ghost page = self.page@;
        let ghost fresh = self.page@.skip(self.page_flushed as int);
        self.out.extend_from_slice(
            slice_subrange(self.page.as_slice(), self.page_flushed, self.page.len()),
        );
        self.page_flushed = self.page.len();
        proof {
            assert(self.taken@ + self.out@ =~= old(self).taken@ + old(self).out@ + fresh);
            assert(self.flushed() =~= old(self).flushed() + fresh);
            if reset {
                assert(fresh =~= old(self).page@.skip(old(self).page_flushed as int) + zeros(
                    (0x10000 - old(self).used()) as nat,
                ));
            }
        }
        if reset {
            self.page.clear();
            self.page_flushed = 0;
            self.page_start = self.page_start + SEGMENT_PAGE_SIZE;
        }
        proof {
            let n = old(self).flushed().len() as int;
            assert(self.flushed() =~= old(self).flushed() + fresh);
            assert(self.flushed().take(n) =~= old(self).flushed());
            assert(self.flushed().skip(n) =~= fresh);
            assert(self.pending() =~= old(self).pending() + fresh);
            assert(self.page@.skip(self.page_flushed as int) =~= Seq::<u8>::empty());
            assert(self.image() =~= self.flushed());
            if reset {
                assert(self.image() =~= old(self).image() + zeros(
                    (0x10000 - old(self).used()) as nat,
                ));
            } else {
                assert(self.image() =~= old(self).image());
            }
        }
    }

    /// Whether there is room for a record of the given size.
    pub fn sufficient_capacity(&self, record_size: usize) -> (r: bool)
        requires
            self.wf(),
            self.usable(),
        ensures
            r == has_room(self.size(), self.start(), self.used(), record_size as nat),
    {
        if self.capacity == self.page_start {
            return false;
        }
        let remaining_pages: usize = (self.capacity - self.page_start) / SEGMENT_PAGE_SIZE;
        let mut remaining: usize = SEGMENT_PAGE_SIZE - self.page.len();
        if remaining_pages > 0 {
            remaining = remaining + (SEGMENT_PAGE_SIZE - RECORD_HEADER_SIZE) * (remaining_pages
                - 1);
        }
        remaining >= record_size
    }

    /// The number of the segment.
    pub fn number_of(&self) -> (r: u32)
        ensures
            r == self.number(),
    {
        self.segno
    }

    /// Whether something was written that was not handed over.
    pub fn dirty(&self) -> (r: bool)
        ensures
            r == (self.used() != self.handed_over()),
    {
        self.page.len() != self.page_flushed
    }

    /// Where in the log the segment starts.
    pub open spec fn log_start(self) -> nat {
        ((self.number() - 1) * self.size()) as nat
    }

    /// Whether the places in the segment fit in log pointers.
    pub open spec fn lsn_fits(self) -> bool {
        self.log_start() + self.size() + 0x20000 <= usize::MAX
    }

    pub fn segment_start(&self) -> (r: LogPointer)
        requires
            self.wf(),
            self.lsn_fits(),
        ensures
            r == self.log_start(),
    {
        proof {
            assert((self.segno - 1) * self.capacity >= 0) by (nonlinear_arith)
                requires
                    self.segno >= 1,
                    self.capacity >= 0,
            ;
        }
        ((self.segno as usize - 1) * self.capacity) as LogPointer
    }

    /// Where in the log the next byte goes.
    pub fn current_lsn(&self) -> (r: LogPointer)
        requires
            self.wf(),
            self.lsn_fits(),
        ensures
            r == self.log_start() + self.position(),
    {
        self.segment_start() + (self.page_start + self.page.len()) as LogPointer
    }

    /// Up to where in the log everything was handed over.
    pub fn flushed_lsn(&self) -> (r: LogPointer)
        requires
            self.wf(),
            self.lsn_fits(),
        ensures
            r == self.log_start() + self.start() + self.handed_over(),
    {
        self.segment_start() + (self.page_start + self.page_flushed) as LogPointer
    }

    /// Appends a record and says where in the log it ends, or that there is no room for it.
    pub fn append(&mut self, record: &[u8]) -> (r: Option<LogPointer>)
        requires
            old(self).wf(),
            old(self).usable(),
            old(self).lsn_fits(),
        ensures
            final(self).wf(),
            final(self).same_place(*old(self)),
            r is Some == has_room(
                old(self).size(),
                old(self).start(),
                old(self).used(),
                record@.len(),
            ),
            match r {
                Some(end) => {
                    &&& end == final(self).log_start() + final(self).position()
                    &&& final(self).appended_from(*old(self), record@)
                    &&& final(self).image().len() == final(self).position() - final(self).opened_at()
                    &&& old(self).size() % 0x10000 == 0 ==> final(self).usable()
                },
                None => *final(self) == *old(self),
            },
    {
        if !self.sufficient_capacity(record.len()) {
            return None;
        }
        let ghost image0 = self.image();
        let ghost used0 = self.used();
        let ghost start0 = self.start();
        let ghost pages = ((self.capacity - self.page_start) as nat) / 0x10000;
        let ghost most: nat = if pages > 0 {
            pages
        } else {
            1
        };
        let ghost whole = record_bytes(used0, record@, true);
        let size: usize = record.len();
        let mut offset: usize = 0;
        let ghost mut turned: nat = 0;
        proof {
            assert(record@.skip(0) =~= record@);
            assert(image0 + whole =~= self.image() + whole);
            self.lemma_hands_over_nothing();
        }
        while offset < size
            invariant
                self.wf(),
                self.same_place(*old(self)),
                self.hands_over(*old(self)),
                start0 == old(self).start(),
                self.handed_over() == if turned == 0 {
                    old(self).handed_over()
                } else {
                    0
                },
                offset == 0 ==> self.used() == old(self).used(),
                offset > 0 ==> self.used() > 0,
                size == record@.len(),
                offset <= size,
                self.start() == start0 + turned * 0x10000,
                turned <= most,
                start0 < self.size(),
                pages > 0 ==> start0 + pages * 0x10000 <= self.size(),
                most == if pages > 0 {
                    pages
                } else {
                    1
                },
                turned < most ==> size - offset <= room_in(self.used()) + 0xfff9 * (most - 1
                    - turned) + 7,
                turned == most ==> offset == size && self.used() <= 14,
                image0 + whole == self.image() + record_bytes(
                    self.used(),
                    record@.skip(offset as int),
                    offset == 0,
                ),
            decreases size - offset,
        {
            let ghost data = record@.skip(offset as int);
            let ghost before = *self;
            proof {
                if 0x10000 - self.used() <= 7 {
                    assert(turned < most);
                    if turned + 1 == most {
                        assert(size - offset <= 7);
                    }
                    turned = turned + 1;
                }
            }
            let rest = slice_subrange(record, offset, size);
            proof {
                assert(rest@ =~= data);
            }
            let n = self.append_chunk(rest, offset == 0);
            let ghost first = offset == 0;
            offset = offset + n;
            proof {
                self.lemma_hands_over(before, *old(self));
                let tail = record@.skip(offset as int);
                assert(data.skip(n as int) =~= tail);
                lemma_image_step(before.image(), self.image(), before.used(), data, first);
            }
        }
        proof {
            lemma_no_record(self.used(), record@.skip(offset as int), offset == 0);
            assert(self.image() =~= image0 + whole);
            lemma_full_page(record@, true);
            assert(old(self).position() % 0x10000 == if used0 == 0x10000 {
                0
            } else {
                used0
            });
        }
        Some(self.current_lsn())
    }

    /// Writes the next chunk of a record, in a new page where the open one has no room for it, and
    /// says how much data the chunk holds.
    fn append_chunk(&mut self, data: &[u8], first: bool) -> (r: usize)
        requires
            old(self).wf(),
            data@.len() > 0,
            0x10000 - old(self).used() <= 7 ==> old(self).usable(),
        ensures
            final(self).wf(),
            final(self).same_place(*old(self)),
            final(self).hands_over(*old(self)),
            final(self).handed_over() == if 0x10000 - old(self).used() <= 7 {
                0
            } else {
                old(self).handed_over()
            },
            r == chunk_len(old(self).used(), data@.len()),
            0 < r <= data@.len(),
            final(self).used() == chunk_start(old(self).used()) + r + 7,
            final(self).start() == old(self).start() + if 0x10000 - old(self).used() <= 7 {
                0x10000nat
            } else {
                0
            },
            final(self).image() == old(self).image() + page_fill(old(self).used()) + chunk_bytes(
                chunk_type(first, r == data@.len()),
                data@.take(r as int),
            ),
    {
        if SEGMENT_PAGE_SIZE - self.page.len() <= RECORD_HEADER_SIZE {
            self.flush_page(true);
        }
        let ghost turned = *self;
        proof {
            assert(self.image() =~= old(self).image() + page_fill(old(self).used()));
            old(self).lemma_hands_over_nothing();
        }
        let room: usize = SEGMENT_PAGE_SIZE - self.page.len() - RECORD_HEADER_SIZE;
        let chunk_size: usize = if data.len() < room {
            data.len()
        } else {
            room
        };
        let last_chunk = chunk_size == data.len();
        let record_type = if first && last_chunk {
            RecordHeaderType::Full
        } else if first {
            RecordHeaderType::First
        } else if last_chunk {
            RecordHeaderType::Last
        } else {
            RecordHeaderType::Middle
        };
        let chunk = slice_subrange(data, 0, chunk_size);
        proof {
            assert(chunk@ =~= data@.take(chunk_size as int));
        }
        self.write_chunk(record_type, chunk);
        proof {
            self.lemma_hands_over(turned, *old(self));
        }
        chunk_size
    }

    /// Writes a chunk into the open page.
    fn write_chunk(&mut self, record_type: RecordHeaderType, chunk: &[u8])
        requires
            old(self).wf(),
            0 < chunk@.len(),
            old(self).used() + chunk@.len() + 7 <= 0x10000,
        ensures
            final(self).wf(),
            final(self).same_place(*old(self)),
            final(self).start() == old(self).start(),
            final(self).used() == old(self).used() + chunk@.len() + 7,
            final(self).handed_over() == old(self).handed_over(),
            final(self).hands_over(*old(self)),
            final(self).flushed() == old(self).flushed(),
            final(self).image() == old(self).image() + chunk_bytes(record_type, chunk@),
    {
        let ghost page0 = self.page@;
        let record_start: usize = self.page.len();
        self.page.push(record_type.to_byte());
        write_u16_le(&mut self.page, chunk.len() as u16);
        self.page.extend_from_slice(chunk);
        let body = slice_subrange(self.page.as_slice(), record_start, self.page.len());
        proof {
            assert(self.page@ =~= page0 + chunk_body(record_type, chunk@));
            assert(body@ =~= chunk_body(record_type, chunk@));
            lemma_chunk_len(record_type, chunk@);
        }
        let crc = checksum(body);
        write_u32_le(&mut self.page, crc);
        proof {
            assert(self.page@ =~= page0 + chunk_bytes(record_type, chunk@));
            old(self).lemma_hands_over_nothing();
            assert(self.image() =~= old(self).image() + chunk_bytes(record_type, chunk@));
        }
    }
}

/// A chunk behind what was appended, and the rest of the record behind the chunk, are the record
/// behind what was appended.
proof fn lemma_image_step(
    before: Seq<u8>,
    after: Seq<u8>,
    used: nat,
    data: Seq<u8>,
    first: bool,
)
    requires
        used <= 0x10000,
        data.len() > 0,
        ({
            let n = chunk_len(used, data.len()) as int;
            after == before + page_fill(used) + chunk_bytes(
                chunk_type(first, n == data.len()),
                data.take(n),
            )
        }),
    ensures
        ({
            let n = chunk_len(used, data.len());
            before + record_bytes(used, data, first) == after + record_bytes(
                chunk_start(used) + n + 7,
                data.skip(n as int),
                false,
            )
        }),
{
    let n = chunk_len(used, data.len());
    lemma_record_bytes_step(used, data, first);
    let cb = chunk_bytes(chunk_type(first, n == data.len()), data.take(n as int));
    let more = record_bytes(chunk_start(used) + n + 7, data.skip(n as int), false);
    assert(before + (page_fill(used) + cb + more) =~= before + page_fill(used) + cb + more);
}

/// A record that fits in the rest of a page is one chunk.
pub proof fn lemma_short_record(used: nat, record: Seq<u8>)
    requires
        record.len() > 0,
        used + record.len() + 7 <= 0x10000,
    ensures
        record_bytes(used, record, true) == chunk_bytes(RecordHeaderType::Full, record),
        record_bytes(used, record, true).len() == record.len() + 7,
{
    let n = record.len();
    lemma_chunk_len(RecordHeaderType::Full, record);
    lemma_record_bytes_step(used, record, true);
    lemma_no_record(used + n + 7, record.skip(n as int), false);
    assert(record.take(n as int) =~= record);
    assert(record_bytes(used, record, true) =~= chunk_bytes(RecordHeaderType::Full, record));
}

/// The bytes of records that were appended one after the other to an empty segment.
pub open spec fn log_image(records: Seq<Seq<u8>>) -> Seq<u8>
    decreases records.len(),
{
    if records.len() == 0 {
        Seq::empty()
    } else {
        let before = log_image(records.drop_last());
        before + record_bytes(before.len() % 0x10000, records.last(), true)
    }
}

proof fn lemma_log_image_prefix(records: Seq<Seq<u8>>, n: int)
    requires
        0 <= n <= records.len(),
    ensures
        log_image(records.take(n)).len() <= log_image(records).len(),
        log_image(records).take(log_image(records.take(n)).len() as int) == log_image(
            records.take(n),
        ),
    decreases records.len() - n,
{
    let part = log_image(records.take(n));
    if n == records.len() {
        assert(records.take(n) =~= records);
        assert(part.take(part.len() as int) =~= part);
    } else {
        let init = records.drop_last();
        lemma_log_image_prefix(init, n);
        assert(init.take(n) =~= records.take(n));
        let before = log_image(init);
        assert(log_image(records).take(part.len() as int) =~= before.take(part.len() as int));
    }
}

/// Records that were appended to an empty segment are read back one after the other, each from
/// where the one before it ends, whatever follows them. Left out are empty records, of which
/// nothing is written, and records that were written with one byte left in a page.
pub proof fn lemma_log_reads_back(records: Seq<Seq<u8>>, i: int, tail: Seq<u8>)
    requires
        0 <= i < records.len(),
        records[i].len() > 0,
        log_image(records.take(i)).len() % 0x10000 != 0xffff,
    ensures
        read_result(log_image(records) + tail, log_image(records.take(i)).len()) == Ok::<
            _,
            ReadFailure,
        >(Some((records[i], log_image(records.take(i + 1)).len()))),
{
    let data = log_image(records) + tail;
    let before = log_image(records.take(i));
    let after = log_image(records.take(i + 1));
    let at = before.len();
    let bytes = record_bytes(at % 0x10000, records[i], true);
    assert(records.take(i + 1).drop_last() =~= records.take(i));
    assert(records.take(i + 1).last() == records[i]);
    assert(after =~= before + bytes);
    lemma_log_image_prefix(records, i + 1);
    assert(span(data, at, at + bytes.len()) =~= bytes) by {
        assert forall|j: int| 0 <= j < bytes.len() implies data[at + j] == #[trigger] bytes[j] by {
            assert(log_image(records).take(after.len() as int)[at + j] == after[at + j]);
        }
    }
    lemma_read_back(data, at, records[i]);
}

impl Segment {
    /// A record that was appended is read back from a file that holds all that was appended. Left
    /// out is a record that was written with one byte left in a page.
    pub proof fn lemma_record_is_read(self, n: int, record: Seq<u8>, data: Seq<u8>)
        requires
            self.is_held_by(data),
            record.len() > 0,
            ({
                let bytes = record_bytes((self.opened_at() + n) as nat % 0x10000, record, true);
                &&& 0 <= n <= n + bytes.len() <= self.image().len()
                &&& self.image().subrange(n, n + bytes.len()) == bytes
            }),
            (self.opened_at() + n) % 0x10000 != 0xffff,
        ensures
            ({
                let at = (self.opened_at() + n) as nat;
                read_result(data, at) == Ok::<_, ReadFailure>(
                    Some((record, at + record_bytes(at % 0x10000, record, true).len())),
                )
            }),
    {
        let o = self.opened_at();
        let at = (o + n) as nat;
        let bytes = record_bytes(at % 0x10000, record, true);
        let held = span(data, o, o + self.image().len());
        assert(span(data, at, at + bytes.len()) =~= bytes) by {
            assert forall|i: int| 0 <= i < bytes.len() implies data[at + i]
                == #[trigger] bytes[i] by {
                assert(held[n + i] == data[at + i]);
                assert(self.image().subrange(n, n + bytes.len())[i] == self.image()[n + i]);
            }
        }
        lemma_read_back(data, at, record);
    }
}

/// The bytes of a segment, from which records are read.
pub struct SegmentView<'a> {
    data: &'a [u8],
}

impl<'a> SegmentView<'a> {
    /// The bytes.
    pub closed spec fn bytes(self) -> Seq<u8> {
        self.data@
    }

    /// Looks at the bytes of a segment with the given capacity.
    pub fn open(data: &'a [u8], capacity: usize) -> (r: Result<Self, Error>)
        ensures
            match r {
                Ok(s) => capacity > 7 && data@.len() <= capacity && s.bytes() == data@,
                Err(e) => if capacity <= 7 {
                    e.is_invalid_argument("segment capacity is smalle than record header size"@)
                } else {
                    data@.len() > capacity && e is InvalidArgument
                },
            },
    {
        match check_capacity(capacity) {
            Ok(_) => {},
            Err(e) => {
                return Err(e);
            },
        }
        let file_size: usize = data.len();
        if file_size > capacity {
            return Err(Error::InvalidArgument(capacity_mismatch(file_size, capacity)));
        }
        Ok(Self { data })
    }

    /// Reads the record at an offset and says how many bytes it takes.
    pub fn read_record(&self, offset: usize) -> (r: Result<Option<(Vec<u8>, usize)>, Error>)
        requires
            offset + 7 <= usize::MAX,
        ensures
            match r {
                Ok(Some((record, len))) => {
                    &&& read_result(self.bytes(), offset as nat) == Ok::<_, ReadFailure>(
                        Some((record@, offset as nat + len as nat)),
                    )
                    &&& offset + len <= self.bytes().len()
                },
                Ok(None) => read_result(self.bytes(), offset as nat) == Ok::<
                    Option<(Seq<u8>, nat)>,
                    ReadFailure,
                >(None),
                Err(e) => read_result(self.bytes(), offset as nat) matches Err(f)
                    && f.reported_as(e),
            },
    {
        let size: usize = self.data.len();
        if size <= offset + RECORD_HEADER_SIZE {
            return Ok(None);
        }
        let mut p: usize = offset;
        let mut buffer: Vec<u8> = Vec::new();
        let mut started = false;
        let ghost want = read_result(self.bytes(), offset as nat);
        proof {
            assert(buffer@ =~= Seq::<u8>::empty());
        }
        loop
            invariant
                size == self.data@.len(),
                offset <= p <= size,
                want == read_result(self.bytes(), offset as nat),
                want == read_chunks(self.bytes(), p as nat, started, buffer@),
            decreases size - p,
        {
            if size - p <= RECORD_HEADER_SIZE {
                return Err(Error::corrupted("unexpected EOF when reading WAL segment"));
            }
            let rec_start: usize = p;
            let rec_type = RecordHeaderType::from(self.data[p]);
            p = p + 1;
            match rec_type {
                RecordHeaderType::Empty => {
                    let gap: usize = SEGMENT_PAGE_SIZE - p % SEGMENT_PAGE_SIZE;
                    if size - p <= gap + RECORD_HEADER_SIZE {
                        if started {
                            return Err(
                                Error::corrupted("unexpected EOF when reading WAL segment"),
                            );
                        }
                        return Ok(None);
                    }
                    p = p + gap;
                    continue ;
                },
                RecordHeaderType::Error => {
                    return Err(Error::corrupted("invalid record type in segment"));
                },
                _ => {},
            }
            started = true;
            let len_buf = slice_subrange(self.data, p, p + 2);
            proof {
                assert(len_buf@.take(2) =~= span(self.bytes(), rec_start as nat + 1, rec_start as nat
                    + 3));
            }
            let chunk_length: usize = read_u16_le(len_buf) as usize;
            p = p + 2;
            if size - p < chunk_length + CHECKSUM_SIZE {
                return Err(Error::corrupted("segment is truncated"));
            }
            let end: usize = p + chunk_length;
            let chunk = slice_subrange(self.data, rec_start, end);
            let checksum_buf = slice_subrange(self.data, end, end + CHECKSUM_SIZE);
            proof {
                assert(chunk@ =~= span(self.bytes(), rec_start as nat, end as nat));
                assert(checksum_buf@.take(4) =~= span(self.bytes(), end as nat, end as nat + 4));
            }
            let checksum_file = read_u32_le(checksum_buf);
            let crc = checksum(chunk);
            if crc != checksum_file {
                return Err(Error::corrupted("record is corrupted (checksum does not match)"));
            }
            let content = slice_subrange(self.data, p, end);
            let ghost collected = buffer@;
            buffer.extend_from_slice(content);
            proof {
                assert(content@ =~= span(self.bytes(), rec_start as nat + 3, end as nat));
                assert(buffer@ =~= collected + content@);
            }
            p = end + CHECKSUM_SIZE;
            match rec_type {
                RecordHeaderType::Full | RecordHeaderType::Last => {
                    return Ok(Some((buffer, p - offset)));
                },
                _ => {},
            }
        }
    }
}

} // verus!

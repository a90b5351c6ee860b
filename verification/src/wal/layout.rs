//! Where the bytes of the log and of the manifest stand, and what is refused of them.
use crate::coding;
use crate::table::FileMeta;
use crate::transaction::Timestamp;
use crate::wal::checkpoint;
use crate::wal::checkpoint::{DbState, Manifest, ManifestTime};
use crate::wal::log_record;
use crate::wal::log_record::RecordView;
use crate::wal::segment;
use crate::wal::segment::{ReadFailure, RecordHeaderType};
use crate::wal::Wal;
use crate::wal::WalOptions;
use vstd::prelude::*;

verus! {

/// The data that the rest of a page has room for behind the header and the checksum of a chunk.
pub open spec fn rest_of_page(used: nat) -> nat {
    if used + 7 < 0x10000 {
        (0x10000 - used - 7) as nat
    } else {
        0
    }
}

/// A record takes up no more pages than it needs: from behind `used` bytes of a page it ends
/// within `pages` of them exactly where the rest of that page and the others, each without the
/// seven bytes of a header and a checksum, have room for its data.
pub proof fn lemma_record_pages(used: nat, data: Seq<u8>, first: bool, pages: nat)
    requires
        used <= 0x10000,
        data.len() > 0,
        pages >= 1,
    ensures
        used + segment::record_bytes(used, data, first).len() <= 0x10000 * pages <==> data.len()
            <= rest_of_page(used) + 0xfff9 * (pages - 1),
    decreases data.len(),
{
    reveal(segment::record_bytes);
    let n = segment::chunk_len(used, data.len());
    let chunk = data.take(n as int);
    let typ = segment::chunk_type(first, n == data.len());
    lemma_chunk_layout(typ, chunk);
    let more = data.skip(n as int);
    let now = segment::chunk_start(used) + n + 7;
    let all = segment::record_bytes(used, data, first);
    let rest = segment::record_bytes(now, more, false);
    assert(all == segment::page_fill(used) + segment::chunk_bytes(typ, chunk) + rest);
    assert(all.len() == segment::page_fill(used).len() + n + 7 + rest.len());
    if more.len() == 0 {
        assert(rest.len() == 0);
    } else {
        assert(now == 0x10000);
        if used + 7 < 0x10000 {
            if pages >= 2 {
                lemma_record_pages(now, more, false, pages);
            } else {
                assert(rest.len() > 0) by {
                    lemma_some_bytes(now, more, false);
                }
            }
        } else {
            if pages >= 3 {
                lemma_record_pages(now, more, false, (pages - 1) as nat);
            } else {
                assert(rest.len() > 0) by {
                    lemma_some_bytes(now, more, false);
                }
            }
        }
    }
}

proof fn lemma_some_bytes(used: nat, data: Seq<u8>, first: bool)
    requires
        used <= 0x10000,
        data.len() > 0,
    ensures
        segment::record_bytes(used, data, first).len() >= 7,
{
    reveal(segment::record_bytes);
    let n = segment::chunk_len(used, data.len());
    lemma_chunk_layout(segment::chunk_type(first, n == data.len()), data.take(n as int));
}

/// A chunk is the byte of its type, the length of its data in two bytes, the data, and the
/// checksum of all that in four bytes.
pub proof fn lemma_chunk_layout(typ: RecordHeaderType, data: Seq<u8>)
    requires
        data.len() < 0x10000,
    ensures
        ({
            let c = segment::chunk_bytes(typ, data);
            let n = data.len() as int;
            &&& c.len() == n + 7
            &&& c[0] == match typ {
                RecordHeaderType::Empty => 0u8,
                RecordHeaderType::Full => 1,
                RecordHeaderType::First => 2,
                RecordHeaderType::Middle => 3,
                RecordHeaderType::Last => 4,
                RecordHeaderType::Error => 5,
            }
            &&& coding::le_value(c.subrange(1, 3)) == n
            &&& c.subrange(3, n + 3) == data
            &&& coding::le_value(c.subrange(n + 3, n + 7)) == coding::crc32(c.take(n + 3))
        }),
{
    let n = data.len() as int;
    let body = segment::chunk_body(typ, data);
    let c = segment::chunk_bytes(typ, data);
    let sum = coding::crc32(body) as nat;
    coding::lemma_pow256_values();
    coding::lemma_le_bytes_len(data.len(), 2);
    coding::lemma_le_value_of_le_bytes(data.len(), 2);
    coding::lemma_le_bytes_len(sum, 4);
    coding::lemma_le_value_of_le_bytes(sum, 4);
    assert(body.len() == n + 3);
    assert(c.subrange(1, 3) =~= coding::le_bytes(data.len(), 2));
    assert(c.subrange(3, n + 3) =~= data);
    assert(c.subrange(n + 3, n + 7) =~= coding::le_bytes(sum, 4));
    assert(c.take(n + 3) =~= body);
}

/// A record is one chunk where the data fits in the rest of the page, and else starts with one
/// that fills the page up.
pub proof fn lemma_record_starts(used: nat, data: Seq<u8>)
    requires
        used + 7 < 0x10000,
        data.len() > 0,
    ensures
        data.len() <= rest_of_page(used) ==> segment::record_bytes(used, data, true)
            == segment::chunk_bytes(RecordHeaderType::Full, data),
        data.len() > rest_of_page(used) ==> {
            &&& segment::record_bytes(used, data, true).len() > 0x10000 - used
            &&& segment::record_bytes(used, data, true).take(0x10000 - used)
                == segment::chunk_bytes(
                RecordHeaderType::First,
                data.take(rest_of_page(used) as int),
            )
        },
{
    if data.len() <= rest_of_page(used) {
        segment::lemma_short_record(used, data);
    } else {
        reveal(segment::record_bytes);
        let n = rest_of_page(used) as int;
        lemma_chunk_layout(RecordHeaderType::First, data.take(n));
        lemma_some_bytes(0x10000, data.skip(n), false);
        assert(segment::record_bytes(used, data, true).take(0x10000 - used)
            =~= segment::chunk_bytes(RecordHeaderType::First, data.take(n)));
    }
}

/// With `pages` whole pages left from the one that is being filled on, there is room for as many
/// bytes as are left of that page, and as many as each of the others has behind a header and a
/// checksum. A part of a page at the end counts only where there is no whole one.
pub proof fn lemma_room(capacity: nat, page_start: nat, used: nat, len: nat, pages: nat)
    requires
        page_start + pages * 0x10000 <= capacity < page_start + pages * 0x10000 + 0x10000,
        used <= 0x10000,
    ensures
        pages >= 1 ==> (segment::has_room(capacity, page_start, used, len) <==> len + used
            <= 0x10000 + 0xfff9 * (pages - 1)),
        pages == 0 && capacity > page_start ==> (segment::has_room(capacity, page_start, used, len)
            <==> len + used <= 0x10000),
        capacity == page_start ==> !segment::has_room(capacity, page_start, used, len),
{
    assert((capacity - page_start) / 0x10000 == pages);
}

/// A file is filled up to a whole page by less than a page.
pub proof fn lemma_padding(size: nat)
    ensures
        (size + segment::padding_of(size)) % 0x10000 == 0,
        segment::padding_of(size) < 0x10000,
{
}

/// A record that is read begins with a byte of a type, and its first chunk lies within the data
/// and has the right checksum. A chunk with another one is refused.
pub proof fn lemma_read_is_checked(data: Seq<u8>, p: nat)
    requires
        p + 7 < data.len(),
        1 <= data[p as int] <= 4,
    ensures
        ({
            let end = p + 3 + coding::le_value(data.subrange(p as int + 1, p as int + 3));
            &&& end + 4 > data.len() ==> segment::read_result(data, p) == Err::<
                Option<(Seq<u8>, nat)>,
                ReadFailure,
            >(ReadFailure::Truncated)
            &&& end + 4 <= data.len() && coding::crc32(data.subrange(p as int, end as int))
                != coding::le_value(data.subrange(end as int, end as int + 4))
                ==> segment::read_result(data, p) == Err::<Option<(Seq<u8>, nat)>, ReadFailure>(
                ReadFailure::ChecksumMismatch,
            )
            &&& segment::read_result(data, p) matches Ok(Some((record, to))) ==> {
                &&& end + 4 <= to <= data.len()
                &&& record.len() >= end - p - 3
                &&& record.take(end - p - 3) == data.subrange(p as int + 3, end as int)
            }
        }),
{
    let end = p + 3 + coding::le_value(data.subrange(p as int + 1, p as int + 3));
    let typ = RecordHeaderType::of(data[p as int]);
    if end + 4 <= data.len() {
        let all = Seq::<u8>::empty() + data.subrange(p as int + 3, end as int);
        assert(all =~= data.subrange(p as int + 3, end as int));
        lemma_read_goes_on(data, end + 4, all);
        if let Ok(Some((record, _))) = segment::read_result(data, p) {
            if typ == RecordHeaderType::Full || typ == RecordHeaderType::Last {
                assert(record.take(end - p - 3) =~= all);
            }
        }
    }
}

/// Reading on keeps what was collected, and ends within the data.
proof fn lemma_read_goes_on(data: Seq<u8>, p: nat, collected: Seq<u8>)
    ensures
        segment::read_chunks(data, p, true, collected) matches Ok(Some((record, to))) ==> {
            &&& p <= to <= data.len()
            &&& record.len() >= collected.len()
            &&& record.take(collected.len() as int) == collected
        },
    decreases data.len() - p,
{
    if p + 7 < data.len() {
        let typ = RecordHeaderType::of(data[p as int]);
        match typ {
            RecordHeaderType::Empty => {
                let q = segment::next_page(p + 1);
                if q + 7 < data.len() {
                    lemma_read_goes_on(data, q, collected);
                }
            },
            RecordHeaderType::Error => {},
            _ => {
                let end = p + 3 + coding::le_value(data.subrange(p as int + 1, p as int + 3));
                if end + 4 <= data.len() {
                    let all = collected + data.subrange(p as int + 3, end as int);
                    lemma_read_goes_on(data, end + 4, all);
                    assert(all.take(collected.len() as int) =~= collected);
                    if let Ok(Some((record, _))) = segment::read_chunks(data, end + 4, true, all) {
                        assert(record.take(all.len() as int).take(collected.len() as int)
                            =~= record.take(collected.len() as int));
                    }
                }
            },
        }
    }
}

/// Where no seven bytes and one more are left there is no record. A byte that is no type is
/// refused.
pub proof fn lemma_read_at_end(data: Seq<u8>, p: nat)
    ensures
        data.len() <= p + 7 ==> segment::read_result(data, p) == Ok::<
            Option<(Seq<u8>, nat)>,
            ReadFailure,
        >(None),
        data.len() > p + 7 && data[p as int] > 4 ==> segment::read_result(data, p) == Err::<
            Option<(Seq<u8>, nat)>,
            ReadFailure,
        >(ReadFailure::InvalidType),
{
}

/// Where the rest of a page is empty the next record is looked for at the start of the next page, if
/// there are seven bytes and one more. Else there is none. Left out is a place with one byte left in
/// its page.
pub proof fn lemma_read_over_fill(data: Seq<u8>, p: nat)
    requires
        p + 7 < data.len(),
        data[p as int] == 0,
        p % 0x10000 != 0xffff,
    ensures
        ({
            let q = (p - p % 0x10000 + 0x10000) as nat;
            segment::read_result(data, p) == if data.len() <= q + 7 {
                Ok::<Option<(Seq<u8>, nat)>, ReadFailure>(None)
            } else {
                segment::read_result(data, q)
            }
        }),
{
    let q = (p - p % 0x10000 + 0x10000) as nat;
    assert(segment::next_page(p + 1) == q);
}

/// A log that is opened goes on at the first whole page that is not before the end of the last
/// segment's file, or at the start of the first segment.
pub proof fn lemma_opened_place(log: Wal, last_segno: u32, last_size: usize, options: WalOptions)
    requires
        log.opened(last_segno, last_size, options),
    ensures
        last_segno == 0 ==> log.tail().number() == 1 && log.tail().position() == 0,
        last_segno > 0 ==> {
            &&& log.tail().number() == last_segno
            &&& log.tail().position() % 0x10000 == 0
            &&& last_size <= log.tail().position() < last_size + 0x10000
        },
        log.tail().size() == options.segment_capacity,
{
    lemma_padding(last_size as nat);
}

/// The open segment is gone on with as long as a record fits in its rest, which is `pages` whole
/// pages from the one that is being filled on. Else a new one is started, with the next number and
/// empty.
pub proof fn lemma_turn(log: Wal, before: Wal, len: nat, pages: nat)
    requires
        log.turned_from(before, len),
        before.segment_size() == before.tail().start() + pages * 0x10000,
        before.tail().used() <= 0x10000,
    ensures
        pages >= 1 && len + before.tail().used() <= 0x10000 + 0xfff9 * (pages - 1) ==> {
            &&& log.tail() == before.tail()
            &&& log.filled() == before.filled()
        },
        pages == 0 || len + before.tail().used() > 0x10000 + 0xfff9 * (pages - 1) ==> {
            &&& log.tail().number() == before.tail().number() + 1
            &&& log.tail().position() == 0
            &&& log.tail().size() == before.tail().size()
            &&& log.filled().len() == before.filled().len() + 1
        },
{
    lemma_room(before.segment_size(), before.tail().start(), before.tail().used(), len, pages);
}

/// A record that is appended stands in the open segment behind all that was there, and the next
/// one goes on behind it.
pub proof fn lemma_append(log: Wal, before: Wal, record: Seq<u8>)
    requires
        log.appended_to(before, record),
        record.len() > 0,
        record.len() <= rest_of_page(before.tail().position() % 0x10000),
    ensures
        log.tail().number() == before.tail().number(),
        log.tail().image() == before.tail().image() + segment::chunk_bytes(
            RecordHeaderType::Full,
            record,
        ),
        log.tail().position() == before.tail().position() + record.len() + 7,
        log.filled() == before.filled(),
{
    lemma_record_starts(before.tail().position() % 0x10000, record);
    lemma_chunk_layout(RecordHeaderType::Full, record);
}

/// Handing over everything adds nothing to the log, but that a page with no more than seven bytes
/// left is filled up with zeros, if something of it was still to be handed over.
pub proof fn lemma_hand_over(log: Wal, before: Wal)
    requires
        log.flushed_from(before),
        before.tail().used() <= 0x10000,
    ensures
        log.tail().flushed() == log.tail().image(),
        before.tail().used() + 7 < 0x10000 || before.tail().used() == before.tail().handed_over()
            ==> log.tail().image() == before.tail().image(),
        before.tail().used() + 7 >= 0x10000 && before.tail().used() != before.tail().handed_over()
            ==> {
            let filled = log.tail().image();
            let n = before.tail().image().len() as int;
            &&& filled.len() == n + 0x10000 - before.tail().used()
            &&& filled.take(n) == before.tail().image()
            &&& forall|i: int| n <= i < filled.len() ==> #[trigger] filled[i] == 0
        },
        log.tail().number() == before.tail().number(),
        log.filled() == before.filled(),
{
    let n = before.tail().image().len() as int;
    if before.tail().used() + 7 >= 0x10000 && before.tail().used()
        != before.tail().handed_over() {
        assert(log.tail().image().take(n) =~= before.tail().image());
    } else {
        assert(log.tail().image() =~= before.tail().image());
    }
}

/// A record can be appended where the open segment has room for it in its rest of `pages` whole
/// pages, or a new one of `all` whole pages has, whose number and places can be told.
pub proof fn lemma_fits(log: Wal, len: nat, pages: nat, all: nat)
    requires
        log.segment_size() == log.tail().start() + pages * 0x10000,
        log.segment_size() == all * 0x10000,
        log.tail().used() <= 0x10000,
        all >= 1,
    ensures
        log.fits(len) <==> {
            ||| pages >= 1 && len + log.tail().used() <= 0x10000 + 0xfff9 * (pages - 1)
            ||| {
                &&& len <= 0x10000 + 0xfff9 * (all - 1)
                &&& log.tail().number() < u32::MAX
                &&& (log.tail().number() + 1) * log.segment_size() + 0x20000 <= usize::MAX
            }
        },
{
    lemma_room(log.segment_size(), log.tail().start(), log.tail().used(), len, pages);
    lemma_room(log.segment_size(), 0, 0, len, all);
}

/// The record of a write is the number of the transaction, eight zeros, the key and the value,
/// both behind their lengths; that of a deletion has a one in place of the fifth zero, and no
/// value.
pub proof fn lemma_write_record(xid: Timestamp, k: Seq<u8>, v: Seq<u8>)
    ensures
        log_record::full_encoding(xid, RecordView::Put(k, v)) == coding::le_bytes(
            xid.0 as nat,
            8,
        ) + seq![0u8, 0, 0, 0, 0, 0, 0, 0] + coding::bytes_encoding(k) + coding::bytes_encoding(v),
        log_record::full_encoding(xid, RecordView::Delete(k)) == coding::le_bytes(xid.0 as nat, 8)
            + seq![0u8, 0, 0, 0, 1, 0, 0, 0] + coding::bytes_encoding(k),
{
    lemma_small_numbers();
    let x = coding::le_bytes(xid.0 as nat, 8);
    assert(log_record::full_encoding(xid, RecordView::Put(k, v)) =~= x + seq![
        0u8,
        0,
        0,
        0,
        0,
        0,
        0,
        0,
    ] + coding::bytes_encoding(k) + coding::bytes_encoding(v));
    assert(log_record::full_encoding(xid, RecordView::Delete(k)) =~= x + seq![
        0u8,
        0,
        0,
        0,
        1,
        0,
        0,
        0,
    ] + coding::bytes_encoding(k));
}

/// The record of a commit is the number of the transaction, what it is, when it committed and the
/// oldest transaction in progress that was known; that of an abort is the first two of these.
pub proof fn lemma_end_record(xid: Timestamp, commit: Timestamp, oldest: Timestamp)
    ensures
        log_record::full_encoding(xid, RecordView::Commit(commit, oldest)) == coding::le_bytes(
            xid.0 as nat,
            8,
        ) + seq![1u8, 0, 0, 0, 0, 0, 0, 0] + coding::le_bytes(commit.0 as nat, 8)
            + coding::le_bytes(oldest.0 as nat, 8),
        log_record::full_encoding(xid, RecordView::Abort) == coding::le_bytes(xid.0 as nat, 8)
            + seq![1u8, 0, 0, 0, 1, 0, 0, 0],
{
    lemma_small_numbers();
    let x = coding::le_bytes(xid.0 as nat, 8);
    assert(log_record::full_encoding(xid, RecordView::Commit(commit, oldest)) =~= x + seq![
        1u8,
        0,
        0,
        0,
        0,
        0,
        0,
        0,
    ] + coding::le_bytes(commit.0 as nat, 8) + coding::le_bytes(oldest.0 as nat, 8));
    assert(log_record::full_encoding(xid, RecordView::Abort) =~= x + seq![
        1u8,
        0,
        0,
        0,
        1,
        0,
        0,
        0,
    ]);
}

/// The description of a table file is its name, its size and its transaction, in eight bytes each,
/// its least and its greatest key, both behind their lengths, and whether it is being compacted.
pub proof fn lemma_meta_layout(m: FileMeta)
    ensures
        log_record::meta_encoding(m) == coding::le_bytes(m.file_ref.0 as nat, 8)
            + coding::le_bytes(m.file_ref.1 as nat, 8) + coding::le_bytes(m.size as nat, 8)
            + coding::le_bytes(m.min_xip.0 as nat, 8) + coding::bytes_encoding(m.infimum)
            + coding::bytes_encoding(m.supremum) + if m.being_compacted {
            seq![1u8]
        } else {
            seq![0u8]
        },
{
    reveal(log_record::meta_encoding);
    assert(log_record::meta_encoding(m) =~= coding::le_bytes(m.file_ref.0 as nat, 8)
        + coding::le_bytes(m.file_ref.1 as nat, 8) + coding::le_bytes(m.size as nat, 8)
        + coding::le_bytes(m.min_xip.0 as nat, 8) + coding::bytes_encoding(m.infimum)
        + coding::bytes_encoding(m.supremum) + if m.being_compacted {
        seq![1u8]
    } else {
        seq![0u8]
    });
}

/// The record of a checkpoint is a zero for the transaction, what it is, the oldest transaction
/// that was in progress, where a recovery starts, the number of the next file, the number of
/// levels, and of each level the number of its files and their descriptions.
pub proof fn lemma_checkpoint_record(
    oldest: Timestamp,
    point: u64,
    next: usize,
    levels: Seq<Seq<FileMeta>>,
)
    ensures
        log_record::full_encoding(
            Timestamp(0),
            RecordView::Checkpoint(oldest, point, next, levels),
        ) == seq![0u8, 0, 0, 0, 0, 0, 0, 0] + seq![2u8, 0, 0, 0, 0, 0, 0, 0] + coding::le_bytes(
            oldest.0 as nat,
            8,
        ) + coding::le_bytes(point as nat, 8) + coding::le_bytes(next as nat, 8)
            + coding::le_bytes(levels.len(), 8) + levels.map_values(
            |files: Seq<FileMeta>|
                coding::le_bytes(files.len(), 8) + files.map_values(
                    |m: FileMeta| log_record::meta_encoding(m),
                ).flatten(),
        ).flatten(),
{
    lemma_small_numbers();
    assert(coding::le_bytes(0, 8) =~= seq![0u8, 0, 0, 0, 0, 0, 0, 0]) by {
        reveal_with_fuel(coding::le_bytes, 9);
    }
    lemma_levels_layout(levels);
    let all = levels.map_values(
        |files: Seq<FileMeta>|
            coding::le_bytes(files.len(), 8) + files.map_values(
                |m: FileMeta| log_record::meta_encoding(m),
            ).flatten(),
    ).flatten();
    assert(log_record::full_encoding(
        Timestamp(0),
        RecordView::Checkpoint(oldest, point, next, levels),
    ) =~= seq![0u8, 0, 0, 0, 0, 0, 0, 0] + seq![2u8, 0, 0, 0, 0, 0, 0, 0] + coding::le_bytes(
        oldest.0 as nat,
        8,
    ) + coding::le_bytes(point as nat, 8) + coding::le_bytes(next as nat, 8) + coding::le_bytes(
        levels.len(),
        8,
    ) + all);
}

proof fn lemma_metas_layout(files: Seq<FileMeta>)
    ensures
        log_record::metas_encoding(files) == files.map_values(
            |m: FileMeta| log_record::meta_encoding(m),
        ).flatten(),
    decreases files.len(),
{
    reveal(Seq::flatten);
    let parts = files.map_values(|m: FileMeta| log_record::meta_encoding(m));
    if files.len() > 0 {
        let rest = files.drop_first();
        lemma_metas_layout(rest);
        assert(parts.drop_first() =~= rest.map_values(
            |m: FileMeta| log_record::meta_encoding(m),
        ));
        assert(parts.flatten() == parts[0] + parts.drop_first().flatten());
    } else {
        assert(parts.flatten() =~= log_record::metas_encoding(files));
    }
}

proof fn lemma_levels_layout(levels: Seq<Seq<FileMeta>>)
    ensures
        log_record::levels_encoding(levels) == levels.map_values(
            |files: Seq<FileMeta>|
                coding::le_bytes(files.len(), 8) + files.map_values(
                    |m: FileMeta| log_record::meta_encoding(m),
                ).flatten(),
        ).flatten(),
    decreases levels.len(),
{
    reveal(Seq::flatten);
    let parts = levels.map_values(
        |files: Seq<FileMeta>|
            coding::le_bytes(files.len(), 8) + files.map_values(
                |m: FileMeta| log_record::meta_encoding(m),
            ).flatten(),
    );
    if levels.len() > 0 {
        let rest = levels.drop_first();
        lemma_levels_layout(rest);
        lemma_metas_layout(levels[0]);
        assert(parts.drop_first() =~= rest.map_values(
            |files: Seq<FileMeta>|
                coding::le_bytes(files.len(), 8) + files.map_values(
                    |m: FileMeta| log_record::meta_encoding(m),
                ).flatten(),
        ));
        assert(parts.flatten() == parts[0] + parts.drop_first().flatten());
        assert(parts[0] =~= log_record::level_encoding(levels[0]));
    } else {
        assert(parts.flatten() =~= log_record::levels_encoding(levels));
    }
}

/// What is read as a record has at least sixteen bytes: the number of the transaction, which comes
/// out as it stands there, and two numbers that tell what the record is. Others are refused.
pub proof fn lemma_decoding_is_checked(s: Seq<u8>)
    ensures
        s.len() < 16 ==> log_record::full_decoding(s) is None,
        log_record::full_decoding(s) matches Some((xid, record)) ==> {
            let kind = coding::le_value(s.subrange(8, 12));
            let sub = coding::le_value(s.subrange(12, 16));
            &&& xid.0 == coding::le_value(s.take(8))
            &&& (kind, sub) == match record {
                RecordView::Put(..) => (0nat, 0nat),
                RecordView::Delete(..) => (0, 1),
                RecordView::Commit(..) => (1, 0),
                RecordView::Abort => (1, 1),
                RecordView::Checkpoint(..) => (2, 0),
            }
        },
{
    if s.len() >= 16 {
        assert(s.skip(8).take(4) =~= s.subrange(8, 12));
        assert(s.skip(8).skip(4).take(4) =~= s.subrange(12, 16));
        coding::lemma_pow256_values();
        coding::lemma_le_value_bound(s.take(8));
    } else if s.len() >= 8 {
        assert(s.skip(8).len() == s.len() - 8);
    }
}

proof fn lemma_small_numbers()
    ensures
        coding::le_bytes(0, 4) == seq![0u8, 0, 0, 0],
        coding::le_bytes(1, 4) == seq![1u8, 0, 0, 0],
        coding::le_bytes(2, 4) == seq![2u8, 0, 0, 0],
        coding::le_bytes(3, 4) == seq![3u8, 0, 0, 0],
{
    reveal_with_fuel(coding::le_bytes, 5);
    assert(coding::le_bytes(0, 4) =~= seq![0u8, 0, 0, 0]);
    assert(coding::le_bytes(1, 4) =~= seq![1u8, 0, 0, 0]);
    assert(coding::le_bytes(2, 4) =~= seq![2u8, 0, 0, 0]);
    assert(coding::le_bytes(3, 4) =~= seq![3u8, 0, 0, 0]);
}

/// The manifest is the state, the places of the last two checkpoints, the oldest transaction that
/// was in progress and the time, each in so many bytes, and the checksum of all that.
pub proof fn lemma_manifest_layout(m: Manifest)
    ensures
        ({
            let b = checkpoint::manifest_bytes(m);
            &&& b.len() == 44
            &&& b.take(4) == match m.db_state {
                DbState::Shutdowned => seq![0u8, 0, 0, 0],
                DbState::Shutdowning => seq![1u8, 0, 0, 0],
                DbState::InCrashRecovery => seq![2u8, 0, 0, 0],
                DbState::InProduction => seq![3u8, 0, 0, 0],
            }
            &&& b.subrange(4, 12) == coding::le_bytes(m.last_checkpoint_pos as nat, 8)
            &&& b.subrange(12, 20) == coding::le_bytes(m.prev_checkpoint_pos as nat, 8)
            &&& b.subrange(20, 28) == coding::le_bytes(m.min_xip.0 as nat, 8)
            &&& b.subrange(28, 36) == coding::le_bytes(m.time.secs as nat, 8)
            &&& b.subrange(36, 40) == coding::le_bytes(m.time.nanos as nat, 4)
            &&& b.subrange(40, 44) == coding::le_bytes(coding::crc32(b.take(40)) as nat, 4)
        }),
{
    lemma_small_numbers();
    let b = checkpoint::manifest_bytes(m);
    coding::lemma_le_bytes_len(m.last_checkpoint_pos as nat, 8);
    coding::lemma_le_bytes_len(m.prev_checkpoint_pos as nat, 8);
    coding::lemma_le_bytes_len(m.min_xip.0 as nat, 8);
    coding::lemma_le_bytes_len(m.time.secs as nat, 8);
    coding::lemma_le_bytes_len(m.time.nanos as nat, 4);
    coding::lemma_le_bytes_len(coding::crc32(checkpoint::manifest_body(m)) as nat, 4);
    assert(b.take(4) =~= coding::le_bytes(m.db_state.number(), 4));
    assert(b.subrange(4, 12) =~= coding::le_bytes(m.last_checkpoint_pos as nat, 8));
    assert(b.subrange(12, 20) =~= coding::le_bytes(m.prev_checkpoint_pos as nat, 8));
    assert(b.subrange(20, 28) =~= coding::le_bytes(m.min_xip.0 as nat, 8));
    assert(b.subrange(28, 36) =~= coding::le_bytes(m.time.secs as nat, 8));
    assert(b.subrange(36, 40) =~= coding::le_bytes(m.time.nanos as nat, 4));
    assert(b.take(40) =~= checkpoint::manifest_body(m));
    assert(b.subrange(40, 44) =~= coding::le_bytes(coding::crc32(b.take(40)) as nat, 4));
}

/// The manifest of a new store says that it is shut down and that there is no checkpoint.
pub proof fn lemma_new_manifest(now: ManifestTime)
    ensures
        ({
            let m = checkpoint::initial_manifest(now);
            &&& m.db_state == DbState::Shutdowned
            &&& m.last_checkpoint_pos == 0
            &&& m.prev_checkpoint_pos == 0
            &&& m.min_xip.0 == 0
            &&& m.time == now
        }),
{
}

/// A manifest with another checksum than that of its bytes is refused, and so is one that ends too
/// early or whose state is none.
pub proof fn lemma_manifest_is_checked(s: Seq<u8>)
    ensures
        checkpoint::manifest_of(s) is Some ==> {
            &&& s.len() >= 44
            &&& coding::le_value(s.skip(s.len() - 4)) == coding::crc32(s.take(s.len() - 4))
            &&& coding::le_value(s.take(4)) <= 3
        },
{
    if checkpoint::manifest_of(s) is Some {
        assert(s.take(s.len() - 4).take(4) =~= s.take(4));
    }
}

} // verus!

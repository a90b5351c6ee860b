//! Log records and their bytes.
use crate::coding;
use crate::coding::{write_bytes, write_u32_le, write_u64_le, ByteReader};
use crate::memtable::memtable_log::{DeleteLog, MemTableLogRecord, PutLog};
use crate::table;
use crate::table::{FileMeta, TableFileMeta, TableFileRef};
use crate::transaction::transaction_log::{TransactionLogRecord, TxnCommitLog};
use crate::transaction::Timestamp;
use crate::wal::wal_log::WalLogRecord;
use vstd::prelude::*;

verus! {

/// A record of the log.
pub enum LogRecord {
    MemTable(MemTableLogRecord),
    Transaction(TransactionLogRecord),
    Wal(WalLogRecord),
}

/// What a log record says.
pub enum RecordView {
    Put(Seq<u8>, Seq<u8>),
    Delete(Seq<u8>),
    Commit(Timestamp, Timestamp),
    Abort,
    Checkpoint(Timestamp, u64, usize, Seq<Seq<FileMeta>>),
}

impl View for LogRecord {
    type V = RecordView;

    open spec fn view(&self) -> RecordView {
        match self {
            LogRecord::MemTable(MemTableLogRecord::Put(p)) => RecordView::Put(p.key@, p.value@),
            LogRecord::MemTable(MemTableLogRecord::Delete(d)) => RecordView::Delete(d.key@),
            LogRecord::Transaction(TransactionLogRecord::Commit(c)) => RecordView::Commit(
                c.commit_ts,
                c.min_xip,
            ),
            LogRecord::Transaction(TransactionLogRecord::Abort) => RecordView::Abort,
            LogRecord::Wal(WalLogRecord::Checkpoint(c)) => RecordView::Checkpoint(
                c.min_xip,
                c.min_recovery_point,
                c.next_file_num,
                table::file_set_view(c.file_set@),
            ),
        }
    }
}

impl LogRecord {
    pub fn create_transaction_record(txn_log_record: TransactionLogRecord) -> (r: LogRecord)
        ensures
            r == LogRecord::Transaction(txn_log_record),
    {
        LogRecord::Transaction(txn_log_record)
    }

    pub fn create_memtable_record(memtable_log_record: MemTableLogRecord) -> (r: LogRecord)
        ensures
            r == LogRecord::MemTable(memtable_log_record),
    {
        LogRecord::MemTable(memtable_log_record)
    }

    pub fn create_wal_record(wal_log_record: WalLogRecord) -> (r: LogRecord)
        ensures
            r == LogRecord::Wal(wal_log_record),
    {
        LogRecord::Wal(wal_log_record)
    }
}

/// The bytes of a description of a table file.
#[verifier::opaque]
pub open spec fn meta_encoding(m: FileMeta) -> Seq<u8> {
    coding::le_bytes(m.file_ref.0 as nat, 8) + (coding::le_bytes(m.file_ref.1 as nat, 8) + (
    coding::le_bytes(m.size as nat, 8) + (coding::le_bytes(m.min_xip.0 as nat, 8) + (
    coding::bytes_encoding(m.infimum) + (coding::bytes_encoding(m.supremum) + seq![
        if m.being_compacted {
            1u8
        } else {
            0u8
        },
    ])))))
}

/// The bytes of descriptions, one after the other.
pub open spec fn metas_encoding(ms: Seq<FileMeta>) -> Seq<u8>
    decreases ms.len(),
{
    if ms.len() == 0 {
        Seq::empty()
    } else {
        meta_encoding(ms[0]) + metas_encoding(ms.drop_first())
    }
}

/// The bytes of the descriptions of a level, after their number.
pub open spec fn level_encoding(ms: Seq<FileMeta>) -> Seq<u8> {
    coding::le_bytes(ms.len(), 8) + metas_encoding(ms)
}

/// The bytes of levels, one after the other.
pub open spec fn levels_encoding(ls: Seq<Seq<FileMeta>>) -> Seq<u8>
    decreases ls.len(),
{
    if ls.len() == 0 {
        Seq::empty()
    } else {
        level_encoding(ls[0]) + levels_encoding(ls.drop_first())
    }
}

/// The bytes of a record.
pub open spec fn record_encoding(r: RecordView) -> Seq<u8> {
    match r {
        RecordView::Put(k, v) => coding::le_bytes(0, 4) + (coding::le_bytes(0, 4) + (
        coding::bytes_encoding(k) + coding::bytes_encoding(v))),
        RecordView::Delete(k) => coding::le_bytes(0, 4) + (coding::le_bytes(1, 4)
            + coding::bytes_encoding(k)),
        RecordView::Commit(c, m) => coding::le_bytes(1, 4) + (coding::le_bytes(0, 4) + (
        coding::le_bytes(c.0 as nat, 8) + coding::le_bytes(m.0 as nat, 8))),
        RecordView::Abort => coding::le_bytes(1, 4) + coding::le_bytes(1, 4),
        RecordView::Checkpoint(m, p, n, ls) => coding::le_bytes(2, 4) + (coding::le_bytes(0, 4) + (
        coding::le_bytes(m.0 as nat, 8) + (coding::le_bytes(p as nat, 8) + (coding::le_bytes(
            n as nat,
            8,
        ) + (coding::le_bytes(ls.len(), 8) + levels_encoding(ls)))))),
    }
}

/// The bytes of a record and the transaction that it belongs to.
pub open spec fn full_encoding(xid: Timestamp, r: RecordView) -> Seq<u8> {
    coding::le_bytes(xid.0 as nat, 8) + record_encoding(r)
}

/// A number that has to fit in a machine word.
pub open spec fn take_word(s: Seq<u8>) -> Option<(nat, Seq<u8>)> {
    match coding::take_number(s, 8) {
        None => None,
        Some((n, rest)) => if n <= usize::MAX {
            Some((n, rest))
        } else {
            None
        },
    }
}

/// The description of a table file that `s` starts with.
#[verifier::opaque]
pub open spec fn take_meta(s: Seq<u8>) -> Option<(FileMeta, Seq<u8>)> {
    match take_word(s) {
        None => None,
        Some((path_id, s1)) => match take_word(s1) {
            None => None,
            Some((seqnum, s2)) => match take_word(s2) {
                None => None,
                Some((size, s3)) => match coding::take_number(s3, 8) {
                    None => None,
                    Some((min_xip, s4)) => match coding::take_bytes(s4) {
                        None => None,
                        Some((infimum, s5)) => match coding::take_bytes(s5) {
                            None => None,
                            Some((supremum, s6)) => if s6.len() == 0 || s6[0] > 1 {
                                None
                            } else {
                                Some(
                                    (
                                        FileMeta {
                                            file_ref: TableFileRef(
                                                path_id as usize,
                                                seqnum as usize,
                                            ),
                                            size: size as usize,
                                            min_xip: Timestamp(min_xip as u64),
                                            infimum,
                                            supremum,
                                            being_compacted: s6[0] == 1,
                                        },
                                        s6.drop_first(),
                                    ),
                                )
                            },
                        },
                    },
                },
            },
        },
    }
}

/// The descriptions of `n` table files that `s` starts with.
pub open spec fn take_metas(s: Seq<u8>, n: nat) -> Option<(Seq<FileMeta>, Seq<u8>)>
    decreases n,
{
    if n == 0 {
        Some((Seq::empty(), s))
    } else {
        match take_meta(s) {
            None => None,
            Some((m, rest)) => match take_metas(rest, (n - 1) as nat) {
                None => None,
                Some((ms, end)) => Some((seq![m] + ms, end)),
            },
        }
    }
}

/// The level that `s` starts with.
pub open spec fn take_level(s: Seq<u8>) -> Option<(Seq<FileMeta>, Seq<u8>)> {
    match coding::take_number(s, 8) {
        None => None,
        Some((n, rest)) => take_metas(rest, n),
    }
}

/// The `n` levels that `s` starts with.
pub open spec fn take_levels(s: Seq<u8>, n: nat) -> Option<(Seq<Seq<FileMeta>>, Seq<u8>)>
    decreases n,
{
    if n == 0 {
        Some((Seq::empty(), s))
    } else {
        match take_level(s) {
            None => None,
            Some((l, rest)) => match take_levels(rest, (n - 1) as nat) {
                None => None,
                Some((ls, end)) => Some((seq![l] + ls, end)),
            },
        }
    }
}

/// The checkpoint that `s` starts with.
pub open spec fn take_checkpoint(s: Seq<u8>) -> Option<RecordView> {
    match coding::take_number(s, 8) {
        None => None,
        Some((min_xip, s1)) => match coding::take_number(s1, 8) {
            None => None,
            Some((point, s2)) => match take_word(s2) {
                None => None,
                Some((next, s3)) => match coding::take_number(s3, 8) {
                    None => None,
                    Some((n, s4)) => match take_levels(s4, n) {
                        None => None,
                        Some((ls, _)) => Some(
                            RecordView::Checkpoint(
                                Timestamp(min_xip as u64),
                                point as u64,
                                next as usize,
                                ls,
                            ),
                        ),
                    },
                },
            },
        },
    }
}

/// The record of a kind that `s` starts with.
pub open spec fn take_payload(kind: nat, sub: nat, s: Seq<u8>) -> Option<RecordView> {
    if kind == 0 && sub == 0 {
        match coding::take_bytes(s) {
            None => None,
            Some((k, s1)) => match coding::take_bytes(s1) {
                None => None,
                Some((v, _)) => Some(RecordView::Put(k, v)),
            },
        }
    } else if kind == 0 && sub == 1 {
        match coding::take_bytes(s) {
            None => None,
            Some((k, _)) => Some(RecordView::Delete(k)),
        }
    } else if kind == 1 && sub == 0 {
        match coding::take_number(s, 8) {
            None => None,
            Some((c, s1)) => match coding::take_number(s1, 8) {
                None => None,
                Some((m, _)) => Some(
                    RecordView::Commit(Timestamp(c as u64), Timestamp(m as u64)),
                ),
            },
        }
    } else if kind == 1 && sub == 1 {
        Some(RecordView::Abort)
    } else if kind == 2 && sub == 0 {
        take_checkpoint(s)
    } else {
        None
    }
}

/// The transaction and the record that the bytes hold. Bytes after them do not matter.
pub open spec fn full_decoding(s: Seq<u8>) -> Option<(Timestamp, RecordView)> {
    match coding::take_number(s, 8) {
        None => None,
        Some((xid, s1)) => match coding::take_number(s1, 4) {
            None => None,
            Some((kind, s2)) => match coding::take_number(s2, 4) {
                None => None,
                Some((sub, s3)) => match take_payload(kind, sub, s3) {
                    None => None,
                    Some(r) => Some((Timestamp(xid as u64), r)),
                },
            },
        },
    }
}

/// Whether the byte strings of a description are of lengths that can be written.
pub open spec fn meta_fits(m: FileMeta) -> bool {
    m.infimum.len() <= u64::MAX && m.supremum.len() <= u64::MAX
}

/// Whether the lists and byte strings of a record are of lengths that can be written.
pub open spec fn record_fits(r: RecordView) -> bool {
    match r {
        RecordView::Put(k, v) => k.len() <= u64::MAX && v.len() <= u64::MAX,
        RecordView::Delete(k) => k.len() <= u64::MAX,
        RecordView::Commit(_, _) => true,
        RecordView::Abort => true,
        RecordView::Checkpoint(_, _, _, ls) => {
            &&& ls.len() <= u64::MAX
            &&& forall|i: int| 0 <= i < ls.len() ==> (#[trigger] ls[i]).len() <= u64::MAX
            &&& forall|i: int, j: int|
                0 <= i < ls.len() && 0 <= j < ls[i].len() ==> meta_fits(#[trigger] ls[i][j])
        },
    }
}

#[verifier::rlimit(40)]
#[verifier::spinoff_prover]
proof fn lemma_take_meta(m: FileMeta, rest: Seq<u8>)
    requires
        meta_fits(m),
    ensures
        take_meta(meta_encoding(m) + rest) == Some((m, rest)),
{
    reveal(meta_encoding);
    reveal(take_meta);
    coding::lemma_pow256_values();
    let flag = seq![
        if m.being_compacted {
            1u8
        } else {
            0u8
        },
    ];
    let e5 = coding::bytes_encoding(m.supremum);
    let e4 = coding::bytes_encoding(m.infimum);
    let e3 = coding::le_bytes(m.min_xip.0 as nat, 8);
    let e2 = coding::le_bytes(m.size as nat, 8);
    let e1 = coding::le_bytes(m.file_ref.1 as nat, 8);
    let e0 = coding::le_bytes(m.file_ref.0 as nat, 8);
    let r6 = flag + rest;
    let r5 = e5 + r6;
    let r4 = e4 + r5;
    let r3 = e3 + r4;
    let r2 = e2 + r3;
    let r1 = e1 + r2;
    lemma_assoc(e0, e1 + (e2 + (e3 + (e4 + (e5 + flag)))), rest);
    lemma_assoc(e1, e2 + (e3 + (e4 + (e5 + flag))), rest);
    lemma_assoc(e2, e3 + (e4 + (e5 + flag)), rest);
    lemma_assoc(e3, e4 + (e5 + flag), rest);
    lemma_assoc(e4, e5 + flag, rest);
    lemma_assoc(e5, flag, rest);
    assert(meta_encoding(m) + rest == e0 + r1);
    coding::lemma_take_number(m.file_ref.0 as nat, 8, r1);
    coding::lemma_take_number(m.file_ref.1 as nat, 8, r2);
    coding::lemma_take_number(m.size as nat, 8, r3);
    coding::lemma_take_number(m.min_xip.0 as nat, 8, r4);
    coding::lemma_take_bytes(m.infimum, r5);
    coding::lemma_take_bytes(m.supremum, r6);
    assert(r6.drop_first() =~= rest);
}

proof fn lemma_take_metas(ms: Seq<FileMeta>, rest: Seq<u8>)
    requires
        forall|i: int| 0 <= i < ms.len() ==> meta_fits(#[trigger] ms[i]),
    ensures
        take_metas(metas_encoding(ms) + rest, ms.len()) == Some((ms, rest)),
    decreases ms.len(),
{
    if ms.len() == 0 {
        assert(metas_encoding(ms) + rest =~= rest);
        assert(ms =~= Seq::empty());
    } else {
        let tail = ms.drop_first();
        lemma_assoc(meta_encoding(ms[0]), metas_encoding(tail), rest);
        lemma_take_meta(ms[0], metas_encoding(tail) + rest);
        lemma_take_metas(tail, rest);
        assert(seq![ms[0]] + tail =~= ms);
    }
}

proof fn lemma_take_levels(ls: Seq<Seq<FileMeta>>, rest: Seq<u8>)
    requires
        forall|i: int| 0 <= i < ls.len() ==> (#[trigger] ls[i]).len() <= u64::MAX,
        forall|i: int, j: int|
            0 <= i < ls.len() && 0 <= j < ls[i].len() ==> meta_fits(#[trigger] ls[i][j]),
    ensures
        take_levels(levels_encoding(ls) + rest, ls.len()) == Some((ls, rest)),
    decreases ls.len(),
{
    if ls.len() == 0 {
        assert(levels_encoding(ls) + rest =~= rest);
        assert(ls =~= Seq::empty());
    } else {
        coding::lemma_pow256_values();
        let tail = ls.drop_first();
        let after = levels_encoding(tail) + rest;
        lemma_assoc(level_encoding(ls[0]), levels_encoding(tail), rest);
        lemma_assoc(coding::le_bytes(ls[0].len(), 8), metas_encoding(ls[0]), after);
        coding::lemma_take_number(ls[0].len(), 8, metas_encoding(ls[0]) + after);
        lemma_take_metas(ls[0], after);
        assert forall|i: int, j: int| 0 <= i < tail.len() && 0 <= j < tail[i].len() implies
            meta_fits(#[trigger] tail[i][j]) by {
            assert(tail[i] == ls[i + 1]);
            assert(meta_fits(ls[i + 1][j]));
        }
        assert forall|i: int| 0 <= i < tail.len() implies (#[trigger] tail[i]).len()
            <= u64::MAX by {
            assert(tail[i] == ls[i + 1]);
        }
        lemma_take_levels(tail, rest);
        assert(seq![ls[0]] + tail =~= ls);
    }
}

proof fn lemma_heads(xid: Timestamp, kind: nat, sub: nat, payload: Seq<u8>)
    requires
        kind < 0x1_0000_0000,
        sub < 0x1_0000_0000,
    ensures
        ({
            let s = coding::le_bytes(xid.0 as nat, 8) + (coding::le_bytes(kind, 4) + (
            coding::le_bytes(sub, 4) + payload));
            full_decoding(s) == match take_payload(kind, sub, payload) {
                None => None,
                Some(r) => Some((xid, r)),
            }
        }),
{
    coding::lemma_pow256_values();
    let r2 = coding::le_bytes(sub, 4) + payload;
    let r1 = coding::le_bytes(kind, 4) + r2;
    coding::lemma_take_number(xid.0 as nat, 8, r1);
    coding::lemma_take_number(kind, 4, r2);
    coding::lemma_take_number(sub, 4, payload);
}

proof fn lemma_take_checkpoint(
    m: Timestamp,
    p: u64,
    n: usize,
    ls: Seq<Seq<FileMeta>>,
    rest: Seq<u8>,
)
    requires
        record_fits(RecordView::Checkpoint(m, p, n, ls)),
    ensures
        take_checkpoint(
            coding::le_bytes(m.0 as nat, 8) + (coding::le_bytes(p as nat, 8) + (coding::le_bytes(
                n as nat,
                8,
            ) + (coding::le_bytes(ls.len(), 8) + (levels_encoding(ls) + rest)))),
        ) == Some(RecordView::Checkpoint(m, p, n, ls)),
{
    coding::lemma_pow256_values();
    let r5 = levels_encoding(ls) + rest;
    let r4 = coding::le_bytes(ls.len(), 8) + r5;
    let r3 = coding::le_bytes(n as nat, 8) + r4;
    let r2 = coding::le_bytes(p as nat, 8) + r3;
    coding::lemma_take_number(m.0 as nat, 8, r2);
    coding::lemma_take_number(p as nat, 8, r3);
    coding::lemma_take_number(n as nat, 8, r4);
    coding::lemma_take_number(ls.len(), 8, r5);
    lemma_take_levels(ls, rest);
}

/// A record is read back as it was written, whatever follows it.
pub proof fn lemma_record_round_trip(xid: Timestamp, r: RecordView, rest: Seq<u8>)
    requires
        record_fits(r),
    ensures
        full_decoding(full_encoding(xid, r) + rest) == Some((xid, r)),
{
    coding::lemma_pow256_values();
    let x = coding::le_bytes(xid.0 as nat, 8);
    lemma_assoc(x, record_encoding(r), rest);
    match r {
        RecordView::Put(k, v) => {
            let (a, b) = (coding::le_bytes(0, 4), coding::le_bytes(0, 4));
            let (c, d) = (coding::bytes_encoding(k), coding::bytes_encoding(v));
            lemma_assoc(a, b + (c + d), rest);
            lemma_assoc(b, c + d, rest);
            lemma_assoc(c, d, rest);
            lemma_heads(xid, 0, 0, c + (d + rest));
            coding::lemma_take_bytes(k, d + rest);
            coding::lemma_take_bytes(v, rest);
        },
        RecordView::Delete(k) => {
            let (a, b) = (coding::le_bytes(0, 4), coding::le_bytes(1, 4));
            let c = coding::bytes_encoding(k);
            lemma_assoc(a, b + c, rest);
            lemma_assoc(b, c, rest);
            lemma_heads(xid, 0, 1, c + rest);
            coding::lemma_take_bytes(k, rest);
        },
        RecordView::Commit(ct, m) => {
            let (a, b) = (coding::le_bytes(1, 4), coding::le_bytes(0, 4));
            let (c, d) = (coding::le_bytes(ct.0 as nat, 8), coding::le_bytes(m.0 as nat, 8));
            lemma_assoc(a, b + (c + d), rest);
            lemma_assoc(b, c + d, rest);
            lemma_assoc(c, d, rest);
            lemma_heads(xid, 1, 0, c + (d + rest));
            coding::lemma_take_number(ct.0 as nat, 8, d + rest);
            coding::lemma_take_number(m.0 as nat, 8, rest);
        },
        RecordView::Abort => {
            let (a, b) = (coding::le_bytes(1, 4), coding::le_bytes(1, 4));
            lemma_assoc(a, b, rest);
            lemma_heads(xid, 1, 1, rest);
        },
        RecordView::Checkpoint(m, p, n, ls) => {
            let (a, b) = (coding::le_bytes(2, 4), coding::le_bytes(0, 4));
            let (c, d) = (coding::le_bytes(m.0 as nat, 8), coding::le_bytes(p as nat, 8));
            let (f, g) = (coding::le_bytes(n as nat, 8), coding::le_bytes(ls.len(), 8));
            let h = levels_encoding(ls);
            lemma_assoc(a, b + (c + (d + (f + (g + h)))), rest);
            lemma_assoc(b, c + (d + (f + (g + h))), rest);
            lemma_assoc(c, d + (f + (g + h)), rest);
            lemma_assoc(d, f + (g + h), rest);
            lemma_assoc(f, g + h, rest);
            lemma_assoc(g, h, rest);
            lemma_heads(xid, 2, 0, c + (d + (f + (g + (h + rest)))));
            lemma_take_checkpoint(m, p, n, ls, rest);
        },
    }
}

proof fn lemma_assoc(a: Seq<u8>, b: Seq<u8>, c: Seq<u8>)
    ensures
        (a + b) + c == a + (b + c),
{
    assert((a + b) + c =~= a + (b + c));
}

fn write_meta(buf: &mut Vec<u8>, m: &TableFileMeta)
    ensures
        final(buf)@ == old(buf)@ + meta_encoding(m@),
        meta_fits(m@),
{
    write_u64_le(buf, m.file_ref.0 as u64);
    write_u64_le(buf, m.file_ref.1 as u64);
    write_u64_le(buf, m.size as u64);
    write_u64_le(buf, m.min_xip.0);
    write_bytes(buf, m.infimum.as_slice());
    write_bytes(buf, m.supremum.as_slice());
    buf.push(
        if m.being_compacted {
            1u8
        } else {
            0u8
        },
    );
    proof {
        reveal(meta_encoding);
        assert(buf@ =~= old(buf)@ + meta_encoding(m@));
    }
}

fn write_level(buf: &mut Vec<u8>, files: &Vec<TableFileMeta>)
    ensures
        final(buf)@ == old(buf)@ + level_encoding(table::level_view(files@)),
        files@.len() <= u64::MAX,
        forall|i: int| 0 <= i < files@.len() ==> meta_fits((#[trigger] files@[i])@),
{
    let n: usize = files.len();
    write_u64_le(buf, n as u64);
    let ghost all = table::level_view(files@);
    let ghost whole = buf@ + metas_encoding(all);
    let mut i: usize = 0;
    proof {
        assert(all.skip(0) =~= all);
    }
    while i < n
        invariant
            i <= n,
            n == files@.len(),
            all == table::level_view(files@),
            whole == buf@ + metas_encoding(all.skip(i as int)),
            forall|j: int| 0 <= j < i ==> meta_fits((#[trigger] files@[j])@),
        decreases n - i,
    {
        let ghost before = buf@;
        write_meta(buf, &files[i]);
        proof {
            assert(all.skip(i as int)[0] == files@[i as int]@);
            assert(all.skip(i as int).drop_first() =~= all.skip(i + 1));
            assert(before + (meta_encoding(all.skip(i as int)[0]) + metas_encoding(
                all.skip(i + 1),
            )) =~= buf@ + metas_encoding(all.skip(i + 1)));
        }
        i = i + 1;
    }
    proof {
        assert(all.skip(n as int).len() == 0);
        assert(buf@ =~= old(buf)@ + level_encoding(all));
    }
}

fn write_levels(buf: &mut Vec<u8>, levels: &Vec<Vec<TableFileMeta>>)
    ensures
        final(buf)@ == old(buf)@ + coding::le_bytes(levels@.len(), 8) + levels_encoding(
            table::file_set_view(levels@),
        ),
        levels@.len() <= u64::MAX,
        forall|i: int| 0 <= i < levels@.len() ==> (#[trigger] levels@[i])@.len() <= u64::MAX,
        forall|i: int, j: int|
            0 <= i < levels@.len() && 0 <= j < levels@[i]@.len() ==> meta_fits(
                (#[trigger] levels@[i]@[j])@,
            ),
{
    let n: usize = levels.len();
    write_u64_le(buf, n as u64);
    let ghost all = table::file_set_view(levels@);
    let ghost whole = buf@ + levels_encoding(all);
    let mut i: usize = 0;
    proof {
        assert(all.skip(0) =~= all);
    }
    while i < n
        invariant
            i <= n,
            n == levels@.len(),
            all == table::file_set_view(levels@),
            whole == buf@ + levels_encoding(all.skip(i as int)),
            forall|k: int| 0 <= k < i ==> (#[trigger] levels@[k])@.len() <= u64::MAX,
            forall|k: int, j: int|
                0 <= k < i && 0 <= j < levels@[k]@.len() ==> meta_fits(
                    (#[trigger] levels@[k]@[j])@,
                ),
        decreases n - i,
    {
        let ghost before = buf@;
        write_level(buf, &levels[i]);
        proof {
            assert(all.skip(i as int)[0] == table::level_view(levels@[i as int]@));
            assert(all.skip(i as int).drop_first() =~= all.skip(i + 1));
            assert(before + (level_encoding(all.skip(i as int)[0]) + levels_encoding(
                all.skip(i + 1),
            )) =~= buf@ + levels_encoding(all.skip(i + 1)));
        }
        i = i + 1;
    }
    proof {
        assert(all.skip(n as int).len() == 0);
        assert(buf@ =~= old(buf)@ + coding::le_bytes(levels@.len(), 8) + levels_encoding(all));
    }
}

/// The bytes of a record and the transaction that it belongs to.
pub fn encode_record(xid: Timestamp, record: &LogRecord) -> (r: Vec<u8>)
    ensures
        r@ == full_encoding(xid, record@),
        record_fits(record@),
        r@.len() >= 16,
{
    let mut buf: Vec<u8> = Vec::new();
    write_u64_le(&mut buf, xid.0);
    proof {
        coding::lemma_le_bytes_len(xid.0 as nat, 8);
        coding::lemma_le_bytes_len(0, 4);
        coding::lemma_le_bytes_len(1, 4);
        coding::lemma_le_bytes_len(2, 4);
    }
    match record {
        LogRecord::MemTable(MemTableLogRecord::Put(p)) => {
            write_u32_le(&mut buf, 0);
            write_u32_le(&mut buf, 0);
            write_bytes(&mut buf, p.key.as_slice());
            write_bytes(&mut buf, p.value.as_slice());
        },
        LogRecord::MemTable(MemTableLogRecord::Delete(d)) => {
            write_u32_le(&mut buf, 0);
            write_u32_le(&mut buf, 1);
            write_bytes(&mut buf, d.key.as_slice());
        },
        LogRecord::Transaction(TransactionLogRecord::Commit(c)) => {
            write_u32_le(&mut buf, 1);
            write_u32_le(&mut buf, 0);
            write_u64_le(&mut buf, c.commit_ts.0);
            write_u64_le(&mut buf, c.min_xip.0);
        },
        LogRecord::Transaction(TransactionLogRecord::Abort) => {
            write_u32_le(&mut buf, 1);
            write_u32_le(&mut buf, 1);
        },
        LogRecord::Wal(WalLogRecord::Checkpoint(c)) => {
            write_u32_le(&mut buf, 2);
            write_u32_le(&mut buf, 0);
            write_u64_le(&mut buf, c.min_xip.0);
            write_u64_le(&mut buf, c.min_recovery_point);
            write_u64_le(&mut buf, c.next_file_num as u64);
            write_levels(&mut buf, &c.file_set);
            proof {
                let ls = table::file_set_view(c.file_set@);
                assert forall|i: int, j: int| 0 <= i < ls.len() && 0 <= j < ls[i].len() implies
                    meta_fits(#[trigger] ls[i][j]) by {
                    assert(ls[i][j] == c.file_set@[i]@[j]@);
                }
                assert forall|i: int| 0 <= i < ls.len() implies (#[trigger] ls[i]).len()
                    <= u64::MAX by {
                    assert(ls[i].len() == c.file_set@[i]@.len());
                }
            }
        },
    }
    proof {
        assert(buf@ =~= full_encoding(xid, record@));
    }
    buf
}

fn read_word(reader: &mut ByteReader) -> (r: Option<usize>)
    requires
        old(reader).wf(),
    ensures
        final(reader).wf(),
        match r {
            Some(n) => take_word(old(reader).rest()) == Some((n as nat, final(reader).rest())),
            None => take_word(old(reader).rest()) is None,
        },
{
    match reader.u64() {
        Some(n) => if n <= usize::MAX as u64 {
            Some(n as usize)
        } else {
            None
        },
        None => None,
    }
}

fn read_meta(reader: &mut ByteReader) -> (r: Option<TableFileMeta>)
    requires
        old(reader).wf(),
    ensures
        final(reader).wf(),
        match r {
            Some(m) => take_meta(old(reader).rest()) == Some((m@, final(reader).rest())),
            None => take_meta(old(reader).rest()) is None,
        },
        r is Some ==> final(reader).rest().len() < old(reader).rest().len(),
{
    proof {
        reveal(take_meta);
    }
    let path_id = match read_word(reader) {
        Some(n) => n,
        None => {
            return None;
        },
    };
    let seqnum = match read_word(reader) {
        Some(n) => n,
        None => {
            return None;
        },
    };
    let size = match read_word(reader) {
        Some(n) => n,
        None => {
            return None;
        },
    };
    let min_xip = match reader.u64() {
        Some(n) => n,
        None => {
            return None;
        },
    };
    let infimum = match reader.bytes() {
        Some(b) => b,
        None => {
            return None;
        },
    };
    let supremum = match reader.bytes() {
        Some(b) => b,
        None => {
            return None;
        },
    };
    let flag = match reader.byte() {
        Some(b) => b,
        None => {
            return None;
        },
    };
    if flag > 1 {
        return None;
    }
    Some(
        TableFileMeta {
            file_ref: TableFileRef(path_id, seqnum),
            size,
            min_xip: Timestamp(min_xip),
            infimum,
            supremum,
            being_compacted: flag == 1,
        },
    )
}

fn read_level(reader: &mut ByteReader) -> (r: Option<Vec<TableFileMeta>>)
    requires
        old(reader).wf(),
    ensures
        final(reader).wf(),
        match r {
            Some(l) => take_level(old(reader).rest()) == Some(
                (table::level_view(l@), final(reader).rest()),
            ),
            None => take_level(old(reader).rest()) is None,
        },
{
    let n: u64 = match reader.u64() {
        Some(n) => n,
        None => {
            return None;
        },
    };
    let ghost start = reader.rest();
    let mut files: Vec<TableFileMeta> = Vec::new();
    let mut i: u64 = 0;
    proof {
        assert(table::level_view(files@) =~= Seq::empty());
        match take_metas(start, n as nat) {
            Some((ms, _)) => {
                assert(table::level_view(files@) + ms =~= ms);
            },
            None => {},
        }
    }
    while i < n
        invariant
            i <= n,
            reader.wf(),
            take_level(old(reader).rest()) == take_metas(start, n as nat),
            match take_metas(reader.rest(), (n - i) as nat) {
                None => take_metas(start, n as nat) is None,
                Some((ms, end)) => take_metas(start, n as nat) == Some(
                    (table::level_view(files@) + ms, end),
                ),
            },
        decreases n - i,
    {
        let ghost before = reader.rest();
        let ghost done = table::level_view(files@);
        match read_meta(reader) {
            Some(m) => {
                files.push(m);
                proof {
                    assert(table::level_view(files@) =~= done.push(m@));
                    match take_metas(reader.rest(), (n - i - 1) as nat) {
                        Some((ms, end)) => {
                            assert(done + (seq![m@] + ms) =~= done.push(m@) + ms);
                        },
                        None => {},
                    }
                }
            },
            None => {
                return None;
            },
        }
        i = i + 1;
    }
    proof {
        assert(table::level_view(files@) + Seq::<FileMeta>::empty() =~= table::level_view(files@));
    }
    Some(files)
}

fn read_levels(reader: &mut ByteReader, n: u64) -> (r: Option<Vec<Vec<TableFileMeta>>>)
    requires
        old(reader).wf(),
    ensures
        final(reader).wf(),
        match r {
            Some(l) => take_levels(old(reader).rest(), n as nat) == Some(
                (table::file_set_view(l@), final(reader).rest()),
            ),
            None => take_levels(old(reader).rest(), n as nat) is None,
        },
{
    let ghost start = reader.rest();
    let mut levels: Vec<Vec<TableFileMeta>> = Vec::new();
    let mut i: u64 = 0;
    proof {
        assert(table::file_set_view(levels@) =~= Seq::empty());
        match take_levels(start, n as nat) {
            Some((ls, _)) => {
                assert(table::file_set_view(levels@) + ls =~= ls);
            },
            None => {},
        }
    }
    while i < n
        invariant
            i <= n,
            reader.wf(),
            start == old(reader).rest(),
            match take_levels(reader.rest(), (n - i) as nat) {
                None => take_levels(start, n as nat) is None,
                Some((ls, end)) => take_levels(start, n as nat) == Some(
                    (table::file_set_view(levels@) + ls, end),
                ),
            },
        decreases n - i,
    {
        let ghost done = table::file_set_view(levels@);
        match read_level(reader) {
            Some(l) => {
                let ghost lv = table::level_view(l@);
                levels.push(l);
                proof {
                    assert(table::file_set_view(levels@) =~= done.push(lv));
                    match take_levels(reader.rest(), (n - i - 1) as nat) {
                        Some((ls, end)) => {
                            assert(done + (seq![lv] + ls) =~= done.push(lv) + ls);
                        },
                        None => {},
                    }
                }
            },
            None => {
                return None;
            },
        }
        i = i + 1;
    }
    proof {
        assert(table::file_set_view(levels@) + Seq::<Seq<FileMeta>>::empty()
            =~= table::file_set_view(levels@));
    }
    Some(levels)
}

fn read_checkpoint(reader: &mut ByteReader) -> (r: Option<LogRecord>)
    requires
        old(reader).wf(),
    ensures
        match r {
            Some(rec) => take_checkpoint(old(reader).rest()) == Some(rec@),
            None => take_checkpoint(old(reader).rest()) is None,
        },
{
    let min_xip = match reader.u64() {
        Some(n) => n,
        None => {
            return None;
        },
    };
    let min_recovery_point = match reader.u64() {
        Some(n) => n,
        None => {
            return None;
        },
    };
    let next_file_num = match read_word(reader) {
        Some(n) => n,
        None => {
            return None;
        },
    };
    let n = match reader.u64() {
        Some(n) => n,
        None => {
            return None;
        },
    };
    match read_levels(reader, n) {
        Some(file_set) => Some(
            WalLogRecord::create_checkpoint_log(
                Timestamp(min_xip),
                min_recovery_point,
                next_file_num,
                file_set,
            ),
        ),
        None => None,
    }
}

fn read_payload(kind: u32, sub: u32, reader: &mut ByteReader) -> (r: Option<LogRecord>)
    requires
        old(reader).wf(),
    ensures
        match r {
            Some(rec) => take_payload(kind as nat, sub as nat, old(reader).rest()) == Some(rec@),
            None => take_payload(kind as nat, sub as nat, old(reader).rest()) is None,
        },
{
    if kind == 0 && sub == 0 {
        let key = match reader.bytes() {
            Some(b) => b,
            None => {
                return None;
            },
        };
        let value = match reader.bytes() {
            Some(b) => b,
            None => {
                return None;
            },
        };
        Some(LogRecord::MemTable(MemTableLogRecord::Put(PutLog { key, value })))
    } else if kind == 0 && sub == 1 {
        let key = match reader.bytes() {
            Some(b) => b,
            None => {
                return None;
            },
        };
        Some(LogRecord::MemTable(MemTableLogRecord::Delete(DeleteLog { key })))
    } else if kind == 1 && sub == 0 {
        let commit_ts = match reader.u64() {
            Some(n) => n,
            None => {
                return None;
            },
        };
        let min_xip = match reader.u64() {
            Some(n) => n,
            None => {
                return None;
            },
        };
        Some(
            LogRecord::Transaction(
                TransactionLogRecord::Commit(
                    TxnCommitLog { commit_ts: Timestamp(commit_ts), min_xip: Timestamp(min_xip) },
                ),
            ),
        )
    } else if kind == 1 && sub == 1 {
        Some(LogRecord::Transaction(TransactionLogRecord::Abort))
    } else if kind == 2 && sub == 0 {
        read_checkpoint(reader)
    } else {
        None
    }
}

/// The transaction and the record that the bytes hold.
pub fn decode_record(buf: &[u8]) -> (r: Option<(Timestamp, LogRecord)>)
    ensures
        match r {
            Some((xid, record)) => full_decoding(buf@) == Some((xid, record@)),
            None => full_decoding(buf@) is None,
        },
{
    let mut reader = ByteReader::new(buf);
    let xid = match reader.u64() {
        Some(n) => n,
        None => {
            return None;
        },
    };
    let kind = match reader.u32() {
        Some(n) => n,
        None => {
            return None;
        },
    };
    let sub = match reader.u32() {
        Some(n) => n,
        None => {
            return None;
        },
    };
    match read_payload(kind, sub, &mut reader) {
        Some(record) => Some((Timestamp(xid), record)),
        None => None,
    }
}

} // verus!

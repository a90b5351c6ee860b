//! What a store commits, aborts and notes is in the files of its log, once what it hands out for
//! them was put at their ends.
use crate::coding;
use crate::db::DbView;
use crate::key::KeyOrder;
use crate::table::TableStore;
use crate::transaction::{Timestamp, Transaction};
use crate::version::EditView;
use crate::wal::checkpoint::ManifestTime;
use crate::wal::files;
use crate::wal::log_record;
use crate::wal::log_record::RecordView;
use crate::wal::segment::LogPointer;
use crate::wal::Wal;
use vstd::prelude::*;

verus! {

/// Committing a transaction leaves the files of the log right and loses nothing that was logged.
pub proof fn lemma_commit_keeps_log<S: TableStore>(
    before: DbView<S>,
    after: DbView<S>,
    txn: Transaction,
    log: Map<u32, Seq<u8>>,
)
    requires
        before.wal.written_to(log),
        after.committed_from(before, txn),
    ensures
        after.wal.written_to(log),
        after.wal.keeps(before.wal),
{
    if txn.readonly() {
        after.wal.lemma_keeps_itself();
    } else {
        let records = before.txnmgr.commit_records(txn);
        let mid = choose|mid: Wal| #[trigger]
            mid.appended_all(before.wal, records) && after.wal.flushed_from(mid);
        mid.lemma_appended_all_files(before.wal, records, log);
        after.wal.lemma_flushed_files(mid, log);
        mid.lemma_appended_all_keeps(before.wal, records);
        after.wal.lemma_flushed_keeps(mid);
        after.wal.lemma_keeps(mid, before.wal);
    }
}

/// Aborting a transaction leaves the files of the log right and loses nothing that was logged.
pub proof fn lemma_abort_keeps_log<S: TableStore>(
    before: DbView<S>,
    after: DbView<S>,
    txn: Transaction,
    log: Map<u32, Seq<u8>>,
)
    requires
        before.wal.written_to(log),
        after.aborted_from(before, txn),
    ensures
        after.wal.written_to(log),
        after.wal.keeps(before.wal),
{
    let bytes = log_record::full_encoding(txn.start(), RecordView::Abort);
    let pos = choose|pos: nat| #[trigger] after.wal.logged_from(before.wal, bytes, pos);
    after.wal.lemma_logged_files(before.wal, bytes, pos, log);
    after.wal.lemma_logged_keeps(before.wal, bytes, pos);
}

/// Applying an edit leaves the files of the log right and loses nothing that was logged.
pub proof fn lemma_applied_keeps_log<O: KeyOrder, S: TableStore>(
    before: DbView<S>,
    after: DbView<S>,
    edit: EditView,
    point: LogPointer,
    written: ManifestTime,
    log: Map<u32, Seq<u8>>,
)
    requires
        before.wal.written_to(log),
        after.applied_from::<O>(before, edit, point, written),
    ensures
        after.wal.written_to(log),
        after.wal.keeps(before.wal),
{
    let bytes = log_record::full_encoding(
        Timestamp(0),
        before.vset.checkpoint_record::<O>(edit, point),
    );
    let pos = after.manifest.last_checkpoint_pos as nat;
    after.wal.lemma_logged_files(before.wal, bytes, pos, log);
    after.wal.lemma_logged_keeps(before.wal, bytes, pos);
}

/// The manifest after an edit was applied says where the last checkpoint before it stands, what the
/// edit tells of the oldest transaction in progress, if it does, and when it was written. The state
/// stays, and the checkpoint is appended at the place that the manifest gives, wherever in the log the
/// next record goes.
pub proof fn lemma_applied_manifest<O: KeyOrder, S: TableStore>(
    before: DbView<S>,
    after: DbView<S>,
    edit: EditView,
    point: LogPointer,
    written: ManifestTime,
)
    requires
        before.wal.wf(),
        after.applied_from::<O>(before, edit, point, written),
    ensures
        after.manifest.prev_checkpoint_pos == before.manifest.last_checkpoint_pos,
        after.manifest.db_state == before.manifest.db_state,
        after.manifest.time == written,
        edit.min_xip matches Some(t) ==> after.manifest.min_xip == t && after.vset.flushed_xip()
            == t,
        edit.min_xip is None ==> after.manifest.min_xip == before.vset.flushed_xip()
            && after.vset.flushed_xip() == before.vset.flushed_xip(),
        after.vset.recovery_point() == point,
        after.vset.next_file() == before.vset.next_file(),
        exists|turned: Wal| #[trigger]
            turned.turned_from(
                before.wal,
                log_record::full_encoding(
                    Timestamp(0),
                    RecordView::Checkpoint(
                        after.vset.flushed_xip(),
                        point,
                        before.vset.next_file() as usize,
                        after.vset.files(),
                    ),
                ).len(),
            ) && after.manifest.last_checkpoint_pos == (turned.tail().number() - 1)
                * turned.tail().size() + turned.tail().position(),
{
    let bytes = log_record::full_encoding(
        Timestamp(0),
        before.vset.checkpoint_record::<O>(edit, point),
    );
    let pos = after.manifest.last_checkpoint_pos as nat;
    let (turned, mid) = choose|turned: Wal, mid: Wal| #[trigger]
        turned.turned_from(before.wal, bytes.len()) && mid.appended_to(turned, bytes)
            && #[trigger] after.wal.flushed_from(mid) && pos == turned.tail().log_start()
            + turned.tail().position();
    before.wal.lemma_tail();
    let n = turned.tail().number() as int;
    let c = turned.tail().size() as int;
    assert((n - 1) * c >= 0) by (nonlinear_arith)
        requires
            n >= 1,
            c >= 0,
    ;
    assert(turned.turned_from(before.wal, bytes.len()));
}

/// When the output of the log is taken out after an edit was applied, and put at the ends of the
/// files, these hold all that was appended, and so the checkpoint.
pub proof fn lemma_applied_is_held<O: KeyOrder, S: TableStore>(
    before: DbView<S>,
    after: DbView<S>,
    edit: EditView,
    point: LogPointer,
    written: ManifestTime,
    taken: DbView<S>,
    pieces: Seq<(u32, Seq<u8>)>,
    log: Map<u32, Seq<u8>>,
)
    requires
        before.wal.written_to(log),
        after.applied_from::<O>(before, edit, point, written),
        taken.wf::<O>(),
        taken.wal.taken_from(after.wal, pieces),
    ensures
        taken.wal.written_to(files::put_at_ends(log, pieces)),
        taken.wal.held_by(files::put_at_ends(log, pieces)),
        taken.wal.keeps(after.wal),
{
    after.wal.lemma_logged_is_held(
        before.wal,
        log_record::full_encoding(
            Timestamp(0),
            before.vset.checkpoint_record::<O>(edit, point),
        ),
        after.manifest.last_checkpoint_pos as nat,
        taken.wal,
        pieces,
        log,
    );
}

/// What a transaction wrote and that it committed is in the files of the log, once the output is
/// taken out and put at their ends: each of its records is read from where it was appended. Left
/// out are records that were written with one byte left in a page.
pub proof fn lemma_commit_is_logged<O: KeyOrder, S: TableStore>(
    before: DbView<S>,
    after: DbView<S>,
    txn: Transaction,
    i: int,
    taken: DbView<S>,
    pieces: Seq<(u32, Seq<u8>)>,
    log: Map<u32, Seq<u8>>,
)
    requires
        before.wf::<O>(),
        before.wal.written_to(log),
        after.committed_from(before, txn),
        !txn.readonly(),
        taken.wf::<O>(),
        taken.wal.taken_from(after.wal, pieces),
        0 <= i < before.txnmgr.commit_records(txn).len(),
        before.txnmgr.commit_records(txn)[i].len() > 0,
    ensures
        taken.wal.written_to(files::put_at_ends(log, pieces)),
        taken.wal.held_by(files::put_at_ends(log, pieces)),
        exists|at: Wal| #[trigger]
            at.takes_record(before.wal, before.txnmgr.commit_records(txn), i) && at.found_in(
                files::put_at_ends(log, pieces),
                before.txnmgr.commit_records(txn)[i],
            ),
{
    let records = before.txnmgr.commit_records(txn);
    let mid = choose|mid: Wal| #[trigger]
        mid.appended_all(before.wal, records) && after.wal.flushed_from(mid);
    after.wal.lemma_appended_all_is_held(before.wal, mid, records, taken.wal, pieces, log);
    mid.lemma_appended_all_is_found(
        before.wal,
        records,
        i,
        taken.wal,
        files::put_at_ends(log, pieces),
    );
}

/// That a transaction was aborted is in the files of the log, once the output is taken out and put
/// at their ends. Left out is a record that was written with one byte left in a page.
pub proof fn lemma_abort_is_logged<O: KeyOrder, S: TableStore>(
    before: DbView<S>,
    after: DbView<S>,
    txn: Transaction,
    taken: DbView<S>,
    pieces: Seq<(u32, Seq<u8>)>,
    log: Map<u32, Seq<u8>>,
)
    requires
        before.wf::<O>(),
        before.wal.written_to(log),
        after.aborted_from(before, txn),
        taken.wf::<O>(),
        taken.wal.taken_from(after.wal, pieces),
    ensures
        taken.wal.written_to(files::put_at_ends(log, pieces)),
        taken.wal.held_by(files::put_at_ends(log, pieces)),
        exists|pos: nat| #[trigger]
            after.wal.logged_from(
                before.wal,
                log_record::full_encoding(txn.start(), RecordView::Abort),
                pos,
            ) && (pos % 0x10000 != 0xffff ==> files::read_at(
                files::put_at_ends(log, pieces),
                before.wal.segment_size(),
                pos,
                log_record::full_encoding(txn.start(), RecordView::Abort),
            )),
{
    let bytes = log_record::full_encoding(txn.start(), RecordView::Abort);
    let pos = choose|pos: nat| #[trigger] after.wal.logged_from(before.wal, bytes, pos);
    let now = files::put_at_ends(log, pieces);
    assert(bytes.len() > 0) by {
        coding::lemma_le_bytes_len(txn.start().0 as nat, 8);
    }
    after.wal.lemma_logged_is_held(before.wal, bytes, pos, taken.wal, pieces, log);
    if pos % 0x10000 != 0xffff {
        after.wal.lemma_logged_is_found(before.wal, bytes, pos, taken.wal, now);
    }
}

} // verus!

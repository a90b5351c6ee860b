//! When flushes and compactions are scheduled.
use crate::db::{DbView, Job};
use crate::key::KeyOrder;
use crate::storage::RedoView;
use crate::table::TableStore;
use crate::transaction::Transaction;
use crate::version::compaction;
use crate::version::picking;
use crate::version::EditView;
use crate::wal::checkpoint::ManifestTime;
use crate::wal::segment::LogPointer;
use vstd::arithmetic::power;
use vstd::prelude::*;

verus! {

/// When more keys than the write buffer has room for were added to the memory table since the last
/// flush was due, another one is due, and the last of the jobs is a flush unless as many are
/// running as are allowed. Else no job is added. Nothing else changes but the counts.
pub proof fn lemma_flush_is_scheduled<S: TableStore>(db: DbView<S>)
    ensures
        ({
            let after = db.flush_scheduled();
            let full = db.memory.dom().len() > db.last_flush_size + db.options.write_buffer_size;
            &&& full && db.flushing_threads < db.options.max_background_flushes ==> {
                &&& after.jobs.len() == db.jobs.len() + 1
                &&& after.jobs.last() == Job::Flush
                &&& after.jobs.drop_last() == db.jobs
                &&& after.flushing_threads == db.flushing_threads + 1
            }
            &&& !full || db.flushing_threads >= db.options.max_background_flushes ==> {
                &&& after.jobs == db.jobs
                &&& after.flushing_threads == db.flushing_threads
            }
            &&& full ==> after.last_flush_size == db.memory.dom().len()
            &&& !full ==> after.last_flush_size == db.last_flush_size
            &&& after == (DbView {
                last_flush_size: after.last_flush_size,
                flushing_threads: after.flushing_threads,
                jobs: after.jobs,
                ..db
            })
        }),
{
    let after = db.flush_scheduled();
    if after.jobs != db.jobs {
        assert(after.jobs.drop_last() =~= db.jobs);
    }
}

/// Once a flush was scheduled if one was due, the memory table has no more keys than the write
/// buffer has room for beyond what it had when the last one was due.
pub proof fn lemma_none_due_after<S: TableStore>(db: DbView<S>)
    ensures
        db.flush_scheduled().memory.dom().len() <= db.flush_scheduled().last_flush_size
            + db.options.write_buffer_size,
        db.flush_scheduled().flush_scheduled() == db.flush_scheduled(),
{
}

/// A flush that is due stays so while the memory table grows.
pub proof fn lemma_due_stays<S: TableStore>(db: DbView<S>, later: DbView<S>)
    requires
        db.flush_due(),
        later.memory.dom().len() >= db.memory.dom().len(),
        later.last_flush_size == db.last_flush_size,
        later.options == db.options,
    ensures
        later.flush_due(),
{
}

/// A write to a store that is full leaves a flush as the last job, unless as many are running as
/// are allowed.
pub proof fn lemma_write_schedules_flush<S: TableStore>(
    before: DbView<S>,
    after: DbView<S>,
    key: Seq<u8>,
    chain: Seq<RedoView>,
)
    requires
        after == before.flush_scheduled().with_chain(key, chain),
        before.memory.dom().len() > before.last_flush_size + before.options.write_buffer_size,
        before.flushing_threads < before.options.max_background_flushes,
    ensures
        after.jobs.len() == before.jobs.len() + 1,
        after.jobs.last() == Job::Flush,
        after.memory == before.memory.insert(key, chain),
{
}

/// So does an update.
pub proof fn lemma_update_schedules_flush<S: TableStore, F: Fn(&Vec<u8>) -> Vec<u8>>(
    before: DbView<S>,
    after: DbView<S>,
    txn: Transaction,
    now: Transaction,
    key: Seq<u8>,
    seen: Seq<u8>,
    f: F,
)
    requires
        before.flush_scheduled().updated_to(after, txn, now, key, seen, f),
        before.memory.dom().len() > before.last_flush_size + before.options.write_buffer_size,
        before.flushing_threads < before.options.max_background_flushes,
    ensures
        after.jobs.len() == before.jobs.len() + 1,
        after.jobs.last() == Job::Flush,
{
}

/// A compaction is scheduled unless as many are running as are allowed, and nothing else changes.
pub proof fn lemma_compaction_is_scheduled<S: TableStore>(db: DbView<S>)
    ensures
        ({
            let after = db.compaction_scheduled();
            &&& db.running_compactions < db.options.max_background_compactions ==> {
                &&& after.jobs.len() == db.jobs.len() + 1
                &&& after.jobs.last() == Job::Compaction
                &&& after.jobs.drop_last() == db.jobs
                &&& after.running_compactions == db.running_compactions + 1
            }
            &&& db.running_compactions >= db.options.max_background_compactions ==> after == db
            &&& after == (DbView {
                running_compactions: after.running_compactions,
                jobs: after.jobs,
                ..db
            })
        }),
{
    let after = db.compaction_scheduled();
    if after.jobs != db.jobs {
        assert(after.jobs.drop_last() =~= db.jobs);
    }
}

/// Once an edit was applied, a level behind the first that is not the last one is due to be
/// compacted exactly where its files that are not being compacted are together at least as large
/// as the base times as many multipliers as its number says, and not empty. The first level is due
/// by the number of such files, the last one never.
pub proof fn lemma_applied_scores<O: KeyOrder, S: TableStore>(
    before: DbView<S>,
    after: DbView<S>,
    edit: EditView,
    point: LogPointer,
    now: ManifestTime,
    l: int,
)
    requires
        after.applied_from::<O>(before, edit, point, now),
        compaction::sizes_fit(after.vset.files(), before.options),
        0 <= l < after.vset.files().len(),
        after.vset.files()[0].len() <= usize::MAX,
    ensures
        ({
            let levels = after.vset.files();
            let opt = before.options;
            let free = picking::idle(levels[l]);
            after.vset.version().scores()[l].due() <==> {
                &&& l < levels.len() - 1
                &&& l == 0 ==> free.len() >= 1 && free.len()
                    >= opt.level0_file_num_compaction_trigger
                &&& l > 0 ==> picking::total_size(free) >= 1 && picking::total_size(free)
                    >= opt.max_bytes_for_level_base * power::pow(
                    opt.max_bytes_for_level_multiplier as int,
                    l as nat,
                )
            }
        }),
{
    picking::lemma_scores_due(
        after.vset.files(),
        before.options,
        after.vset.version().scores(),
        l,
    );
}

} // verus!

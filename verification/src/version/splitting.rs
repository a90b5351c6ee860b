//! Where the output of a compaction is split into files.
use crate::options::DbOptions;
use crate::table::block_table;
use crate::table::block_table::BlockTableFactory;
use crate::table::{FileMeta, TableFileRef};
use crate::version::contents;
use crate::version::outputs;
use vstd::arithmetic::power;
use vstd::prelude::*;

verus! {

/// A file of a level may be as large as the base times as many multipliers as the number of the
/// level says, and a level as large as its own base times as many of its own multipliers.
pub proof fn lemma_limits(opt: DbOptions, level: nat)
    ensures
        opt.max_file_size(level) == opt.target_file_size_base * power::pow(
            opt.target_file_size_multiplier as int,
            level,
        ),
        opt.max_bytes(level) == opt.max_bytes_for_level_base * power::pow(
            opt.max_bytes_for_level_multiplier as int,
            level,
        ),
{
}

/// Files are closed as soon as they are too large: with its last entry each of them but the last
/// one is larger than the limit, and has at least two; without that entry, if that leaves two, it
/// is not.
pub proof fn lemma_split(
    factory: BlockTableFactory,
    files: Map<TableFileRef, Seq<u8>>,
    outs: Seq<FileMeta>,
    limit: int,
    i: int,
    n: int,
)
    requires
        outputs::split_at(factory, files, outs, limit),
        0 <= i < outs.len(),
    ensures
        ({
            let entries = contents::entries_in(files, outs[i]);
            &&& i < outs.len() - 1 ==> entries.len() >= 2 && block_table::built_size(
                factory.table_options(),
                entries,
            ) > limit
            &&& 2 <= n < entries.len() ==> block_table::built_size(
                factory.table_options(),
                entries.take(n),
            ) <= limit
        }),
{
    assert(outputs::one_file(factory, contents::entries_in(files, outs[i]), limit));
}

/// Files that are too large are closed: where no file is but the last, there is one file only for
/// entries of which all but the last are not too large together.
pub proof fn lemma_one_file_is_enough(
    factory: BlockTableFactory,
    files: Map<TableFileRef, Seq<u8>>,
    outs: Seq<FileMeta>,
    limit: int,
)
    requires
        outputs::split_at(factory, files, outs, limit),
        forall|i: int|
            0 <= i < outs.len() ==> block_table::built_size(
                factory.table_options(),
                contents::entries_in(files, #[trigger] outs[i]),
            ) <= limit,
    ensures
        outs.len() <= 1,
{
    if outs.len() > 1 {
        lemma_split(factory, files, outs, limit, 0, 0);
        assert(block_table::built_size(
            factory.table_options(),
            contents::entries_in(files, outs[0]),
        ) <= limit);
    }
}

/// The files that a compaction writes are numbered one after the other, each has the first and the
/// last key of its table as its bounds and the number of its bytes as its size, and none is being
/// compacted.
pub proof fn lemma_written(
    files: Map<TableFileRef, Seq<u8>>,
    outs: Seq<FileMeta>,
    first: nat,
    i: int,
)
    requires
        outputs::written_files(files, outs, first),
        0 <= i < outs.len(),
        first + outs.len() <= usize::MAX,
    ensures
        ({
            let f = outs[i];
            let entries = contents::entries_in(files, f);
            &&& f.file_ref.0 == 0
            &&& f.file_ref.1 == first + i
            &&& entries.len() > 0
            &&& f.infimum == entries[0].0
            &&& f.supremum == entries[entries.len() - 1].0
            &&& f.size == files[f.file_ref].len()
            &&& f.min_xip.0 == 0
            &&& !f.being_compacted
        }),
{
}

/// The entries of several files are those of the first, and then those of the next, and so on.
pub proof fn lemma_run(files: Map<TableFileRef, Seq<u8>>, outs: Seq<FileMeta>)
    ensures
        outputs::run_entries(files, outs) == outs.map_values(
            |f: FileMeta| contents::entries_in(files, f),
        ).flatten(),
    decreases outs.len(),
{
    let parts = outs.map_values(|f: FileMeta| contents::entries_in(files, f));
    if outs.len() == 0 {
        reveal(Seq::flatten);
        assert(parts.flatten() =~= outputs::run_entries(files, outs));
    } else {
        let init = outs.drop_last();
        lemma_run(files, init);
        let before = init.map_values(|f: FileMeta| contents::entries_in(files, f));
        assert(parts =~= before.push(parts.last()));
        crate::table::table_rules::lemma_flatten_push(before, parts.last());
    }
}

} // verus!

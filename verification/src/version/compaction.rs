//! Which files are compacted together.
use crate::key::{KeyOrder};
use crate::options::DbOptions;
use crate::table;
use crate::table::{FileMeta, TableFileMeta, TableFileRef};
use crate::transaction::Timestamp;
use crate::version::builder;
use crate::version::builder::{sort_files, FileOrder};
use crate::version::{CompactionScore, Version};
use vstd::prelude::*;
use vstd::slice::slice_to_vec;

verus! {

/// The number of files that are not being compacted.
pub open spec fn idle_count(files: Seq<FileMeta>) -> nat
    decreases files.len(),
{
    if files.len() == 0 {
        0
    } else {
        idle_count(files.drop_last()) + if files.last().being_compacted {
            0nat
        } else {
            1
        }
    }
}

/// The size of the files that are not being compacted.
pub open spec fn idle_size(files: Seq<FileMeta>) -> nat
    decreases files.len(),
{
    if files.len() == 0 {
        0
    } else {
        idle_size(files.drop_last()) + if files.last().being_compacted {
            0nat
        } else {
            files.last().size as nat
        }
    }
}

/// How much a level needs to be compacted: level 0 by the number of its files, the last level not
/// at all, the others by the size of their files, if they have any.
pub open spec fn level_score(
    levels: Seq<Seq<FileMeta>>,
    opt: DbOptions,
    level: int,
) -> CompactionScore {
    if level == levels.len() - 1 {
        CompactionScore { amount: 0, limit: 1 }
    } else if level == 0 {
        CompactionScore {
            amount: idle_count(levels[level]) as usize,
            limit: if opt.level0_file_num_compaction_trigger > 0 {
                opt.level0_file_num_compaction_trigger
            } else {
                1
            },
        }
    } else {
        CompactionScore {
            amount: idle_size(levels[level]) as usize,
            limit: if opt.max_bytes(level as nat) > 0 {
                opt.max_bytes(level as nat) as usize
            } else {
                1
            },
        }
    }
}

/// Whether the sizes of the levels can be told.
pub open spec fn sizes_fit(levels: Seq<Seq<FileMeta>>, opt: DbOptions) -> bool {
    forall|l: int|
        0 <= l < levels.len() - 1 ==> idle_size(#[trigger] levels[l]) <= usize::MAX
            && opt.level_fits(l as nat)
}

/// The latest of the transactions that files are younger than.
pub open spec fn latest(files: Seq<FileMeta>) -> Timestamp
    recommends
        files.len() > 0,
    decreases files.len(),
{
    if files.len() <= 1 {
        files[0].min_xip
    } else {
        let p = latest(files.drop_last());
        let t = files.last().min_xip;
        if p != t && !p.before(t) {
            p
        } else {
            t
        }
    }
}

/// Whether the keys of a file overlap a range.
pub open spec fn overlaps<O: KeyOrder>(f: FileMeta, infimum: Seq<u8>, supremum: Seq<u8>) -> bool {
    !O::lt(f.supremum, infimum) && !O::lt(supremum, f.infimum)
}

/// Whether a file of level 0 goes with others: it is not younger than the youngest of them, or its
/// keys overlap theirs and it is not being compacted.
pub open spec fn goes_with<O: KeyOrder>(
    f: FileMeta,
    max_ts: Timestamp,
    infimum: Seq<u8>,
    supremum: Seq<u8>,
) -> bool {
    f.min_xip == max_ts || f.min_xip.before(max_ts) || (overlaps::<O>(f, infimum, supremum)
        && !f.being_compacted)
}

/// Where the files at the end of level 0 start that all go with others.
pub open spec fn goes_from<O: KeyOrder>(
    files: Seq<FileMeta>,
    max_ts: Timestamp,
    infimum: Seq<u8>,
    supremum: Seq<u8>,
) -> nat
    decreases files.len(),
{
    if files.len() > 0 && goes_with::<O>(files.last(), max_ts, infimum, supremum) {
        goes_from::<O>(files.drop_last(), max_ts, infimum, supremum)
    } else {
        files.len()
    }
}

/// The files whose keys overlap a range.
pub open spec fn overlapping<O: KeyOrder>(
    files: Seq<FileMeta>,
    infimum: Seq<u8>,
    supremum: Seq<u8>,
) -> Seq<FileMeta>
    decreases files.len(),
{
    if files.len() == 0 {
        files
    } else {
        let init = overlapping::<O>(files.drop_last(), infimum, supremum);
        if overlaps::<O>(files.last(), infimum, supremum) {
            init.push(files.last())
        } else {
            init
        }
    }
}

/// The files of a level that have to be compacted with a selection whose keys are in a range.
pub open spec fn inputs_for<O: KeyOrder>(
    level: nat,
    files: Seq<FileMeta>,
    prev: Seq<FileMeta>,
    infimum: Seq<u8>,
    supremum: Seq<u8>,
) -> Seq<FileMeta> {
    if level == 0 {
        files.skip(goes_from::<O>(files, latest(prev), infimum, supremum) as int)
    } else {
        overlapping::<O>(files, infimum, supremum)
    }
}

/// The smallest key of files.
pub open spec fn least_key<O: KeyOrder>(files: Seq<FileMeta>) -> Seq<u8>
    decreases files.len(),
{
    if files.len() <= 1 {
        files[0].infimum
    } else {
        let p = least_key::<O>(files.drop_last());
        if O::lt(files.last().infimum, p) {
            files.last().infimum
        } else {
            p
        }
    }
}

/// The largest key of files.
pub open spec fn greatest_key<O: KeyOrder>(files: Seq<FileMeta>) -> Seq<u8>
    decreases files.len(),
{
    if files.len() <= 1 {
        files[0].supremum
    } else {
        let p = greatest_key::<O>(files.drop_last());
        if O::lt(p, files.last().supremum) {
            files.last().supremum
        } else {
            p
        }
    }
}

/// The range of the keys of files of a level. The files of all levels but the first are in order.
pub open spec fn range_of<O: KeyOrder>(level: nat, files: Seq<FileMeta>) -> (Seq<u8>, Seq<u8>) {
    if level == 0 {
        (least_key::<O>(files), greatest_key::<O>(files))
    } else {
        (files[0].infimum, files.last().supremum)
    }
}

/// No more files are selected than there are.
pub proof fn lemma_inputs_len<O: KeyOrder>(
    level: nat,
    files: Seq<FileMeta>,
    prev: Seq<FileMeta>,
    infimum: Seq<u8>,
    supremum: Seq<u8>,
)
    ensures
        inputs_for::<O>(level, files, prev, infimum, supremum).len() <= files.len(),
{
    if level == 0 {
        lemma_goes_from::<O>(files, latest(prev), infimum, supremum);
    } else {
        lemma_overlapping_len::<O>(files, infimum, supremum);
    }
}

pub proof fn lemma_goes_from<O: KeyOrder>(
    files: Seq<FileMeta>,
    max_ts: Timestamp,
    infimum: Seq<u8>,
    supremum: Seq<u8>,
)
    ensures
        goes_from::<O>(files, max_ts, infimum, supremum) <= files.len(),
    decreases files.len(),
{
    if files.len() > 0 {
        lemma_goes_from::<O>(files.drop_last(), max_ts, infimum, supremum);
    }
}

proof fn lemma_overlapping_len<O: KeyOrder>(
    files: Seq<FileMeta>,
    infimum: Seq<u8>,
    supremum: Seq<u8>,
)
    ensures
        overlapping::<O>(files, infimum, supremum).len() <= files.len(),
    decreases files.len(),
{
    if files.len() > 0 {
        lemma_overlapping_len::<O>(files.drop_last(), infimum, supremum);
    }
}

/// A selection of files of a level, grown by the files that have to be compacted with it until it
/// grows no more.
pub open spec fn grown<O: KeyOrder>(
    level: nat,
    files: Seq<FileMeta>,
    selection: Seq<FileMeta>,
) -> Seq<FileMeta>
    decreases files.len() - selection.len(),
{
    if selection.len() == 0 {
        selection
    } else {
        let range = range_of::<O>(level, selection);
        let next = inputs_for::<O>(level, files, selection, range.0, range.1);
        proof {
            lemma_inputs_len::<O>(level, files, selection, range.0, range.1);
        }
        if next.len() <= selection.len() {
            next
        } else {
            grown::<O>(level, files, next)
        }
    }
}

/// Whether one of the files is being compacted.
pub open spec fn any_busy(files: Seq<FileMeta>) -> bool {
    exists|i: int| 0 <= i < files.len() && (#[trigger] files[i]).being_compacted
}

/// The selection that a selection of files grows to, unless one of them is being compacted.
pub open spec fn expanded<O: KeyOrder>(
    level: nat,
    files: Seq<FileMeta>,
    selection: Seq<FileMeta>,
) -> Option<Seq<FileMeta>> {
    let all = grown::<O>(level, files, selection);
    if any_busy(all) {
        None
    } else {
        Some(all)
    }
}

/// The files that are not being compacted.
pub open spec fn idle_files(files: Seq<FileMeta>) -> Seq<FileMeta>
    decreases files.len(),
{
    if files.len() == 0 {
        files
    } else {
        let init = idle_files(files.drop_last());
        if files.last().being_compacted {
            init
        } else {
            init.push(files.last())
        }
    }
}

/// The files to compact together when a compaction starts with a file.
pub open spec fn inputs_from<O: KeyOrder>(
    level: nat,
    files: Seq<FileMeta>,
    output_files: Seq<FileMeta>,
    f: FileMeta,
) -> Option<(Seq<FileMeta>, Seq<FileMeta>)> {
    match expanded::<O>(level, files, seq![f]) {
        None => None,
        Some(start) => {
            let range = range_of::<O>(level, start);
            match expanded::<O>(
                level + 1,
                output_files,
                inputs_for::<O>(level + 1, output_files, Seq::empty(), range.0, range.1),
            ) {
                None => None,
                Some(output) => Some((start, output)),
            }
        },
    }
}

/// The files to compact together for the first of several files that can be compacted. Of level 0
/// only the first one is tried.
pub open spec fn first_inputs<O: KeyOrder>(
    level: nat,
    files: Seq<FileMeta>,
    output_files: Seq<FileMeta>,
    candidates: Seq<FileMeta>,
) -> Option<(Seq<FileMeta>, Seq<FileMeta>)>
    decreases candidates.len(),
{
    if candidates.len() == 0 {
        None
    } else {
        match inputs_from::<O>(level, files, output_files, candidates[0]) {
            Some(inputs) => Some(inputs),
            None => if level == 0 {
                None
            } else {
                first_inputs::<O>(level, files, output_files, candidates.drop_first())
            },
        }
    }
}

/// The order in which the files of a level are tried: level 0 the oldest first, the others the
/// largest first.
pub open spec fn pick_order(level: nat) -> FileOrder {
    if level == 0 {
        FileOrder::Oldest
    } else {
        FileOrder::Largest
    }
}

/// The files of a level and of the next one that are compacted together.
pub open spec fn picked<O: KeyOrder>(levels: Seq<Seq<FileMeta>>, level: nat) -> Option<
    (Seq<FileMeta>, Seq<FileMeta>),
> {
    let files = levels[level as int];
    first_inputs::<O>(
        level,
        files,
        levels[(level + 1) as int],
        builder::in_order::<O>(pick_order(level), idle_files(files)),
    )
}

proof fn lemma_goes_from_valid<O: KeyOrder>(
    level: nat,
    files: Seq<FileMeta>,
    prev: Seq<FileMeta>,
    infimum: Seq<u8>,
    supremum: Seq<u8>,
)
    requires
        builder::all_valid::<O>(files),
    ensures
        builder::all_valid::<O>(inputs_for::<O>(level, files, prev, infimum, supremum)),
{
    if level == 0 {
        lemma_goes_from::<O>(files, latest(prev), infimum, supremum);
        let n = goes_from::<O>(files, latest(prev), infimum, supremum) as int;
        assert forall|i: int| 0 <= i < files.skip(n).len() implies builder::bounds_valid::<O>(
            #[trigger] files.skip(n)[i],
        ) by {
            assert(files.skip(n)[i] == files[i + n]);
        }
    } else {
        lemma_overlapping_valid::<O>(files, infimum, supremum);
    }
}

proof fn lemma_overlapping_valid<O: KeyOrder>(
    files: Seq<FileMeta>,
    infimum: Seq<u8>,
    supremum: Seq<u8>,
)
    requires
        builder::all_valid::<O>(files),
    ensures
        builder::all_valid::<O>(overlapping::<O>(files, infimum, supremum)),
    decreases files.len(),
{
    if files.len() > 0 {
        let init = files.drop_last();
        assert forall|i: int| 0 <= i < init.len() implies builder::bounds_valid::<O>(
            #[trigger] init[i],
        ) by {
            assert(init[i] == files[i]);
        }
        lemma_overlapping_valid::<O>(init, infimum, supremum);
        assert(builder::bounds_valid::<O>(files[files.len() - 1]));
    }
}

proof fn lemma_range_valid<O: KeyOrder>(level: nat, files: Seq<FileMeta>)
    requires
        builder::all_valid::<O>(files),
        files.len() > 0,
    ensures
        O::valid(range_of::<O>(level, files).0),
        O::valid(range_of::<O>(level, files).1),
{
    assert(builder::bounds_valid::<O>(files[0]));
    assert(builder::bounds_valid::<O>(files[files.len() - 1]));
    if level == 0 {
        lemma_extremes_valid::<O>(files);
    }
}

proof fn lemma_extremes_valid<O: KeyOrder>(files: Seq<FileMeta>)
    requires
        builder::all_valid::<O>(files),
        files.len() > 0,
    ensures
        O::valid(least_key::<O>(files)),
        O::valid(greatest_key::<O>(files)),
    decreases files.len(),
{
    assert(builder::bounds_valid::<O>(files[0]));
    assert(builder::bounds_valid::<O>(files[files.len() - 1]));
    if files.len() > 1 {
        let init = files.drop_last();
        assert forall|i: int| 0 <= i < init.len() implies builder::bounds_valid::<O>(
            #[trigger] init[i],
        ) by {
            assert(init[i] == files[i]);
        }
        lemma_extremes_valid::<O>(init);
    }
}

/// The range of the keys of files of a level.
fn get_range<O: KeyOrder>(level: usize, files: &Vec<TableFileMeta>) -> (r: (Vec<u8>, Vec<u8>))
    requires
        files@.len() > 0,
        builder::all_valid::<O>(table::level_view(files@)),
    ensures
        r.0@ == range_of::<O>(level as nat, table::level_view(files@)).0,
        r.1@ == range_of::<O>(level as nat, table::level_view(files@)).1,
{
    let ghost all = table::level_view(files@);
    let size: usize = files.len();
    if level == 0 {
        let mut infimum: &Vec<u8> = &files[0].infimum;
        let mut supremum: &Vec<u8> = &files[0].supremum;
        let mut i: usize = 1;
        proof {
            assert(all.take(1).len() == 1);
            assert(all.take(1)[0] == files@[0]@);
        }
        while i < size
            invariant
                1 <= i <= size,
                size == files@.len(),
                all == table::level_view(files@),
                builder::all_valid::<O>(all),
                infimum@ == least_key::<O>(all.take(i as int)),
                supremum@ == greatest_key::<O>(all.take(i as int)),
            decreases size - i,
        {
            proof {
                assert(all.take(i + 1).drop_last() =~= all.take(i as int));
                assert(all.take(i + 1).last() == files@[i as int]@);
                assert(builder::bounds_valid::<O>(all[i as int]));
                assert forall|j: int| 0 <= j < i implies builder::bounds_valid::<O>(
                    #[trigger] all.take(i as int)[j],
                ) by {
                    assert(all.take(i as int)[j] == all[j]);
                }
                lemma_extremes_valid::<O>(all.take(i as int));
            }
            let f = &files[i];
            if O::less(f.infimum.as_slice(), infimum.as_slice()) {
                infimum = &f.infimum;
            }
            if O::less(supremum.as_slice(), f.supremum.as_slice()) {
                supremum = &f.supremum;
            }
            i = i + 1;
        }
        proof {
            assert(all.take(size as int) =~= all);
        }
        (slice_to_vec(infimum.as_slice()), slice_to_vec(supremum.as_slice()))
    } else {
        proof {
            assert(all[0] == files@[0]@);
            assert(all.last() == files@[size - 1]@);
        }
        (
            slice_to_vec(files[0].infimum.as_slice()),
            slice_to_vec(files[size - 1].supremum.as_slice()),
        )
    }
}

fn overlaps_range<O: KeyOrder>(f: &TableFileMeta, infimum: &[u8], supremum: &[u8]) -> (r: bool)
    requires
        builder::bounds_valid::<O>(f@),
        O::valid(infimum@),
        O::valid(supremum@),
    ensures
        r == overlaps::<O>(f@, infimum@, supremum@),
{
    !O::less(f.supremum.as_slice(), infimum) && !O::less(supremum, f.infimum.as_slice())
}

impl Version {
    /// Works out how much each level needs to be compacted.
    pub fn calculate_compaction_score(&mut self, opt: &DbOptions)
        requires
            sizes_fit(old(self).files(), *opt),
        ensures
            final(self).files() == old(self).files(),
            final(self).scores() == Seq::new(
                old(self).files().len(),
                |level: int| level_score(old(self).files(), *opt, level),
            ),
    {
        let ghost levels = self.files();
        let size: usize = self.files.len();
        let mut scores: Vec<CompactionScore> = Vec::new();
        let mut level: usize = 0;
        while level < size
            invariant
                level <= size,
                size == self.files@.len(),
                levels == self.files(),
                sizes_fit(levels, *opt),
                scores@.len() == level,
                forall|l: int|
                    0 <= l < level ==> #[trigger] scores@[l] == level_score(levels, *opt, l),
            decreases size - level,
        {
            assert(levels[level as int] == table::level_view(self.files@[level as int]@));
            let score = if level == size - 1 {
                // The last level is never compacted.
                CompactionScore { amount: 0, limit: 1 }
            } else {
                proof {
                    assert(idle_size(levels[level as int]) <= usize::MAX);
                }
                let (count, total) = Self::idle_totals(&self.files[level]);
                if level == 0 {
                    CompactionScore {
                        amount: count,
                        limit: if opt.level0_file_num_compaction_trigger > 0 {
                            opt.level0_file_num_compaction_trigger
                        } else {
                            1
                        },
                    }
                } else {
                    let max_size: usize = opt.max_bytes_for_level(level);
                    CompactionScore {
                        amount: total,
                        limit: if max_size > 0 {
                            max_size
                        } else {
                            1
                        },
                    }
                }
            };
            scores.push(score);
            level = level + 1;
        }
        self.compaction_score = scores;
        proof {
            assert(self.scores() =~= Seq::new(
                levels.len(),
                |level: int| level_score(levels, *opt, level),
            ));
        }
    }

    /// Whether the sizes of the levels can be told, given that their limits can.
    pub fn sizes_can_be_told(&self, opt: &DbOptions) -> (r: bool)
        requires
            forall|l: int| 0 <= l < self.files().len() - 1 ==> #[trigger] opt.level_fits(l as nat),
        ensures
            r == sizes_fit(self.files(), *opt),
    {
        let ghost levels = self.files();
        let size: usize = self.files.len();
        let mut level: usize = 0;
        while size > 0 && level < size - 1
            invariant
                size == self.files@.len(),
                size == levels.len(),
                levels == self.files(),
                level <= size,
                forall|l: int| 0 <= l < size - 1 ==> #[trigger] opt.level_fits(l as nat),
                forall|l: int| 0 <= l < level ==> idle_size(#[trigger] levels[l]) <= usize::MAX,
            decreases size - level,
        {
            assert(levels[level as int] == table::level_view(self.files@[level as int]@));
            if !Self::idle_size_fits(&self.files[level]) {
                assert(idle_size(levels[level as int]) > usize::MAX);
                return false;
            }
            level = level + 1;
        }
        proof {
            assert forall|l: int| 0 <= l < levels.len() - 1 implies idle_size(#[trigger] levels[l])
                <= usize::MAX && opt.level_fits(l as nat) by {}
        }
        true
    }

    /// Whether the size of the files that are not being compacted can be told.
    fn idle_size_fits(files: &Vec<TableFileMeta>) -> (r: bool)
        ensures
            r == (idle_size(table::level_view(files@)) <= usize::MAX),
    {
        let ghost all = table::level_view(files@);
        let size: usize = files.len();
        let mut total: usize = 0;
        let mut i: usize = 0;
        proof {
            assert(all.take(0) =~= Seq::<FileMeta>::empty());
        }
        while i < size
            invariant
                i <= size,
                size == files@.len(),
                all == table::level_view(files@),
                total == idle_size(all.take(i as int)),
            decreases size - i,
        {
            proof {
                assert(all.take(i + 1).drop_last() =~= all.take(i as int));
                assert(all.take(i + 1).last() == files@[i as int]@);
                lemma_idle_size(all, i + 1);
            }
            if !files[i].being_compacted {
                match total.checked_add(files[i].size) {
                    Some(sum) => {
                        total = sum;
                    },
                    None => {
                        return false;
                    },
                }
            }
            i = i + 1;
        }
        proof {
            assert(all.take(size as int) =~= all);
        }
        true
    }

    /// The number and the size of the files that are not being compacted.
    fn idle_totals(files: &Vec<TableFileMeta>) -> (r: (usize, usize))
        requires
            idle_size(table::level_view(files@)) <= usize::MAX,
        ensures
            r.0 == idle_count(table::level_view(files@)),
            r.1 == idle_size(table::level_view(files@)),
    {
        let ghost all = table::level_view(files@);
        let size: usize = files.len();
        let mut count: usize = 0;
        let mut total: usize = 0;
        let mut i: usize = 0;
        proof {
            assert(all.take(0) =~= Seq::<FileMeta>::empty());
        }
        while i < size
            invariant
                i <= size,
                size == files@.len(),
                all == table::level_view(files@),
                idle_size(all) <= usize::MAX,
                count <= i,
                count == idle_count(all.take(i as int)),
                total == idle_size(all.take(i as int)),
            decreases size - i,
        {
            proof {
                assert(all.take(i + 1).drop_last() =~= all.take(i as int));
                assert(all.take(i + 1).last() == files@[i as int]@);
                lemma_idle_size(all, i + 1);
            }
            if !files[i].being_compacted {
                count = count + 1;
                total = total + files[i].size;
            }
            i = i + 1;
        }
        proof {
            assert(all.take(size as int) =~= all);
        }
        (count, total)
    }

    /// The files of a level that have to be compacted with a selection whose keys are in a range.
    fn get_overlapping_inputs<O: KeyOrder>(
        &self,
        level: usize,
        prev_files: &Vec<TableFileMeta>,
        infimum: &[u8],
        supremum: &[u8],
    ) -> (r: Vec<TableFileMeta>)
        requires
            level < self.files().len(),
            builder::all_valid::<O>(self.files()[level as int]),
            level == 0 ==> prev_files@.len() > 0,
            O::valid(infimum@),
            O::valid(supremum@),
        ensures
            table::level_view(r@) == inputs_for::<O>(
                level as nat,
                self.files()[level as int],
                table::level_view(prev_files@),
                infimum@,
                supremum@,
            ),
            builder::all_valid::<O>(table::level_view(r@)),
    {
        let files = &self.files[level];
        let ghost all = self.files()[level as int];
        proof {
            assert(all == table::level_view(files@));
            lemma_goes_from_valid::<O>(
                level as nat,
                all,
                table::level_view(prev_files@),
                infimum@,
                supremum@,
            );
        }
        let size: usize = files.len();
        let mut inputs: Vec<TableFileMeta> = Vec::new();
        if level == 0 {
            let max_ts = Self::latest_of(prev_files);
            let mut start: usize = size;
            proof {
                assert(all.take(size as int) =~= all);
                assert forall|j: int| 0 <= j < size implies builder::bounds_valid::<O>(
                    (#[trigger] files@[j])@,
                ) by {
                    assert(builder::bounds_valid::<O>(all[j]));
                }
            }
            while start > 0 && Self::must_go::<O>(&files[start - 1], max_ts, infimum, supremum)
                invariant
                    start <= size,
                    size == files@.len(),
                    all == table::level_view(files@),
                    builder::all_valid::<O>(all),
                    forall|j: int|
                        0 <= j < size ==> builder::bounds_valid::<O>((#[trigger] files@[j])@),
                    O::valid(infimum@),
                    O::valid(supremum@),
                    goes_from::<O>(all, max_ts, infimum@, supremum@) == goes_from::<O>(
                        all.take(start as int),
                        max_ts,
                        infimum@,
                        supremum@,
                    ),
                decreases start,
            {
                proof {
                    assert(all.take(start as int).drop_last() =~= all.take(start - 1));
                    assert(all.take(start as int).last() == files@[start - 1]@);
                }
                start = start - 1;
            }
            proof {
                if start > 0 {
                    assert(all.take(start as int).last() == files@[start - 1]@);
                }
                assert(goes_from::<O>(all, max_ts, infimum@, supremum@) == start);
            }
            let mut i: usize = start;
            while i < size
                invariant
                    start <= i <= size,
                    size == files@.len(),
                    all == table::level_view(files@),
                    inputs@.len() == i - start,
                    forall|j: int|
                        0 <= j < i - start ==> (#[trigger] inputs@[j])@ == all[start + j],
                decreases size - i,
            {
                inputs.push(files[i].clone());
                i = i + 1;
            }
            proof {
                assert(table::level_view(inputs@) =~= all.skip(start as int));
            }
        } else {
            let mut i: usize = 0;
            proof {
                assert(all.take(0) =~= Seq::<FileMeta>::empty());
                assert(table::level_view(inputs@) =~= Seq::<FileMeta>::empty());
            }
            while i < size
                invariant
                    i <= size,
                    size == files@.len(),
                    all == table::level_view(files@),
                    builder::all_valid::<O>(all),
                    O::valid(infimum@),
                    O::valid(supremum@),
                    table::level_view(inputs@) == overlapping::<O>(
                        all.take(i as int),
                        infimum@,
                        supremum@,
                    ),
                decreases size - i,
            {
                let ghost before = table::level_view(inputs@);
                proof {
                    assert(all.take(i + 1).drop_last() =~= all.take(i as int));
                    assert(all.take(i + 1).last() == files@[i as int]@);
                    assert(builder::bounds_valid::<O>(all[i as int]));
                }
                if overlaps_range::<O>(&files[i], infimum, supremum) {
                    inputs.push(files[i].clone());
                    proof {
                        assert(table::level_view(inputs@) =~= before.push(files@[i as int]@));
                    }
                }
                i = i + 1;
            }
            proof {
                assert(all.take(size as int) =~= all);
            }
        }
        inputs
    }

    fn latest_of(files: &Vec<TableFileMeta>) -> (r: Timestamp)
        requires
            files@.len() > 0,
        ensures
            r == latest(table::level_view(files@)),
    {
        let ghost all = table::level_view(files@);
        let size: usize = files.len();
        let mut max_ts = files[0].min_xip;
        let mut i: usize = 1;
        proof {
            assert(all.take(1)[0] == files@[0]@);
        }
        while i < size
            invariant
                1 <= i <= size,
                size == files@.len(),
                all == table::level_view(files@),
                max_ts == latest(all.take(i as int)),
            decreases size - i,
        {
            proof {
                assert(all.take(i + 1).drop_last() =~= all.take(i as int));
                assert(all.take(i + 1).last() == files@[i as int]@);
            }
            if !(max_ts > files[i].min_xip) {
                max_ts = files[i].min_xip;
            }
            i = i + 1;
        }
        proof {
            assert(all.take(size as int) =~= all);
        }
        max_ts
    }

    fn must_go<O: KeyOrder>(
        f: &TableFileMeta,
        max_ts: Timestamp,
        infimum: &[u8],
        supremum: &[u8],
    ) -> (r: bool)
        requires
            builder::bounds_valid::<O>(f@),
            O::valid(infimum@),
            O::valid(supremum@),
        ensures
            r == goes_with::<O>(f@, max_ts, infimum@, supremum@),
    {
        !(f.min_xip > max_ts) || (overlaps_range::<O>(f, infimum, supremum) && !f.being_compacted)
    }

    /// Grows a selection by the files that have to be compacted with it.
    fn expand_inputs<O: KeyOrder>(&self, level: usize, files: Vec<TableFileMeta>) -> (r: Option<
        Vec<TableFileMeta>,
    >)
        requires
            level < self.files().len(),
            builder::all_valid::<O>(self.files()[level as int]),
            builder::all_valid::<O>(table::level_view(files@)),
        ensures
            match r {
                Some(v) => {
                    &&& expanded::<O>(
                        level as nat,
                        self.files()[level as int],
                        table::level_view(files@),
                    ) == Some(table::level_view(v@))
                    &&& builder::all_valid::<O>(table::level_view(v@))
                },
                None => expanded::<O>(
                    level as nat,
                    self.files()[level as int],
                    table::level_view(files@),
                ) is None,
            },
    {
        let ghost all = self.files()[level as int];
        let ghost selection = table::level_view(files@);
        let mut files = files;
        let mut growing = files.len() > 0;
        while growing
            invariant
                level < self.files().len(),
                all == self.files()[level as int],
                builder::all_valid::<O>(all),
                builder::all_valid::<O>(table::level_view(files@)),
                growing ==> files@.len() > 0,
                growing ==> grown::<O>(level as nat, all, selection) == grown::<O>(
                    level as nat,
                    all,
                    table::level_view(files@),
                ),
                !growing ==> grown::<O>(level as nat, all, selection) == table::level_view(files@),
            decreases
                    if growing {
                        all.len() + 1 - (if files@.len() <= all.len() {
                            files@.len() as int
                        } else {
                            all.len() as int
                        })
                    } else {
                        0
                    },
        {
            let old_len: usize = files.len();
            let ghost before = table::level_view(files@);
            let (infimum, supremum) = get_range::<O>(level, &files);
            proof {
                lemma_range_valid::<O>(level as nat, before);
                lemma_inputs_len::<O>(level as nat, all, before, infimum@, supremum@);
            }
            let next = self.get_overlapping_inputs::<O>(
                level,
                &files,
                infimum.as_slice(),
                supremum.as_slice(),
            );
            assert(table::level_view(next@).len() == next@.len());
            if next.len() <= old_len {
                growing = false;
            }
            files = next;
        }
        if Self::any_compacting(&files) {
            None
        } else {
            Some(files)
        }
    }

    fn any_compacting(files: &Vec<TableFileMeta>) -> (r: bool)
        ensures
            r == any_busy(table::level_view(files@)),
    {
        let ghost all = table::level_view(files@);
        let size: usize = files.len();
        let mut i: usize = 0;
        while i < size
            invariant
                i <= size,
                size == files@.len(),
                all == table::level_view(files@),
                forall|j: int| 0 <= j < i ==> !(#[trigger] all[j]).being_compacted,
            decreases size - i,
        {
            assert(all[i as int] == files@[i as int]@);
            if files[i].being_compacted {
                return true;
            }
            i = i + 1;
        }
        false
    }

    fn idle_of(files: &Vec<TableFileMeta>) -> (r: Vec<TableFileMeta>)
        ensures
            table::level_view(r@) == idle_files(table::level_view(files@)),
    {
        let ghost all = table::level_view(files@);
        let size: usize = files.len();
        let mut out: Vec<TableFileMeta> = Vec::new();
        let mut i: usize = 0;
        proof {
            assert(all.take(0) =~= Seq::<FileMeta>::empty());
            assert(table::level_view(out@) =~= Seq::<FileMeta>::empty());
        }
        while i < size
            invariant
                i <= size,
                size == files@.len(),
                all == table::level_view(files@),
                table::level_view(out@) == idle_files(all.take(i as int)),
            decreases size - i,
        {
            let ghost before = table::level_view(out@);
            proof {
                assert(all.take(i + 1).drop_last() =~= all.take(i as int));
                assert(all.take(i + 1).last() == files@[i as int]@);
            }
            if !files[i].being_compacted {
                out.push(files[i].clone());
                proof {
                    assert(table::level_view(out@) =~= before.push(files@[i as int]@));
                }
            }
            i = i + 1;
        }
        proof {
            assert(all.take(size as int) =~= all);
        }
        out
    }

    /// The files to compact together when a compaction of a level starts with a file.
    fn try_inputs_from<O: KeyOrder>(&self, level: usize, f: &TableFileMeta) -> (r: Option<
        (Vec<TableFileMeta>, Vec<TableFileMeta>),
    >)
        requires
            level + 1 < self.files().len(),
            builder::levels_ordered::<O>(self.files()),
            self.files()[level as int].contains(f@),
        ensures
            match r {
                Some((a, b)) => inputs_from::<O>(
                    level as nat,
                    self.files()[level as int],
                    self.files()[level + 1],
                    f@,
                ) == Some((table::level_view(a@), table::level_view(b@))),
                None => inputs_from::<O>(
                    level as nat,
                    self.files()[level as int],
                    self.files()[level + 1],
                    f@,
                ) is None,
            },
    {
        let mut one: Vec<TableFileMeta> = Vec::new();
        one.push(f.clone());
        proof {
            lemma_valid::<O>(self.files(), level as int);
            lemma_valid::<O>(self.files(), level + 1);
            let n = choose|n: int|
                0 <= n < self.files()[level as int].len() && self.files()[level as int][n] == f@;
            assert(builder::comparable::<O>(self.files()[level as int][n]));
            assert(table::level_view(one@) =~= seq![f@]);
            lemma_grown_has::<O>(level as nat, self.files()[level as int], seq![f@]);
        }
        let start_level_inputs = match self.expand_inputs::<O>(level, one) {
            Some(inputs) => inputs,
            None => {
                return None;
            },
        };
        let ghost start = table::level_view(start_level_inputs@);
        assert(start.len() == start_level_inputs@.len());
        let (infimum, supremum) = get_range::<O>(level, &start_level_inputs);
        proof {
            lemma_range_valid::<O>(level as nat, start);
        }
        let no_files: Vec<TableFileMeta> = Vec::new();
        let num_levels: usize = self.files.len();
        assert(level + 1 < num_levels);
        proof {
            assert(table::level_view(no_files@) =~= Seq::<FileMeta>::empty());
        }
        let overlapping = self.get_overlapping_inputs::<O>(
            level + 1,
            &no_files,
            infimum.as_slice(),
            supremum.as_slice(),
        );
        match self.expand_inputs::<O>(level + 1, overlapping) {
            Some(output_level_inputs) => Some((start_level_inputs, output_level_inputs)),
            None => None,
        }
    }

    /// The files of a level and of the next one that are compacted together.
    pub fn try_pick_files_to_compact<O: KeyOrder>(&self, level: usize) -> (r: Option<
        (Vec<TableFileMeta>, Vec<TableFileMeta>),
    >)
        requires
            level + 1 < self.files().len(),
            builder::levels_ordered::<O>(self.files()),
        ensures
            match r {
                Some((a, b)) => picked::<O>(self.files(), level as nat) == Some(
                    (table::level_view(a@), table::level_view(b@)),
                ),
                None => picked::<O>(self.files(), level as nat) is None,
            },
    {
        let ghost files = self.files()[level as int];
        let ghost output_files = self.files()[level + 1];
        assert(files == table::level_view(self.files@[level as int]@));
        let idle = Self::idle_of(&self.files[level]);
        proof {
            lemma_valid::<O>(self.files(), level as int);
            lemma_idle::<O>(files);
            assert forall|i: int| 0 <= i < idle_files(files).len() implies builder::comparable::<O>(
                #[trigger] idle_files(files)[i],
            ) by {
                assert(idle_files(files).contains(idle_files(files)[i]));
                let n = choose|n: int| 0 <= n < files.len() && files[n] == idle_files(files)[i];
                assert(builder::comparable::<O>(files[n]));
            }
        }
        let order = if level == 0 {
            FileOrder::Oldest
        } else {
            FileOrder::Largest
        };
        let level_files = sort_files::<O>(order, &idle);
        let ghost candidates = table::level_view(level_files@);
        proof {
            builder::lemma_in_order::<O>(order, idle_files(files));
            assert forall|f: FileMeta| #[trigger] candidates.contains(f) implies files.contains(f) by {
                assert(idle_files(files).contains(f));
            }
        }
        let size: usize = level_files.len();
        let mut i: usize = 0;
        proof {
            assert(candidates.skip(0) =~= candidates);
        }
        while i < size
            invariant
                i <= size,
                size == level_files@.len(),
                candidates == table::level_view(level_files@),
                candidates == builder::in_order::<O>(pick_order(level as nat), idle_files(files)),
                builder::all_valid::<O>(candidates),
                forall|f: FileMeta| #[trigger] candidates.contains(f) ==> files.contains(f),
                files == self.files()[level as int],
                output_files == self.files()[level + 1],
                level + 1 < self.files().len(),
                builder::levels_ordered::<O>(self.files()),
                first_inputs::<O>(level as nat, files, output_files, candidates)
                    == first_inputs::<O>(
                    level as nat,
                    files,
                    output_files,
                    candidates.skip(i as int),
                ),
            decreases size - i,
        {
            let f = &level_files[i];
            proof {
                assert(candidates[i as int] == f@);
                assert(candidates.contains(f@));
                assert(builder::bounds_valid::<O>(candidates[i as int]));
                assert(candidates.skip(i as int)[0] == f@);
                assert(candidates.skip(i as int).drop_first() =~= candidates.skip(i + 1));
            }
            match self.try_inputs_from::<O>(level, f) {
                Some(inputs) => {
                    return Some(inputs);
                },
                None => {
                    if level == 0 {
                        // The files after the oldest one of level 0 need not be looked at.
                        return None;
                    }
                },
            }
            i = i + 1;
        }
        proof {
            assert(candidates.skip(size as int).len() == 0);
        }
        None
    }
}

/// Files that can be compared have valid bounds.
pub proof fn lemma_valid<O: KeyOrder>(levels: Seq<Seq<FileMeta>>, l: int)
    requires
        builder::levels_ordered::<O>(levels),
        0 <= l < levels.len(),
    ensures
        builder::all_valid::<O>(levels[l]),
        builder::all_comparable::<O>(levels[l]),
        builder::ordered::<O>(FileOrder::of_level(l as nat), levels[l]),
{
    assert(builder::all_comparable::<O>(levels[l]));
    assert forall|i: int| 0 <= i < levels[l].len() implies builder::bounds_valid::<O>(
        #[trigger] levels[l][i],
    ) by {
        assert(builder::comparable::<O>(levels[l][i]));
    }
}

proof fn lemma_idle_size(files: Seq<FileMeta>, n: int)
    requires
        0 <= n <= files.len(),
    ensures
        idle_size(files.take(n)) <= idle_size(files),
    decreases files.len() - n,
{
    if n < files.len() {
        assert(files.take(n + 1).drop_last() =~= files.take(n));
        lemma_idle_size(files, n + 1);
    } else {
        assert(files.take(n) =~= files);
    }
}

pub proof fn lemma_idle<O: KeyOrder>(files: Seq<FileMeta>)
    requires
        builder::all_valid::<O>(files),
    ensures
        builder::all_valid::<O>(idle_files(files)),
        forall|f: FileMeta| #[trigger] idle_files(files).contains(f) ==> files.contains(f),
    decreases files.len(),
{
    if files.len() > 0 {
        let init = files.drop_last();
        let last = files.last();
        assert(builder::bounds_valid::<O>(files[files.len() - 1]));
        assert forall|i: int| 0 <= i < init.len() implies builder::bounds_valid::<O>(
            #[trigger] init[i],
        ) by {
            assert(init[i] == files[i]);
        }
        lemma_idle::<O>(init);
        let out = idle_files(files);
        assert forall|f: FileMeta| #[trigger] out.contains(f) implies files.contains(f) by {
            let i = choose|i: int| 0 <= i < out.len() && out[i] == f;
            if i < idle_files(init).len() {
                assert(idle_files(init)[i] == f);
                assert(idle_files(init).contains(f));
                let j = choose|j: int| 0 <= j < init.len() && init[j] == f;
                assert(files[j] == f);
            } else {
                assert(files[files.len() - 1] == f);
            }
        }
    }
}

proof fn lemma_before_is_total(a: Timestamp, b: Timestamp)
    ensures
        a == b || a.before(b) || b.before(a),
{
}

proof fn lemma_goes_last<O: KeyOrder>(
    files: Seq<FileMeta>,
    max_ts: Timestamp,
    infimum: Seq<u8>,
    supremum: Seq<u8>,
)
    requires
        files.len() > 0,
        goes_with::<O>(files.last(), max_ts, infimum, supremum),
    ensures
        goes_from::<O>(files, max_ts, infimum, supremum) < files.len(),
{
    lemma_goes_from::<O>(files.drop_last(), max_ts, infimum, supremum);
}

proof fn lemma_overlapping_has<O: KeyOrder>(
    files: Seq<FileMeta>,
    infimum: Seq<u8>,
    supremum: Seq<u8>,
    f: FileMeta,
)
    requires
        files.contains(f),
        overlaps::<O>(f, infimum, supremum),
    ensures
        overlapping::<O>(files, infimum, supremum).contains(f),
    decreases files.len(),
{
    let n = choose|n: int| 0 <= n < files.len() && files[n] == f;
    let init = files.drop_last();
    let part = overlapping::<O>(init, infimum, supremum);
    let out = overlapping::<O>(files, infimum, supremum);
    if n < files.len() - 1 {
        assert(init[n] == f);
        lemma_overlapping_has::<O>(init, infimum, supremum, f);
        let j = choose|j: int| 0 <= j < part.len() && part[j] == f;
        assert(out[j] == f);
    } else {
        assert(out[part.len() as int] == f);
    }
}

/// What overlaps a range is in the same order as all files.
proof fn lemma_overlapping_ordered<O: KeyOrder>(
    files: Seq<FileMeta>,
    infimum: Seq<u8>,
    supremum: Seq<u8>,
)
    requires
        builder::all_comparable::<O>(files),
        builder::ordered::<O>(FileOrder::Smallest, files),
    ensures
        builder::all_comparable::<O>(overlapping::<O>(files, infimum, supremum)),
        builder::ordered::<O>(
            FileOrder::Smallest,
            overlapping::<O>(files, infimum, supremum),
        ),
        forall|f: FileMeta| #[trigger]
            overlapping::<O>(files, infimum, supremum).contains(f) ==> files.contains(f)
                && overlaps::<O>(f, infimum, supremum),
    decreases files.len(),
{
    if files.len() > 0 {
        let init = files.drop_last();
        assert forall|i: int| 0 <= i < init.len() implies builder::comparable::<O>(
            #[trigger] init[i],
        ) by {
            assert(init[i] == files[i]);
        }
        assert forall|i: int, j: int| 0 <= i < j < init.len() implies !builder::file_less::<O>(
            FileOrder::Smallest,
            #[trigger] init[j],
            #[trigger] init[i],
        ) by {
            assert(init[i] == files[i] && init[j] == files[j]);
        }
        lemma_overlapping_ordered::<O>(init, infimum, supremum);
        let part = overlapping::<O>(init, infimum, supremum);
        let out = overlapping::<O>(files, infimum, supremum);
        let last = files[files.len() - 1];
        assert(builder::comparable::<O>(last));
        assert forall|i: int| 0 <= i < part.len() implies !builder::file_less::<O>(
            FileOrder::Smallest,
            last,
            #[trigger] part[i],
        ) by {
            assert(part.contains(part[i]));
            let j = choose|j: int| 0 <= j < init.len() && init[j] == part[i];
            assert(files[j] == part[i]);
            assert(!builder::file_less::<O>(
                FileOrder::Smallest,
                files[files.len() - 1],
                files[j],
            ));
        }
        assert forall|f: FileMeta| #[trigger] out.contains(f) implies files.contains(f)
            && overlaps::<O>(f, infimum, supremum) by {
            let i = choose|i: int| 0 <= i < out.len() && out[i] == f;
            if i < part.len() {
                assert(part[i] == f);
                assert(part.contains(f));
                let j = choose|j: int| 0 <= j < init.len() && init[j] == f;
                assert(files[j] == f);
            } else {
                assert(files[files.len() - 1] == f);
            }
        }
    }
}

/// Growing a selection keeps something selected: of level 0 the oldest file, which goes with every
/// other one, of the other levels the first file of the selection.
pub proof fn lemma_grown_has<O: KeyOrder>(
    level: nat,
    files: Seq<FileMeta>,
    selection: Seq<FileMeta>,
)
    requires
        builder::all_comparable::<O>(files),
        builder::ordered::<O>(FileOrder::of_level(level), files),
        selection.len() > 0,
        builder::all_comparable::<O>(selection),
        builder::ordered::<O>(FileOrder::of_level(level), selection),
        level == 0 ==> files.contains(selection.last()) && (selection.len() == 1
            || selection.last() == files.last()),
        level > 0 ==> files.contains(selection[0]),
    ensures
        grown::<O>(level, files, selection).len() > 0,
    decreases files.len() - selection.len(),
{
    let range = range_of::<O>(level, selection);
    let next = inputs_for::<O>(level, files, selection, range.0, range.1);
    lemma_inputs_len::<O>(level, files, selection, range.0, range.1);
    if level == 0 {
        let f = selection.last();
        let n = choose|n: int| 0 <= n < files.len() && files[n] == f;
        let oldest = files.last();
        let max_ts = latest(selection);
        assert(builder::comparable::<O>(oldest));
        assert(builder::comparable::<O>(f));
        if n < files.len() - 1 {
            assert(!builder::file_less::<O>(FileOrder::Newest, files[files.len() - 1], files[n]));
        }
        crate::transaction::lemma_before_is_less(oldest.min_xip, f.min_xip);
        crate::transaction::lemma_before_is_less(f.min_xip, oldest.min_xip);
        if selection.len() > 1 {
            lemma_before_is_total(latest(selection.drop_last()), f.min_xip);
        }
        assert(goes_with::<O>(oldest, max_ts, range.0, range.1));
        lemma_goes_last::<O>(files, max_ts, range.0, range.1);
        let s = goes_from::<O>(files, max_ts, range.0, range.1) as int;
        assert(next == files.skip(s));
        if next.len() > selection.len() {
            assert(next.last() == files.last());
            assert(files.contains(next.last()));
            assert forall|i: int| 0 <= i < next.len() implies builder::comparable::<O>(
                #[trigger] next[i],
            ) by {
                assert(next[i] == files[i + s]);
            }
            assert forall|i: int, j: int| 0 <= i < j < next.len() implies !builder::file_less::<O>(
                FileOrder::Newest,
                #[trigger] next[j],
                #[trigger] next[i],
            ) by {
                assert(next[i] == files[i + s] && next[j] == files[j + s]);
            }
            lemma_grown_has::<O>(level, files, next);
        }
    } else {
        let f = selection[0];
        let last = selection.last();
        assert(builder::comparable::<O>(f));
        assert(builder::comparable::<O>(selection[selection.len() - 1]));
        O::irreflexive(f.infimum);
        if selection.len() > 1 {
            assert(!builder::file_less::<O>(
                FileOrder::Smallest,
                selection[selection.len() - 1],
                selection[0],
            ));
            if O::lt(last.supremum, f.infimum) {
                if last.infimum != f.infimum {
                    O::total(last.infimum, f.infimum);
                    O::transitive(last.supremum, f.infimum, last.infimum);
                }
            }
        }
        assert(overlaps::<O>(f, range.0, range.1));
        lemma_overlapping_has::<O>(files, range.0, range.1, f);
        lemma_overlapping_ordered::<O>(files, range.0, range.1);
        if next.len() > selection.len() {
            assert(next.contains(next[0]));
            lemma_grown_has::<O>(level, files, next);
        }
    }
}

/// Marking files does not add to the size of the others.
pub proof fn lemma_marked_size(
    files: Seq<FileMeta>,
    level: nat,
    marked: Set<(usize, TableFileRef)>,
)
    ensures
        idle_size(builder::marked_files(files, level, marked)) <= idle_size(files),
    decreases files.len(),
{
    if files.len() > 0 {
        let after = builder::marked_files(files, level, marked);
        assert(after.drop_last() =~= builder::marked_files(files.drop_last(), level, marked));
        lemma_marked_size(files.drop_last(), level, marked);
    }
}

} // verus!

//! When a level is compacted, and which of its files are taken, in terms of the sizes and keys of
//! the files.
use crate::key::KeyOrder;
use crate::options::DbOptions;
use crate::table::{FileMeta, TableFileRef};
use crate::version;
use crate::version::builder;
use crate::version::builder::FileOrder;
use crate::version::compaction;
use crate::version::contents;
use crate::version::selection;
use crate::version::CompactionScore;
use vstd::arithmetic::power;
use vstd::prelude::*;

verus! {

/// The files that are not being compacted.
pub open spec fn idle(files: Seq<FileMeta>) -> Seq<FileMeta> {
    files.filter(|f: FileMeta| !f.being_compacted)
}

/// The size of all files.
pub open spec fn total_size(files: Seq<FileMeta>) -> int {
    files.fold_left(0int, |sum: int, f: FileMeta| sum + f.size)
}

/// The files of which some key can lie in the range of another one.
pub open spec fn meeting<O: KeyOrder>(files: Seq<FileMeta>, g: FileMeta) -> Seq<FileMeta> {
    files.filter(
        |f: FileMeta| !O::lt(f.supremum, g.infimum) && !O::lt(g.supremum, f.infimum),
    )
}

/// What is counted of the files that are not being compacted is just that.
proof fn lemma_idle_is(files: Seq<FileMeta>)
    ensures
        compaction::idle_files(files) == idle(files),
        compaction::idle_count(files) == idle(files).len(),
        compaction::idle_size(files) == total_size(idle(files)),
    decreases files.len(),
{
    reveal(Seq::filter);
    if files.len() > 0 {
        let init = files.drop_last();
        lemma_idle_is(init);
        if files.last().being_compacted {
            assert(idle(files) =~= idle(init));
        } else {
            assert(idle(files) =~= idle(init).push(files.last()));
            assert(idle(files).drop_last() =~= idle(init));
        }
    }
}

proof fn lemma_meeting_is<O: KeyOrder>(files: Seq<FileMeta>, g: FileMeta)
    ensures
        compaction::overlapping::<O>(files, g.infimum, g.supremum) == meeting::<O>(files, g),
    decreases files.len(),
{
    reveal(Seq::filter);
    if files.len() > 0 {
        lemma_meeting_is::<O>(files.drop_last(), g);
    }
}

/// The first level is due when as many of its files as the option says, and at least one, are not
/// being compacted. The last level is never due. Every other level is due when its files that are
/// not being compacted are together at least as large as the base times as many multipliers as its
/// number says, and not empty.
pub proof fn lemma_level_due(levels: Seq<Seq<FileMeta>>, opt: DbOptions, l: int)
    requires
        0 <= l < levels.len(),
        compaction::sizes_fit(levels, opt),
        l == 0 ==> levels[0].len() <= usize::MAX,
    ensures
        compaction::level_score(levels, opt, l).due() <==> {
            &&& l < levels.len() - 1
            &&& l == 0 ==> idle(levels[0]).len() >= 1 && idle(levels[0]).len()
                >= opt.level0_file_num_compaction_trigger
            &&& l > 0 ==> total_size(idle(levels[l])) >= 1 && total_size(idle(levels[l]))
                >= opt.max_bytes_for_level_base * power::pow(
                opt.max_bytes_for_level_multiplier as int,
                l as nat,
            )
        },
{
    lemma_idle_is(levels[l]);
    lemma_idle_count(levels[l]);
    if l < levels.len() - 1 {
        assert(compaction::idle_size(levels[l]) <= usize::MAX && opt.level_fits(l as nat));
        let p = power::pow(opt.max_bytes_for_level_multiplier as int, l as nat);
        assert(opt.max_bytes(l as nat) == opt.max_bytes_for_level_base as nat * p);
    }
}

/// The same of the scores of a version that were told of its files.
pub proof fn lemma_scores_due(
    levels: Seq<Seq<FileMeta>>,
    opt: DbOptions,
    scores: Seq<CompactionScore>,
    l: int,
)
    requires
        scores == Seq::new(
            levels.len(),
            |level: int| compaction::level_score(levels, opt, level),
        ),
        0 <= l < levels.len(),
        compaction::sizes_fit(levels, opt),
        l == 0 ==> levels[0].len() <= usize::MAX,
    ensures
        scores[l].due() <==> {
            &&& l < levels.len() - 1
            &&& l == 0 ==> idle(levels[0]).len() >= 1 && idle(levels[0]).len()
                >= opt.level0_file_num_compaction_trigger
            &&& l > 0 ==> total_size(idle(levels[l])) >= 1 && total_size(idle(levels[l]))
                >= opt.max_bytes_for_level_base * power::pow(
                opt.max_bytes_for_level_multiplier as int,
                l as nat,
            )
        },
{
    lemma_level_due(levels, opt, l);
}

proof fn lemma_idle_count(files: Seq<FileMeta>)
    ensures
        compaction::idle_count(files) <= files.len(),
    decreases files.len(),
{
    if files.len() > 0 {
        lemma_idle_count(files.drop_last());
    }
}

/// Whether a file of a level behind the first can be compacted now: neither it nor one of the next
/// level whose keys meet its own is being compacted.
pub open spec fn can_go<O: KeyOrder>(f: FileMeta, below: Seq<FileMeta>) -> bool {
    &&& !f.being_compacted
    &&& forall|i: int|
        0 <= i < meeting::<O>(below, f).len() ==> !(#[trigger] meeting::<O>(
            below,
            f,
        )[i]).being_compacted
}

/// What goes with a file of a level behind the first: the file alone, and all of the next level
/// whose keys meet its own, unless one of them is being compacted.
proof fn lemma_inputs_alone<O: KeyOrder>(
    contents: Map<TableFileRef, Seq<u8>>,
    levels: Seq<Seq<FileMeta>>,
    l: int,
    f: FileMeta,
)
    requires
        contents::version_sound::<O>(contents, levels),
        0 < l,
        l + 1 < levels.len(),
        levels[l].contains(f),
        !f.being_compacted,
    ensures
        compaction::inputs_from::<O>(l as nat, levels[l], levels[l + 1], f) == if can_go::<O>(
            f,
            levels[l + 1],
        ) {
            Some((seq![f], meeting::<O>(levels[l + 1], f)))
        } else {
            None
        },
{
    let files = levels[l];
    let below = levels[l + 1];
    contents::lemma_version_sound::<O>(contents, levels);
    assert(builder::all_comparable::<O>(files) && builder::all_comparable::<O>(below));
    let n = choose|n: int| 0 <= n < files.len() && files[n] == f;
    assert(files.subrange(n, n + 1) =~= seq![f]);
    selection::lemma_grown_same::<O>(l as nat, files, n, n + 1);
    assert(builder::comparable::<O>(files[n]));
    lemma_meeting_is::<O>(below, f);
    let (p, q) = selection::lemma_overlapping_range::<O>(below, f.infimum, f.supremum);
    selection::lemma_grown_same::<O>((l + 1) as nat, below, p, q);
    let out = meeting::<O>(below, f);
    assert(!compaction::any_busy(seq![f]));
    assert(compaction::any_busy(out) <==> !can_go::<O>(f, below));
    assert(compaction::inputs_for::<O>(
        (l + 1) as nat,
        below,
        Seq::empty(),
        f.infimum,
        f.supremum,
    ) == out);
    assert(compaction::range_of::<O>(l as nat, seq![f]) == (f.infimum, f.supremum));
}

/// What is taken of several candidates: the first that can go.
proof fn lemma_first_that_goes<O: KeyOrder>(
    contents: Map<TableFileRef, Seq<u8>>,
    levels: Seq<Seq<FileMeta>>,
    l: int,
    candidates: Seq<FileMeta>,
)
    requires
        contents::version_sound::<O>(contents, levels),
        0 < l,
        l + 1 < levels.len(),
        forall|i: int|
            0 <= i < candidates.len() ==> levels[l].contains(#[trigger] candidates[i])
                && !candidates[i].being_compacted,
    ensures
        match compaction::first_inputs::<O>(l as nat, levels[l], levels[l + 1], candidates) {
            Some((start, output)) => exists|n: int|
                {
                    &&& 0 <= n < candidates.len()
                    &&& start == seq![#[trigger] candidates[n]]
                    &&& output == meeting::<O>(levels[l + 1], candidates[n])
                    &&& can_go::<O>(candidates[n], levels[l + 1])
                    &&& forall|i: int|
                        0 <= i < n ==> !can_go::<O>(#[trigger] candidates[i], levels[l + 1])
                },
            None => forall|i: int|
                0 <= i < candidates.len() ==> !can_go::<O>(
                    #[trigger] candidates[i],
                    levels[l + 1],
                ),
        },
    decreases candidates.len(),
{
    if candidates.len() > 0 {
        let f = candidates[0];
        lemma_inputs_alone::<O>(contents, levels, l, f);
        if !can_go::<O>(f, levels[l + 1]) {
            let rest = candidates.drop_first();
            assert forall|i: int| 0 <= i < rest.len() implies levels[l].contains(
                #[trigger] rest[i],
            ) && !rest[i].being_compacted by {
                assert(rest[i] == candidates[i + 1]);
            }
            lemma_first_that_goes::<O>(contents, levels, l, rest);
            match compaction::first_inputs::<O>(l as nat, levels[l], levels[l + 1], candidates) {
                Some((start, output)) => {
                    let n = choose|n: int|
                        {
                            &&& 0 <= n < rest.len()
                            &&& start == seq![#[trigger] rest[n]]
                            &&& output == meeting::<O>(levels[l + 1], rest[n])
                            &&& can_go::<O>(rest[n], levels[l + 1])
                            &&& forall|i: int|
                                0 <= i < n ==> !can_go::<O>(#[trigger] rest[i], levels[l + 1])
                        };
                    assert(candidates[n + 1] == rest[n]);
                    assert forall|i: int| 0 <= i < n + 1 implies !can_go::<O>(
                        #[trigger] candidates[i],
                        levels[l + 1],
                    ) by {
                        if i > 0 {
                            assert(rest[i - 1] == candidates[i]);
                        }
                    }
                },
                None => {
                    assert forall|i: int| 0 <= i < candidates.len() implies !can_go::<O>(
                        #[trigger] candidates[i],
                        levels[l + 1],
                    ) by {
                        if i > 0 {
                            assert(rest[i - 1] == candidates[i]);
                        }
                    }
                },
            }
        }
    }
}

/// Of a level behind the first one file is compacted with all of the next level whose keys meet
/// its own, none of them being compacted: one of the largest for which this can be. Where there is
/// no such file nothing is picked.
pub proof fn lemma_largest_is_picked<O: KeyOrder>(
    contents: Map<TableFileRef, Seq<u8>>,
    levels: Seq<Seq<FileMeta>>,
    l: int,
    g: FileMeta,
)
    requires
        contents::version_sound::<O>(contents, levels),
        0 < l,
        l + 1 < levels.len(),
    ensures
        match compaction::picked::<O>(levels, l as nat) {
            Some((start, output)) => {
                &&& start.len() == 1
                &&& levels[l].contains(start[0])
                &&& can_go::<O>(start[0], levels[l + 1])
                &&& output == meeting::<O>(levels[l + 1], start[0])
                &&& levels[l].contains(g) && can_go::<O>(g, levels[l + 1]) ==> g.size
                    <= start[0].size
            },
            None => levels[l].contains(g) ==> !can_go::<O>(g, levels[l + 1]),
        },
{
    let files = levels[l];
    let below = levels[l + 1];
    let free = compaction::idle_files(files);
    let order = FileOrder::Largest;
    assert(compaction::pick_order(l as nat) == order);
    let candidates = builder::in_order::<O>(order, free);
    lemma_candidates::<O>(contents, levels, l, order);
    lemma_first_that_goes::<O>(contents, levels, l, candidates);
    if files.contains(g) && can_go::<O>(g, below) {
        assert(candidates.contains(g));
        let j = choose|j: int| 0 <= j < candidates.len() && candidates[j] == g;
        match compaction::picked::<O>(levels, l as nat) {
            Some((start, output)) => {
                let n = choose|n: int|
                    {
                        &&& 0 <= n < candidates.len()
                        &&& start == seq![#[trigger] candidates[n]]
                        &&& output == meeting::<O>(below, candidates[n])
                        &&& can_go::<O>(candidates[n], below)
                        &&& forall|i: int|
                            0 <= i < n ==> !can_go::<O>(#[trigger] candidates[i], below)
                    };
                if n < j {
                    assert(!builder::file_less::<O>(order, candidates[j], candidates[n]));
                }
            },
            None => {},
        }
    }
}

/// The candidates of a level are its files that are not being compacted, in an order.
pub proof fn lemma_candidates<O: KeyOrder>(
    contents: Map<TableFileRef, Seq<u8>>,
    levels: Seq<Seq<FileMeta>>,
    l: int,
    order: FileOrder,
)
    requires
        contents::version_sound::<O>(contents, levels),
        0 <= l < levels.len(),
    ensures
        ({
            let candidates = builder::in_order::<O>(order, compaction::idle_files(levels[l]));
            &&& builder::ordered::<O>(order, candidates)
            &&& forall|i: int|
                0 <= i < candidates.len() ==> levels[l].contains(#[trigger] candidates[i])
                    && !candidates[i].being_compacted
            &&& forall|f: FileMeta|
                levels[l].contains(f) && !f.being_compacted ==> #[trigger] candidates.contains(f)
        }),
{
    let files = levels[l];
    let free = compaction::idle_files(files);
    contents::lemma_version_sound::<O>(contents, levels);
    assert(builder::all_comparable::<O>(files));
    lemma_idle_is(files);
    lemma_idle_holds(files);
    assert forall|i: int| 0 <= i < free.len() implies builder::comparable::<O>(
        #[trigger] free[i],
    ) by {
        assert(free.contains(free[i]));
        let j = choose|j: int| 0 <= j < files.len() && files[j] == free[i];
        assert(builder::comparable::<O>(files[j]));
    }
    builder::lemma_in_order::<O>(order, free);
    contents::lemma_in_order_all::<O>(order, free);
    let candidates = builder::in_order::<O>(order, free);
    assert forall|i: int| 0 <= i < candidates.len() implies files.contains(#[trigger] candidates[i])
        && !candidates[i].being_compacted by {
        assert(candidates.contains(candidates[i]));
        assert(free.contains(candidates[i]));
    }
    assert forall|f: FileMeta|
        files.contains(f) && !f.being_compacted implies #[trigger] candidates.contains(f) by {
        assert(free.contains(f));
    }
}

proof fn lemma_idle_holds(files: Seq<FileMeta>)
    ensures
        forall|f: FileMeta| #[trigger]
            compaction::idle_files(files).contains(f) <==> files.contains(f) && !f.being_compacted,
    decreases files.len(),
{
    if files.len() > 0 {
        let init = files.drop_last();
        lemma_idle_holds(init);
        let free = compaction::idle_files(init);
        let out = compaction::idle_files(files);
        assert forall|f: FileMeta| #[trigger] out.contains(f) <==> files.contains(f)
            && !f.being_compacted by {
            if out.contains(f) {
                let i = choose|i: int| 0 <= i < out.len() && out[i] == f;
                if i < free.len() {
                    assert(free[i] == f);
                    assert(free.contains(f));
                    let j = choose|j: int| 0 <= j < init.len() && init[j] == f;
                    assert(files[j] == f);
                } else {
                    assert(files[files.len() - 1] == f);
                }
            }
            if files.contains(f) && !f.being_compacted {
                let j = choose|j: int| 0 <= j < files.len() && files[j] == f;
                if j < init.len() {
                    assert(init[j] == f);
                    assert(init.contains(f));
                    assert(free.contains(f));
                    let i = choose|i: int| 0 <= i < free.len() && free[i] == f;
                    assert(out[i] == f);
                } else {
                    assert(out[out.len() - 1] == f);
                }
            }
        }
    }
}

/// Of the first level some of the oldest files are compacted, as long as none of it and of the
/// next one is being compacted.
pub proof fn lemma_first_level_is_picked<O: KeyOrder>(
    contents: Map<TableFileRef, Seq<u8>>,
    levels: Seq<Seq<FileMeta>>,
)
    requires
        contents::version_sound::<O>(contents, levels),
        levels.len() > 1,
        levels[0].len() > 0,
        forall|i: int| 0 <= i < levels[0].len() ==> !(#[trigger] levels[0][i]).being_compacted,
        forall|i: int| 0 <= i < levels[1].len() ==> !(#[trigger] levels[1][i]).being_compacted,
    ensures
        compaction::picked::<O>(levels, 0) matches Some((start, _)) && 0 < start.len()
            <= levels[0].len() && start == levels[0].skip(levels[0].len() - start.len()),
{
    let files = levels[0];
    let below = levels[1];
    let order = FileOrder::Oldest;
    let candidates = builder::in_order::<O>(order, compaction::idle_files(files));
    lemma_candidates::<O>(contents, levels, 0, order);
    contents::lemma_version_sound::<O>(contents, levels);
    assert(files.contains(files[0]));
    assert(candidates.contains(files[0]));
    let f = candidates[0];
    assert(files.contains(f));
    let (s, e) = selection::lemma_start::<O>(0, files, f);
    let start = files.subrange(s, e);
    assert(start =~= files.skip(s));
    assert(!compaction::any_busy(start)) by {
        assert forall|i: int| 0 <= i < start.len() implies !(#[trigger] start[i]).being_compacted by {
            assert(start[i] == files[s + i]);
        }
    }
    let range = compaction::range_of::<O>(0, start);
    let (p, q) = selection::lemma_output::<O>(1, below, range.0, range.1);
    let output = below.subrange(p, q);
    assert(!compaction::any_busy(output)) by {
        assert forall|i: int| 0 <= i < output.len() implies !(
        #[trigger] output[i]).being_compacted by {
            assert(output[i] == below[p + i]);
        }
    }
    assert(compaction::inputs_from::<O>(0, files, below, f) == Some((start, output)));
}

/// The first level that is due and of which files can be compacted is picked, but for the first
/// one while it is being compacted. Where there is none, none is picked.
pub proof fn lemma_first_due_level_is_picked<O: KeyOrder>(
    levels: Seq<Seq<FileMeta>>,
    scores: Seq<CompactionScore>,
    busy: bool,
    from: nat,
    l: nat,
)
    requires
        from <= l < scores.len(),
    ensures
        match version::pick_from::<O>(levels, scores, busy, from) {
            Some((n, start, output)) => {
                &&& from <= n < scores.len()
                &&& scores[n as int].due()
                &&& !(n == 0 && busy)
                &&& compaction::picked::<O>(levels, n) == Some((start, output))
                &&& l < n && scores[l as int].due() && !(l == 0 && busy)
                    ==> compaction::picked::<O>(levels, l) is None
            },
            None => scores[l as int].due() && !(l == 0 && busy) ==> compaction::picked::<O>(
                levels,
                l,
            ) is None,
        },
    decreases scores.len() - from,
{
    selection::lemma_pick_from::<O>(levels, scores, busy, from);
    if from < l {
        lemma_first_due_level_is_picked::<O>(levels, scores, busy, from + 1, l);
    }
}

/// A compaction is picked where a level behind the first is due, and a file of it that can be
/// compacted: at that level, or at one above.
pub proof fn lemma_due_level_is_compacted<O: KeyOrder>(
    contents: Map<TableFileRef, Seq<u8>>,
    levels: Seq<Seq<FileMeta>>,
    opt: DbOptions,
    scores: Seq<CompactionScore>,
    busy: bool,
    l: int,
    f: FileMeta,
)
    requires
        contents::version_sound::<O>(contents, levels),
        compaction::sizes_fit(levels, opt),
        scores == Seq::new(
            levels.len(),
            |level: int| compaction::level_score(levels, opt, level),
        ),
        0 < l < levels.len() - 1,
        total_size(idle(levels[l])) >= 1,
        total_size(idle(levels[l])) >= opt.max_bytes_for_level_base * power::pow(
            opt.max_bytes_for_level_multiplier as int,
            l as nat,
        ),
        levels[l].contains(f),
        can_go::<O>(f, levels[l + 1]),
    ensures
        version::pick_from::<O>(levels, scores, busy, 0) matches Some((n, _, _)) && n <= l,
{
    lemma_scores_due(levels, opt, scores, l);
    lemma_first_due_level_is_picked::<O>(levels, scores, busy, 0, l as nat);
    lemma_largest_is_picked::<O>(contents, levels, l, f);
}

} // verus!

//! Which files of the first level are compacted together.
use crate::key::KeyOrder;
use crate::table::{FileMeta, TableFileRef};
use crate::transaction;
use crate::transaction::Timestamp;
use crate::version::builder;
use crate::version::builder::FileOrder;
use crate::version::compaction;
use crate::version::contents;
use crate::version::selection;
use vstd::prelude::*;

verus! {

/// How the files of a level are compared: by the numbers of their transactions, the greatest or
/// the least first, by their smallest keys, or by their sizes.
pub proof fn lemma_file_orders<O: KeyOrder>(a: FileMeta, b: FileMeta)
    requires
        a.min_xip.0 < 0x2000_0000_0000_0000,
        b.min_xip.0 < 0x2000_0000_0000_0000,
    ensures
        builder::file_less::<O>(FileOrder::Newest, a, b) <==> a.min_xip.0 > b.min_xip.0,
        builder::file_less::<O>(FileOrder::Oldest, a, b) <==> a.min_xip.0 < b.min_xip.0,
        builder::file_less::<O>(FileOrder::Smallest, a, b) <==> O::lt(a.infimum, b.infimum),
        builder::file_less::<O>(FileOrder::Largest, a, b) <==> a.size > b.size,
        FileOrder::of_level(0) == FileOrder::Newest,
        FileOrder::of_level(1) == FileOrder::Smallest,
{
    transaction::lemma_before_is_less(a.min_xip, b.min_xip);
    transaction::lemma_before_is_less(b.min_xip, a.min_xip);
}

/// Whether the keys of a file lie in between those of others: it neither ends before the least nor
/// starts behind the greatest of them.
pub open spec fn lies_among<O: KeyOrder>(g: FileMeta, files: Seq<FileMeta>) -> bool {
    &&& exists|i: int| 0 <= i < files.len() && !O::lt(g.supremum, (#[trigger] files[i]).infimum)
    &&& exists|i: int| 0 <= i < files.len() && !O::lt((#[trigger] files[i]).supremum, g.infimum)
}

/// Whether a file of the first level has to go with others: it is not younger than all of them, or
/// it is not being compacted and lies among them.
pub open spec fn has_to_go<O: KeyOrder>(g: FileMeta, files: Seq<FileMeta>) -> bool {
    ||| exists|i: int| 0 <= i < files.len() && g.min_xip.0 <= (#[trigger] files[i]).min_xip.0
    ||| !g.being_compacted && lies_among::<O>(g, files)
}

/// The files from one on go without the one before it.
pub open spec fn is_closed<O: KeyOrder>(files: Seq<FileMeta>, t: int) -> bool {
    t == 0 || !has_to_go::<O>(files[t - 1], files.skip(t))
}

/// The latest transaction of files is that of one of them, and none has a later one.
proof fn lemma_latest<O: KeyOrder>(files: Seq<FileMeta>) -> (n: int)
    requires
        files.len() > 0,
        builder::all_comparable::<O>(files),
    ensures
        0 <= n < files.len(),
        compaction::latest(files) == files[n].min_xip,
        forall|i: int| 0 <= i < files.len() ==> (#[trigger] files[i]).min_xip.0
            <= files[n].min_xip.0,
    decreases files.len(),
{
    let last = files.len() - 1;
    assert(builder::comparable::<O>(files[last]));
    if last == 0 {
        0
    } else {
        let init = files.drop_last();
        assert forall|i: int| 0 <= i < init.len() implies builder::comparable::<O>(
            #[trigger] init[i],
        ) by {
            assert(init[i] == files[i]);
        }
        let m = lemma_latest::<O>(init);
        assert(init[m] == files[m]);
        assert(builder::comparable::<O>(files[m]));
        transaction::lemma_before_is_less(files[m].min_xip, files[last].min_xip);
        let n = if files[m].min_xip != files[last].min_xip && !files[m].min_xip.before(
            files[last].min_xip,
        ) {
            m
        } else {
            last
        };
        assert forall|i: int| 0 <= i < files.len() implies (#[trigger] files[i]).min_xip.0
            <= files[n].min_xip.0 by {
            if i < last {
                assert(init[i] == files[i]);
            }
        }
        n
    }
}

/// The least and the greatest key of files are those of some of them.
proof fn lemma_extreme_files<O: KeyOrder>(files: Seq<FileMeta>) -> (r: (int, int))
    requires
        files.len() > 0,
    ensures
        0 <= r.0 < files.len(),
        0 <= r.1 < files.len(),
        compaction::least_key::<O>(files) == files[r.0].infimum,
        compaction::greatest_key::<O>(files) == files[r.1].supremum,
    decreases files.len(),
{
    let last = files.len() - 1;
    if last == 0 {
        (0, 0)
    } else {
        let init = files.drop_last();
        let (a, b) = lemma_extreme_files::<O>(init);
        assert(init[a] == files[a] && init[b] == files[b]);
        (
            if O::lt(files[last].infimum, compaction::least_key::<O>(init)) {
                last
            } else {
                a
            },
            if O::lt(compaction::greatest_key::<O>(init), files[last].supremum) {
                last
            } else {
                b
            },
        )
    }
}

/// What the selection of a compaction asks of a file is that it has to go with the others.
proof fn lemma_goes_with_is<O: KeyOrder>(g: FileMeta, files: Seq<FileMeta>)
    requires
        files.len() > 0,
        builder::all_comparable::<O>(files),
        builder::comparable::<O>(g),
    ensures
        compaction::goes_with::<O>(
            g,
            compaction::latest(files),
            compaction::range_of::<O>(0, files).0,
            compaction::range_of::<O>(0, files).1,
        ) <==> has_to_go::<O>(g, files),
{
    let n = lemma_latest::<O>(files);
    let (a, b) = lemma_extreme_files::<O>(files);
    let lo = files[a].infimum;
    let hi = files[b].supremum;
    selection::lemma_extremes::<O>(files);
    assert(builder::comparable::<O>(files[n]));
    assert(builder::comparable::<O>(files[a]) && builder::comparable::<O>(files[b]));
    transaction::lemma_before_is_less(g.min_xip, files[n].min_xip);
    if exists|i: int| 0 <= i < files.len() && g.min_xip.0 <= (#[trigger] files[i]).min_xip.0 {
        let i = choose|i: int|
            0 <= i < files.len() && g.min_xip.0 <= (#[trigger] files[i]).min_xip.0;
        assert(files[i].min_xip.0 <= files[n].min_xip.0);
    }
    assert((g.min_xip == files[n].min_xip || g.min_xip.before(files[n].min_xip)) <==> exists|i: int|
        0 <= i < files.len() && g.min_xip.0 <= (#[trigger] files[i]).min_xip.0);
    if lies_among::<O>(g, files) {
        let i = choose|i: int|
            0 <= i < files.len() && !O::lt(g.supremum, (#[trigger] files[i]).infimum);
        let j = choose|j: int|
            0 <= j < files.len() && !O::lt((#[trigger] files[j]).supremum, g.infimum);
        assert(builder::comparable::<O>(files[i]) && builder::comparable::<O>(files[j]));
        selection::lemma_at_most::<O>(lo, files[i].infimum, g.supremum);
        selection::lemma_at_most::<O>(g.infimum, files[j].supremum, hi);
    }
    if compaction::overlaps::<O>(g, lo, hi) {
        assert(!O::lt(g.supremum, files[a].infimum));
        assert(!O::lt(files[b].supremum, g.infimum));
    }
}

/// Where files of the end of a sequence start that all have to go with others.
proof fn lemma_goes_from_is<O: KeyOrder>(
    files: Seq<FileMeta>,
    max_ts: Timestamp,
    lo: Seq<u8>,
    hi: Seq<u8>,
)
    ensures
        ({
            let s = compaction::goes_from::<O>(files, max_ts, lo, hi) as int;
            &&& 0 <= s <= files.len()
            &&& forall|i: int|
                s <= i < files.len() ==> compaction::goes_with::<O>(
                    #[trigger] files[i],
                    max_ts,
                    lo,
                    hi,
                )
            &&& s > 0 ==> !compaction::goes_with::<O>(files[s - 1], max_ts, lo, hi)
        }),
    decreases files.len(),
{
    if files.len() > 0 {
        let init = files.drop_last();
        lemma_goes_from_is::<O>(init, max_ts, lo, hi);
        let s = compaction::goes_from::<O>(files, max_ts, lo, hi) as int;
        assert forall|i: int| s <= i < files.len() implies compaction::goes_with::<O>(
            #[trigger] files[i],
            max_ts,
            lo,
            hi,
        ) by {
            if i < init.len() {
                assert(init[i] == files[i]);
            }
        }
        if 0 < s < files.len() {
            assert(init[s - 1] == files[s - 1]);
        }
    }
}

proof fn lemma_part_comparable<O: KeyOrder>(files: Seq<FileMeta>, t: int)
    requires
        builder::all_comparable::<O>(files),
        0 <= t <= files.len(),
    ensures
        builder::all_comparable::<O>(files.skip(t)),
{
    assert forall|i: int| 0 <= i < files.skip(t).len() implies builder::comparable::<O>(
        #[trigger] files.skip(t)[i],
    ) by {
        assert(files.skip(t)[i] == files[t + i]);
    }
}

/// What has to go with some files has to go with more of them.
proof fn lemma_more_to_go<O: KeyOrder>(g: FileMeta, few: Seq<FileMeta>, more: Seq<FileMeta>)
    requires
        has_to_go::<O>(g, few),
        forall|i: int| 0 <= i < few.len() ==> more.contains(#[trigger] few[i]),
    ensures
        has_to_go::<O>(g, more),
{
    if exists|i: int| 0 <= i < few.len() && g.min_xip.0 <= (#[trigger] few[i]).min_xip.0 {
        let i = choose|i: int| 0 <= i < few.len() && g.min_xip.0 <= (#[trigger] few[i]).min_xip.0;
        assert(more.contains(few[i]));
        let j = choose|j: int| 0 <= j < more.len() && more[j] == few[i];
        assert(g.min_xip.0 <= more[j].min_xip.0);
    } else {
        let a = choose|a: int|
            0 <= a < few.len() && !O::lt(g.supremum, (#[trigger] few[a]).infimum);
        let b = choose|b: int|
            0 <= b < few.len() && !O::lt((#[trigger] few[b]).supremum, g.infimum);
        assert(more.contains(few[a]) && more.contains(few[b]));
        let c = choose|c: int| 0 <= c < more.len() && more[c] == few[a];
        let d = choose|d: int| 0 <= d < more.len() && more[d] == few[b];
        assert(!O::lt(g.supremum, more[c].infimum));
        assert(!O::lt(more[d].supremum, g.infimum));
    }
}

/// Growing a selection of the first level, which is one file or the oldest ones from one on.
proof fn lemma_grown_is<O: KeyOrder>(
    files: Seq<FileMeta>,
    selection: Seq<FileMeta>,
    m: int,
    t: int,
) -> (s: int)
    requires
        builder::all_comparable::<O>(files),
        builder::ordered::<O>(FileOrder::Newest, files),
        0 <= t <= m < files.len(),
        selection == seq![files[m]] || selection == files.skip(m),
        is_closed::<O>(files, t),
    ensures
        t <= s <= m,
        compaction::grown::<O>(0, files, selection) == files.skip(s),
        is_closed::<O>(files, s),
    decreases files.len() - selection.len(),
{
    lemma_part_comparable::<O>(files, m);
    assert(builder::comparable::<O>(files[m]));
    assert(files.skip(m)[0] == files[m]);
    assert(selection.len() > 0 && selection[0] == files[m]);
    assert(builder::all_comparable::<O>(selection)) by {
        assert forall|i: int| 0 <= i < selection.len() implies builder::comparable::<O>(
            #[trigger] selection[i],
        ) by {
            assert(selection == files.skip(m) ==> builder::comparable::<O>(files.skip(m)[i]));
        }
    }
    let range = compaction::range_of::<O>(0, selection);
    let ts = compaction::latest(selection);
    let s = compaction::goes_from::<O>(files, ts, range.0, range.1) as int;
    let next = compaction::inputs_for::<O>(0, files, selection, range.0, range.1);
    lemma_goes_from_is::<O>(files, ts, range.0, range.1);
    assert(next == files.skip(s));
    // All from the first file of the selection on are not younger than it.
    if s > m {
        assert(builder::comparable::<O>(files[s - 1]));
        lemma_goes_with_is::<O>(files[s - 1], selection);
        if s - 1 > m {
            assert(!builder::file_less::<O>(FileOrder::Newest, files[s - 1], files[m]));
            lemma_file_orders::<O>(files[s - 1], files[m]);
        }
        assert(files[s - 1].min_xip.0 <= selection[0].min_xip.0);
        assert(false);
    }
    // The closed part is not left.
    assert(t <= s) by {
        if s < t {
            let g = files[t - 1];
            assert(builder::comparable::<O>(g));
            lemma_goes_with_is::<O>(g, selection);
            assert(has_to_go::<O>(g, selection));
            let more = files.skip(t);
            assert forall|i: int| 0 <= i < selection.len() implies more.contains(
                #[trigger] selection[i],
            ) by {
                if selection == seq![files[m]] {
                    assert(more[m - t] == files[m]);
                } else {
                    assert(files.skip(m)[i] == files[m + i]);
                    assert(more[m - t + i] == files[m + i]);
                }
            }
            lemma_more_to_go::<O>(g, selection, more);
        }
    }
    if next.len() <= selection.len() {
        assert(s == m);
        assert(next =~= selection) by {
            if selection == seq![files[m]] {
                assert(files.skip(m) =~= seq![files[m]]);
            }
        }
        if s > 0 {
            assert(builder::comparable::<O>(files[s - 1]));
            lemma_goes_with_is::<O>(files[s - 1], selection);
        }
        s
    } else {
        lemma_grown_is::<O>(files, next, s, t)
    }
}

/// A file of the first level is compacted with all those that have to go with it, and with what
/// has to go with these: all those from some file on. The one before them does not have to go
/// with them, and they are no more than any other files from some file on of which that holds
/// and that have the file. If one of them is being compacted, none of them is compacted.
pub proof fn lemma_first_level_inputs<O: KeyOrder>(
    contents: Map<TableFileRef, Seq<u8>>,
    levels: Seq<Seq<FileMeta>>,
    n: int,
    t: int,
) -> (s: int)
    requires
        contents::version_sound::<O>(contents, levels),
        levels.len() > 1,
        0 <= t <= n < levels[0].len(),
        is_closed::<O>(levels[0], t),
    ensures
        t <= s <= n,
        is_closed::<O>(levels[0], s),
        compaction::grown::<O>(0, levels[0], seq![levels[0][n]]) == levels[0].skip(s),
        compaction::inputs_from::<O>(0, levels[0], levels[1], levels[0][n]) matches Some(
            (start, _),
        ) ==> start == levels[0].skip(s),
        (exists|i: int| s <= i < levels[0].len() && (#[trigger] levels[0][i]).being_compacted)
            ==> compaction::inputs_from::<O>(0, levels[0], levels[1], levels[0][n]) is None,
{
    let files = levels[0];
    contents::lemma_version_sound::<O>(contents, levels);
    assert(builder::all_comparable::<O>(files));
    let s = lemma_grown_is::<O>(files, seq![files[n]], n, t);
    let all = files.skip(s);
    if exists|i: int| s <= i < files.len() && (#[trigger] files[i]).being_compacted {
        let i = choose|i: int| s <= i < files.len() && (#[trigger] files[i]).being_compacted;
        assert(all[i - s] == files[i]);
        assert(compaction::any_busy(all));
    }
    s
}

/// What is picked of the first level is what goes with the oldest of its files that are not being
/// compacted, and nothing where there is none or where that one cannot be compacted.
pub proof fn lemma_oldest_is_tried<O: KeyOrder>(
    contents: Map<TableFileRef, Seq<u8>>,
    levels: Seq<Seq<FileMeta>>,
) -> (f: FileMeta)
    requires
        contents::version_sound::<O>(contents, levels),
        levels.len() > 1,
    ensures
        (forall|i: int| 0 <= i < levels[0].len() ==> (#[trigger] levels[0][i]).being_compacted)
            ==> compaction::picked::<O>(levels, 0) is None,
        (exists|i: int| 0 <= i < levels[0].len() && !(#[trigger] levels[0][i]).being_compacted)
            ==> {
            &&& levels[0].contains(f)
            &&& !f.being_compacted
            &&& forall|i: int|
                0 <= i < levels[0].len() && !(#[trigger] levels[0][i]).being_compacted
                    ==> f.min_xip.0 <= levels[0][i].min_xip.0
            &&& compaction::picked::<O>(levels, 0) == compaction::inputs_from::<O>(
                0,
                levels[0],
                levels[1],
                f,
            )
        },
{
    let files = levels[0];
    let order = FileOrder::Oldest;
    let candidates = builder::in_order::<O>(order, compaction::idle_files(files));
    crate::version::picking::lemma_candidates::<O>(contents, levels, 0, order);
    contents::lemma_version_sound::<O>(contents, levels);
    assert(builder::all_comparable::<O>(files));
    if candidates.len() == 0 {
        assert forall|i: int| 0 <= i < files.len() implies (
        #[trigger] files[i]).being_compacted by {
            assert(files.contains(files[i]));
            assert(!candidates.contains(files[i]));
        }
        files[0]
    } else {
        let f = candidates[0];
        assert(files.contains(f) && !f.being_compacted);
        let at = choose|at: int| 0 <= at < files.len() && files[at] == f;
        assert(!files[at].being_compacted);
        assert forall|i: int|
            0 <= i < files.len() && !(#[trigger] files[i]).being_compacted implies f.min_xip.0
            <= files[i].min_xip.0 by {
            assert(files.contains(files[i]));
            assert(candidates.contains(files[i]));
            let j = choose|j: int| 0 <= j < candidates.len() && candidates[j] == files[i];
            assert(builder::comparable::<O>(files[i]) && builder::comparable::<O>(files[at]));
            lemma_file_orders::<O>(files[i], f);
            if j > 0 {
                assert(!builder::file_less::<O>(order, candidates[j], candidates[0]));
            }
        }
        f
    }
}

} // verus!

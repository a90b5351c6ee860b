//! What is known of the files that are picked for a compaction.
use crate::key::KeyOrder;
use crate::table::{FileMeta, TableFileRef};
use crate::version;
use crate::version::builder;
use crate::version::builder::FileOrder;
use crate::version::compaction;
use crate::version::contents;
use crate::version::CompactionScore;
use vstd::prelude::*;

verus! {

/// Of files without overlaps, those that overlap a range stand next to each other.
pub proof fn lemma_overlapping_range<O: KeyOrder>(
    files: Seq<FileMeta>,
    lo: Seq<u8>,
    hi: Seq<u8>,
) -> (r: (int, int))
    requires
        contents::disjoint::<O>(files),
        builder::all_comparable::<O>(files),
        O::valid(lo),
        O::valid(hi),
        !O::lt(hi, lo),
    ensures
        0 <= r.0 <= r.1 <= files.len(),
        compaction::overlapping::<O>(files, lo, hi) == files.subrange(r.0, r.1),
        forall|i: int| 0 <= i < r.0 ==> O::lt((#[trigger] files[i]).supremum, lo),
        forall|i: int| r.1 <= i < files.len() ==> O::lt(hi, (#[trigger] files[i]).infimum),
        forall|i: int|
            r.0 <= i < r.1 ==> compaction::overlaps::<O>(#[trigger] files[i], lo, hi),
    decreases files.len(),
{
    if files.len() == 0 {
        assert(files.subrange(0, 0) =~= files);
        (0, 0)
    } else {
        let init = files.drop_last();
        let n = init.len() as int;
        let last = files[n];
        assert(builder::comparable::<O>(last));
        assert forall|i: int| 0 <= i < n implies builder::comparable::<O>(
            #[trigger] init[i],
        ) by {
            assert(init[i] == files[i]);
        }
        assert forall|i: int, j: int| 0 <= i < j < n implies O::lt(
            (#[trigger] init[i]).supremum,
            (#[trigger] init[j]).infimum,
        ) by {
            assert(init[i] == files[i] && init[j] == files[j]);
        }
        let (p, q) = lemma_overlapping_range::<O>(init, lo, hi);
        if compaction::overlaps::<O>(last, lo, hi) {
            if q < n {
                assert(builder::comparable::<O>(files[q]));
                assert(O::lt(hi, init[q].infimum));
                assert(O::lt(files[q].supremum, last.infimum));
                lemma_below_all::<O>(hi, files[q], last);
            }
            assert(q == n);
            assert(init.subrange(p, q).push(last) =~= files.subrange(p, n + 1));
            assert forall|i: int| 0 <= i < p implies O::lt((#[trigger] files[i]).supremum, lo) by {
                assert(init[i] == files[i]);
            }
            assert forall|i: int| p <= i < n + 1 implies compaction::overlaps::<O>(
                #[trigger] files[i],
                lo,
                hi,
            ) by {
                if i < n {
                    assert(init[i] == files[i]);
                }
            }
            (p, n + 1)
        } else if O::lt(last.supremum, lo) {
            assert forall|i: int| 0 <= i < n + 1 implies O::lt(
                (#[trigger] files[i]).supremum,
                lo,
            ) by {
                if i < n {
                    assert(builder::comparable::<O>(files[i]));
                    assert(O::lt(files[i].supremum, files[n].infimum));
                    if last.infimum != last.supremum {
                        O::total(last.infimum, last.supremum);
                        O::transitive(files[i].supremum, last.infimum, last.supremum);
                    }
                    O::transitive(files[i].supremum, last.supremum, lo);
                }
            }
            if p < q {
                assert(init[p] == files[p]);
                assert(compaction::overlaps::<O>(init[p], lo, hi));
            }
            assert(init.subrange(p, q) =~= files.subrange(n + 1, n + 1));
            (n + 1, n + 1)
        } else {
            assert(init.subrange(p, q) =~= files.subrange(p, q));
            assert forall|i: int| 0 <= i < p implies O::lt((#[trigger] files[i]).supremum, lo) by {
                assert(init[i] == files[i]);
            }
            assert forall|i: int| q <= i < n + 1 implies O::lt(
                hi,
                (#[trigger] files[i]).infimum,
            ) by {
                if i < n {
                    assert(init[i] == files[i]);
                }
            }
            assert forall|i: int| p <= i < q implies compaction::overlaps::<O>(
                #[trigger] files[i],
                lo,
                hi,
            ) by {
                assert(init[i] == files[i]);
            }
            (p, q)
        }
    }
}

/// What is below a file is below those that follow it.
proof fn lemma_below_all<O: KeyOrder>(k: Seq<u8>, f: FileMeta, g: FileMeta)
    requires
        builder::comparable::<O>(f),
        builder::comparable::<O>(g),
        O::valid(k),
        O::lt(k, f.infimum),
        O::lt(f.supremum, g.infimum),
    ensures
        O::lt(k, g.infimum),
{
    if f.infimum != f.supremum {
        O::total(f.infimum, f.supremum);
        O::transitive(k, f.infimum, f.supremum);
    }
    O::transitive(k, f.supremum, g.infimum);
}

/// Files without overlaps that stand next to each other do not grow.
pub proof fn lemma_grown_same<O: KeyOrder>(level: nat, files: Seq<FileMeta>, p: int, q: int)
    requires
        level > 0,
        contents::disjoint::<O>(files),
        builder::all_comparable::<O>(files),
        0 <= p <= q <= files.len(),
    ensures
        compaction::grown::<O>(level, files, files.subrange(p, q)) == files.subrange(p, q),
{
    let selection = files.subrange(p, q);
    if p < q {
        let lo = files[p].infimum;
        let hi = files[q - 1].supremum;
        assert(builder::comparable::<O>(files[p]));
        assert(builder::comparable::<O>(files[q - 1]));
        assert(compaction::range_of::<O>(level, selection) == (lo, hi));
        if p < q - 1 {
            assert(O::lt(files[p].supremum, files[q - 1].infimum));
            if O::lt(hi, lo) {
                lemma_below_all::<O>(hi, files[p], files[q - 1]);
            }
        }
        let (a, b) = lemma_overlapping_range::<O>(files, lo, hi);
        O::irreflexive(lo);
        O::irreflexive(hi);
        if a > p {
            assert(O::lt(files[p].supremum, lo));
        }
        if a < p {
            assert(O::lt(files[a].supremum, files[p].infimum));
            if a < b {
                assert(compaction::overlaps::<O>(files[a], lo, hi));
            } else {
                assert(O::lt(hi, files[q - 1].infimum));
            }
        }
        if b < q {
            assert(O::lt(hi, files[q - 1].infimum));
        }
        if b > q {
            assert(O::lt(files[q - 1].supremum, files[b - 1].infimum));
            assert(compaction::overlaps::<O>(files[b - 1], lo, hi));
        }
        assert(a == p && b == q);
    }
}

/// Growing a selection of level 0 gives the oldest of its files.
proof fn lemma_grown_oldest<O: KeyOrder>(files: Seq<FileMeta>, selection: Seq<FileMeta>) -> (s: int)
    requires
        selection.len() > 0,
    ensures
        0 <= s <= files.len(),
        compaction::grown::<O>(0, files, selection) == files.skip(s),
    decreases files.len() - selection.len(),
{
    let range = compaction::range_of::<O>(0, selection);
    let next = compaction::inputs_for::<O>(0, files, selection, range.0, range.1);
    let s = compaction::goes_from::<O>(
        files,
        compaction::latest(selection),
        range.0,
        range.1,
    ) as int;
    compaction::lemma_goes_from::<O>(files, compaction::latest(selection), range.0, range.1);
    if next.len() <= selection.len() {
        s
    } else {
        lemma_grown_oldest::<O>(files, next)
    }
}

/// No file has keys outside the least and the greatest one.
pub proof fn lemma_extremes<O: KeyOrder>(files: Seq<FileMeta>)
    requires
        files.len() > 0,
        builder::all_comparable::<O>(files),
    ensures
        O::valid(compaction::least_key::<O>(files)),
        O::valid(compaction::greatest_key::<O>(files)),
        forall|i: int|
            0 <= i < files.len() ==> !O::lt(
                (#[trigger] files[i]).infimum,
                compaction::least_key::<O>(files),
            ) && !O::lt(compaction::greatest_key::<O>(files), files[i].supremum),
        !O::lt(compaction::greatest_key::<O>(files), compaction::least_key::<O>(files)),
    decreases files.len(),
{
    let n = files.len() - 1;
    let last = files[n];
    assert(builder::comparable::<O>(last));
    O::irreflexive(last.infimum);
    O::irreflexive(last.supremum);
    if n > 0 {
        let init = files.drop_last();
        assert forall|i: int| 0 <= i < n implies builder::comparable::<O>(
            #[trigger] init[i],
        ) by {
            assert(init[i] == files[i]);
        }
        lemma_extremes::<O>(init);
        let lo = compaction::least_key::<O>(files);
        let hi = compaction::greatest_key::<O>(files);
        let lo0 = compaction::least_key::<O>(init);
        let hi0 = compaction::greatest_key::<O>(init);
        assert forall|i: int| 0 <= i <= n implies !O::lt((#[trigger] files[i]).infimum, lo)
            && !O::lt(hi, files[i].supremum) by {
            if i < n {
                assert(init[i] == files[i]);
                assert(builder::comparable::<O>(files[i]));
                if O::lt(files[i].infimum, lo) {
                    O::transitive(files[i].infimum, last.infimum, lo0);
                }
                if O::lt(hi, files[i].supremum) {
                    O::transitive(hi0, last.supremum, files[i].supremum);
                }
            }
        }
        if O::lt(hi, lo) {
            // The last file lies between them.
            lemma_at_most::<O>(lo, last.infimum, last.supremum);
            lemma_at_most::<O>(lo, last.supremum, hi);
        }
    }
}

/// What is at most another key is at most what that one is at most.
pub proof fn lemma_at_most<O: KeyOrder>(a: Seq<u8>, b: Seq<u8>, c: Seq<u8>)
    requires
        O::valid(a),
        O::valid(b),
        O::valid(c),
        !O::lt(b, a),
        !O::lt(c, b),
    ensures
        !O::lt(c, a),
{
    if O::lt(c, a) && a != b {
        O::total(a, b);
        O::transitive(c, a, b);
    }
}

/// A key below a bound of a file is below what the bound is at most.
proof fn lemma_below_bound<O: KeyOrder>(a: Seq<u8>, b: Seq<u8>, c: Seq<u8>)
    requires
        O::valid(a),
        O::valid(b),
        O::valid(c),
        O::lt(a, b),
        !O::lt(c, b),
    ensures
        O::lt(a, c),
{
    if b != c {
        O::total(b, c);
        O::transitive(a, b, c);
    }
}

proof fn lemma_bound_below<O: KeyOrder>(a: Seq<u8>, b: Seq<u8>, c: Seq<u8>)
    requires
        O::valid(a),
        O::valid(b),
        O::valid(c),
        !O::lt(b, a),
        O::lt(b, c),
    ensures
        O::lt(a, c),
{
    if a != b {
        O::total(a, b);
        O::transitive(a, b, c);
    }
}

/// The selection that a file grows to, and the range of its keys.
pub proof fn lemma_start<O: KeyOrder>(level: nat, files: Seq<FileMeta>, f: FileMeta) -> (r: (int, int))
    requires
        builder::all_comparable::<O>(files),
        builder::ordered::<O>(FileOrder::of_level(level), files),
        level > 0 ==> contents::disjoint::<O>(files),
        files.contains(f),
    ensures
        0 <= r.0 < r.1 <= files.len(),
        level == 0 ==> r.1 == files.len(),
        compaction::grown::<O>(level, files, seq![f]) == files.subrange(r.0, r.1),
        ({
            let range = compaction::range_of::<O>(level, files.subrange(r.0, r.1));
            &&& O::valid(range.0)
            &&& O::valid(range.1)
            &&& !O::lt(range.1, range.0)
            &&& forall|j: int|
                r.0 <= j < r.1 ==> !O::lt((#[trigger] files[j]).infimum, range.0) && !O::lt(
                    range.1,
                    files[j].supremum,
                )
        }),
{
    let n = choose|n: int| 0 <= n < files.len() && files[n] == f;
    let first = seq![f];
    assert(builder::comparable::<O>(files[n]));
    if level == 0 {
        let s = lemma_grown_oldest::<O>(files, first);
        let start = files.subrange(s, files.len() as int);
        assert(files.skip(s) =~= start);
        assert(files.contains(first.last()));
        compaction::lemma_grown_has::<O>(0, files, first);
        assert forall|i: int| 0 <= i < start.len() implies builder::comparable::<O>(
            #[trigger] start[i],
        ) by {
            assert(start[i] == files[s + i]);
        }
        lemma_extremes::<O>(start);
        let range = compaction::range_of::<O>(level, start);
        assert forall|j: int| s <= j < files.len() implies !O::lt(
            (#[trigger] files[j]).infimum,
            range.0,
        ) && !O::lt(range.1, files[j].supremum) by {
            assert(start[j - s] == files[j]);
        }
        (s, files.len() as int)
    } else {
        assert(files.subrange(n, n + 1) =~= first);
        lemma_grown_same::<O>(level, files, n, n + 1);
        O::irreflexive(f.infimum);
        O::irreflexive(f.supremum);
        (n, n + 1)
    }
}

/// The files of the next level that overlap a range, as a selection.
pub proof fn lemma_output<O: KeyOrder>(
    level: nat,
    below: Seq<FileMeta>,
    lo: Seq<u8>,
    hi: Seq<u8>,
) -> (r: (int, int))
    requires
        builder::all_comparable::<O>(below),
        contents::disjoint::<O>(below),
        level > 0,
        O::valid(lo),
        O::valid(hi),
        !O::lt(hi, lo),
    ensures
        0 <= r.0 <= r.1 <= below.len(),
        compaction::grown::<O>(
            level,
            below,
            compaction::inputs_for::<O>(level, below, Seq::empty(), lo, hi),
        ) == below.subrange(r.0, r.1),
        forall|i: int| 0 <= i < r.0 ==> O::lt((#[trigger] below[i]).supremum, lo),
        forall|i: int| r.1 <= i < below.len() ==> O::lt(hi, (#[trigger] below[i]).infimum),
{
    let (p, q) = lemma_overlapping_range::<O>(below, lo, hi);
    lemma_grown_same::<O>(level, below, p, q);
    (p, q)
}

/// The files to compact together when a compaction starts with a file can be compacted together,
/// and none of them is being compacted.
proof fn lemma_inputs_from<O: KeyOrder>(
    contents: Map<TableFileRef, Seq<u8>>,
    levels: Seq<Seq<FileMeta>>,
    l: int,
    f: FileMeta,
) -> (r: (int, int, int, int))
    requires
        contents::version_sound::<O>(contents, levels),
        0 <= l,
        l + 1 < levels.len(),
        levels[l].contains(f),
        compaction::inputs_from::<O>(l as nat, levels[l], levels[l + 1], f) is Some,
    ensures
        contents::selected::<O>(levels, l, r.0, r.1, r.2, r.3),
        compaction::inputs_from::<O>(l as nat, levels[l], levels[l + 1], f) == Some(
            (levels[l].subrange(r.0, r.1), levels[l + 1].subrange(r.2, r.3)),
        ),
        !compaction::any_busy(levels[l].subrange(r.0, r.1)),
        !compaction::any_busy(levels[l + 1].subrange(r.2, r.3)),
{
    let files = levels[l];
    let below = levels[l + 1];
    let level = l as nat;
    assert(builder::all_comparable::<O>(files) && builder::ordered::<O>(
        FileOrder::of_level(level),
        files,
    ) && builder::all_comparable::<O>(below)) by {
        contents::lemma_version_sound::<O>(contents, levels);
    }
    let (s, e) = lemma_start::<O>(level, files, f);
    let range = compaction::range_of::<O>(level, files.subrange(s, e));
    let (p, q) = lemma_output::<O>(level + 1, below, range.0, range.1);
    assert forall|i: int, j: int| 0 <= i < p && s <= j < e implies O::lt(
        (#[trigger] below[i]).supremum,
        (#[trigger] files[j]).infimum,
    ) by {
        assert(builder::comparable::<O>(below[i]));
        assert(builder::comparable::<O>(files[j]));
        lemma_below_bound::<O>(below[i].supremum, range.0, files[j].infimum);
    }
    assert forall|i: int, j: int| q <= i < below.len() && s <= j < e implies O::lt(
        (#[trigger] files[j]).supremum,
        (#[trigger] below[i]).infimum,
    ) by {
        assert(builder::comparable::<O>(below[i]));
        assert(builder::comparable::<O>(files[j]));
        lemma_bound_below::<O>(files[j].supremum, range.1, below[i].infimum);
    }
    (s, e, p, q)
}

proof fn lemma_first_inputs<O: KeyOrder>(
    contents: Map<TableFileRef, Seq<u8>>,
    levels: Seq<Seq<FileMeta>>,
    l: int,
    candidates: Seq<FileMeta>,
) -> (r: (int, int, int, int))
    requires
        contents::version_sound::<O>(contents, levels),
        0 <= l,
        l + 1 < levels.len(),
        forall|f: FileMeta| #[trigger] candidates.contains(f) ==> levels[l].contains(f),
        compaction::first_inputs::<O>(l as nat, levels[l], levels[l + 1], candidates) is Some,
    ensures
        contents::selected::<O>(levels, l, r.0, r.1, r.2, r.3),
        compaction::first_inputs::<O>(l as nat, levels[l], levels[l + 1], candidates) == Some(
            (levels[l].subrange(r.0, r.1), levels[l + 1].subrange(r.2, r.3)),
        ),
        !compaction::any_busy(levels[l].subrange(r.0, r.1)),
        !compaction::any_busy(levels[l + 1].subrange(r.2, r.3)),
    decreases candidates.len(),
{
    let f = candidates[0];
    assert(candidates.contains(f));
    if compaction::inputs_from::<O>(l as nat, levels[l], levels[l + 1], f) is Some {
        lemma_inputs_from::<O>(contents, levels, l, f)
    } else {
        let rest = candidates.drop_first();
        assert forall|g: FileMeta| #[trigger] rest.contains(g) implies levels[l].contains(g) by {
            let i = choose|i: int| 0 <= i < rest.len() && rest[i] == g;
            assert(candidates[i + 1] == g);
            assert(candidates.contains(g));
        }
        lemma_first_inputs::<O>(contents, levels, l, rest)
    }
}

/// The files that are picked can be compacted together: they stand next to each other, of level 0
/// they are the oldest ones, and the other files of the next level lie below or above all of them.
/// None of them is being compacted.
pub proof fn lemma_picked<O: KeyOrder>(
    contents: Map<TableFileRef, Seq<u8>>,
    levels: Seq<Seq<FileMeta>>,
    l: int,
) -> (r: (int, int, int, int))
    requires
        contents::version_sound::<O>(contents, levels),
        0 <= l,
        l + 1 < levels.len(),
        compaction::picked::<O>(levels, l as nat) is Some,
    ensures
        contents::selected::<O>(levels, l, r.0, r.1, r.2, r.3),
        compaction::picked::<O>(levels, l as nat) == Some(
            (levels[l].subrange(r.0, r.1), levels[l + 1].subrange(r.2, r.3)),
        ),
        !compaction::any_busy(levels[l].subrange(r.0, r.1)),
        !compaction::any_busy(levels[l + 1].subrange(r.2, r.3)),
{
    let files = levels[l];
    contents::lemma_version_sound::<O>(contents, levels);
    assert(builder::all_valid::<O>(files));
    compaction::lemma_idle::<O>(files);
    let idle = compaction::idle_files(files);
    let order = compaction::pick_order(l as nat);
    let candidates = builder::in_order::<O>(order, idle);
    contents::lemma_in_order_all::<O>(order, idle);
    assert forall|f: FileMeta| #[trigger] candidates.contains(f) implies files.contains(f) by {
        assert(idle.contains(f));
    }
    lemma_first_inputs::<O>(contents, levels, l, candidates)
}

/// Whether two versions differ in nothing but which files are marked as being compacted.
pub open spec fn same_but_marks(a: Seq<Seq<FileMeta>>, b: Seq<Seq<FileMeta>>) -> bool {
    &&& a.len() == b.len()
    &&& forall|l: int| 0 <= l < a.len() ==> same_files(#[trigger] a[l], b[l])
}

/// Whether files differ in nothing but their marks.
pub open spec fn same_files(a: Seq<FileMeta>, b: Seq<FileMeta>) -> bool {
    &&& a.len() == b.len()
    &&& forall|i: int|
        0 <= i < a.len() ==> #[trigger] b[i] == (FileMeta {
            being_compacted: b[i].being_compacted,
            ..a[i]
        })
}

/// Marking files changes nothing but marks.
pub proof fn lemma_marking<O: KeyOrder>(
    levels: Seq<Seq<FileMeta>>,
    level: usize,
    start: Seq<FileMeta>,
    output: Seq<FileMeta>,
)
    ensures
        same_but_marks(
            levels,
            builder::edited::<O>(levels, version::marking(level, start, output)),
        ),
{
    let edit = version::marking(level, start, output);
    let after = builder::edited::<O>(levels, edit);
    assert forall|l: int| 0 <= l < levels.len() implies same_files(
        #[trigger] levels[l],
        after[l],
    ) by {
        version::lemma_marked_level::<O>(levels[l], l as nat, edit);
    }
}

proof fn lemma_marks_first_value(
    contents: Map<TableFileRef, Seq<u8>>,
    a: Seq<FileMeta>,
    b: Seq<FileMeta>,
    k: Seq<u8>,
)
    requires
        same_files(a, b),
    ensures
        contents::first_value(contents, a, k) == contents::first_value(contents, b, k),
    decreases a.len(),
{
    if a.len() > 0 {
        let x = a.drop_first();
        let y = b.drop_first();
        assert(b[0] == (FileMeta { being_compacted: b[0].being_compacted, ..a[0] }));
        assert forall|i: int| 0 <= i < x.len() implies #[trigger] y[i] == (FileMeta {
            being_compacted: y[i].being_compacted,
            ..x[i]
        }) by {
            assert(y[i] == b[i + 1] && x[i] == a[i + 1]);
        }
        lemma_marks_first_value(contents, x, y, k);
    }
}

/// Marks do not matter for whether a version is sound.
pub proof fn lemma_marks_keep_sound<O: KeyOrder>(
    contents: Map<TableFileRef, Seq<u8>>,
    a: Seq<Seq<FileMeta>>,
    b: Seq<Seq<FileMeta>>,
)
    requires
        contents::version_sound::<O>(contents, a),
        same_but_marks(a, b),
    ensures
        contents::version_sound::<O>(contents, b),
{
    assert forall|l: int| 0 <= l < b.len() implies contents::files_sound::<O>(
        contents,
        #[trigger] b[l],
    ) && (l == 0 ==> builder::ordered::<O>(FileOrder::Newest, b[l])) && (l >= 1
        ==> contents::disjoint::<O>(b[l])) by {
        assert(contents::files_sound::<O>(contents, a[l]));
        if l >= 1 {
            assert(contents::disjoint::<O>(a[l]));
        }
        lemma_marks_keep_files::<O>(contents, a[l], b[l]);
    }
}

proof fn lemma_marks_keep_files<O: KeyOrder>(
    contents: Map<TableFileRef, Seq<u8>>,
    a: Seq<FileMeta>,
    b: Seq<FileMeta>,
)
    requires
        contents::files_sound::<O>(contents, a),
        same_files(a, b),
    ensures
        contents::files_sound::<O>(contents, b),
        builder::ordered::<O>(FileOrder::Newest, a) ==> builder::ordered::<O>(
            FileOrder::Newest,
            b,
        ),
        contents::disjoint::<O>(a) ==> contents::disjoint::<O>(b),
{
    assert forall|i: int| 0 <= i < b.len() implies contents::file_sound::<O>(
        contents,
        #[trigger] b[i],
    ) by {
        assert(contents::file_sound::<O>(contents, a[i]));
        assert forall|j: int| 0 <= j < contents::entries_in(contents, b[i]).len() implies
            version::in_range::<O>(b[i], (#[trigger] contents::entries_in(contents, b[i])[j]).0) by {
            assert(version::in_range::<O>(a[i], contents::entries_in(contents, a[i])[j].0));
        }
    }
    assert forall|i: int, j: int| 0 <= i < j < b.len() implies (#[trigger] b[i]).file_ref != (
    #[trigger] b[j]).file_ref by {
        assert(a[i].file_ref != a[j].file_ref);
    }
    if builder::ordered::<O>(FileOrder::Newest, a) {
        assert forall|i: int, j: int| 0 <= i < j < b.len() implies !builder::file_less::<O>(
            FileOrder::Newest,
            #[trigger] b[j],
            #[trigger] b[i],
        ) by {
            assert(!builder::file_less::<O>(FileOrder::Newest, a[j], a[i]));
        }
    }
    if contents::disjoint::<O>(a) {
        assert forall|i: int, j: int| 0 <= i < j < b.len() implies O::lt(
            (#[trigger] b[i]).supremum,
            (#[trigger] b[j]).infimum,
        ) by {
            assert(O::lt(a[i].supremum, a[j].infimum));
        }
    }
}

/// Where every level gives a key the same value, so do all of them.
pub proof fn lemma_same_from_level<O: KeyOrder>(
    a_contents: Map<TableFileRef, Seq<u8>>,
    a: Seq<Seq<FileMeta>>,
    b_contents: Map<TableFileRef, Seq<u8>>,
    b: Seq<Seq<FileMeta>>,
    n: nat,
    k: Seq<u8>,
)
    requires
        a.len() == b.len(),
        forall|i: int|
            n <= i < a.len() ==> version::value_in_level::<O>(
                a_contents,
                i as nat,
                #[trigger] a[i],
                k,
            ) == version::value_in_level::<O>(b_contents, i as nat, b[i], k),
    ensures
        version::value_from_level::<O>(a_contents, a, n, k) == version::value_from_level::<O>(
            b_contents,
            b,
            n,
            k,
        ),
    decreases a.len() - n,
{
    if n < a.len() {
        assert(a[n as int] == a[n as int]);
        lemma_same_from_level::<O>(a_contents, a, b_contents, b, n + 1, k);
    }
}

/// Marks do not matter for the value of a key.
pub proof fn lemma_marks_keep_values<O: KeyOrder>(
    contents: Map<TableFileRef, Seq<u8>>,
    a: Seq<Seq<FileMeta>>,
    b: Seq<Seq<FileMeta>>,
    k: Seq<u8>,
)
    requires
        contents::version_sound::<O>(contents, a),
        same_but_marks(a, b),
        O::valid(k),
    ensures
        version::value_from_level::<O>(contents, a, 0, k) == version::value_from_level::<O>(
            contents,
            b,
            0,
            k,
        ),
{
    lemma_marks_keep_sound::<O>(contents, a, b);
    assert forall|i: int| 0 <= i < a.len() implies version::value_in_level::<O>(
        contents,
        i as nat,
        #[trigger] a[i],
        k,
    ) == version::value_in_level::<O>(contents, i as nat, b[i], k) by {
        contents::lemma_sound_level::<O>(contents, a, i, k);
        contents::lemma_sound_level::<O>(contents, b, i, k);
        lemma_marks_first_value(contents, a[i], b[i], k);
    }
    lemma_same_from_level::<O>(contents, a, contents, b, 0, k);
}

/// Marks do not matter for what a compaction does.
pub proof fn lemma_marks_keep_compaction<O: KeyOrder>(
    contents: Map<TableFileRef, Seq<u8>>,
    a: Seq<Seq<FileMeta>>,
    b: Seq<Seq<FileMeta>>,
    l: int,
    s: int,
    e: int,
    p: int,
    q: int,
    outs: Seq<FileMeta>,
)
    requires
        same_but_marks(a, b),
        contents::selected::<O>(a, l, s, e, p, q),
    ensures
        contents::selected::<O>(b, l, s, e, p, q),
        contents::merged_inputs::<O>(contents, b, l, s, e, p, q) == contents::merged_inputs::<O>(
            contents,
            a,
            l,
            s,
            e,
            p,
            q,
        ),
        contents::compaction_edit(b, l, s, e, p, q, outs) == contents::compaction_edit(
            a,
            l,
            s,
            e,
            p,
            q,
            outs,
        ),
{
    assert(same_files(a[l], b[l]));
    assert(same_files(a[l + 1], b[l + 1]));
    assert forall|i: int, j: int| 0 <= i < p && s <= j < e implies O::lt(
        (#[trigger] b[l + 1][i]).supremum,
        (#[trigger] b[l][j]).infimum,
    ) by {
        assert(O::lt(a[l + 1][i].supremum, a[l][j].infimum));
    }
    assert forall|i: int, j: int| q <= i < b[l + 1].len() && s <= j < e implies O::lt(
        (#[trigger] b[l][j]).supremum,
        (#[trigger] b[l + 1][i]).infimum,
    ) by {
        assert(O::lt(a[l][j].supremum, a[l + 1][i].infimum));
    }
    let x = contents::inputs_of(a, l, s, e, p, q);
    let y = contents::inputs_of(b, l, s, e, p, q);
    assert forall|i: int| 0 <= i < x.len() implies #[trigger] y[i] == (FileMeta {
        being_compacted: y[i].being_compacted,
        ..x[i]
    }) by {
        if i < e - s {
            assert(y[i] == b[l][s + i] && x[i] == a[l][s + i]);
        } else {
            let j = p + i - (e - s);
            assert(y[i] == b[l + 1][j] && x[i] == a[l + 1][j]);
        }
    }
    assert(version::input_tables(contents, x) =~= version::input_tables(contents, y));
    assert(contents::ages_in(a, l, s, e, p, q) =~= contents::ages_in(b, l, s, e, p, q));
    lemma_marks_keep_refs(l as usize, a[l], b[l], s, e);
    lemma_marks_keep_refs((l + 1) as usize, a[l + 1], b[l + 1], p, q);
}

pub proof fn lemma_marks_keep_refs(level: usize, a: Seq<FileMeta>, b: Seq<FileMeta>, s: int, e: int)
    requires
        same_files(a, b),
        0 <= s <= e <= a.len(),
    ensures
        version::refs_at(level, a.subrange(s, e)) == version::refs_at(level, b.subrange(s, e)),
{
    let x = a.subrange(s, e);
    let y = b.subrange(s, e);
    assert forall|i: int| 0 <= i < x.len() implies (#[trigger] x[i]).file_ref == y[i].file_ref by {
        assert(x[i] == a[s + i] && y[i] == b[s + i]);
    }
    assert forall|r: (usize, TableFileRef)| #[trigger]
        version::refs_at(level, x).contains(r) <==> version::refs_at(level, y).contains(r) by {
        if version::refs_at(level, x).contains(r) {
            let i = choose|i: int| 0 <= i < x.len() && (#[trigger] x[i]).file_ref == r.1;
            assert(y[i].file_ref == r.1);
        }
        if version::refs_at(level, y).contains(r) {
            let i = choose|i: int| 0 <= i < y.len() && (#[trigger] y[i]).file_ref == r.1;
            assert(x[i].file_ref == r.1);
        }
    }
    assert(version::refs_at(level, x) =~= version::refs_at(level, y));
}

/// The level that is picked is due, and has files to compact.
pub proof fn lemma_pick_from<O: KeyOrder>(
    levels: Seq<Seq<FileMeta>>,
    scores: Seq<CompactionScore>,
    busy: bool,
    level: nat,
)
    ensures
        version::pick_from::<O>(levels, scores, busy, level) matches Some((n, start, output)) ==> {
            &&& level <= n < scores.len()
            &&& scores[n as int].due()
            &&& !(n == 0 && busy)
            &&& compaction::picked::<O>(levels, n) == Some((start, output))
        },
    decreases scores.len() - level,
{
    if level < scores.len() {
        lemma_pick_from::<O>(levels, scores, busy, level + 1);
    }
}

/// No file is compacted by two compactions at once: what is picked after files were marked for a
/// compaction has none of these.
pub proof fn lemma_no_file_twice<O: KeyOrder>(
    contents: Map<TableFileRef, Seq<u8>>,
    levels: Seq<Seq<FileMeta>>,
    l: usize,
    start: Seq<FileMeta>,
    output: Seq<FileMeta>,
    m: int,
)
    requires
        contents::version_sound::<O>(contents, levels),
        l + 1 < levels.len() <= usize::MAX,
        0 <= m,
        m + 1 < levels.len(),
        compaction::picked::<O>(
            builder::edited::<O>(levels, version::marking(l, start, output)),
            m as nat,
        ) is Some,
    ensures
        ({
            let (a, b) = compaction::picked::<O>(
                builder::edited::<O>(levels, version::marking(l, start, output)),
                m as nat,
            )->Some_0;
            let marked = version::marking(l, start, output).marked;
            &&& forall|i: int|
                0 <= i < a.len() ==> !marked.contains((m as usize, (#[trigger] a[i]).file_ref))
            &&& forall|i: int|
                0 <= i < b.len() ==> !marked.contains(
                    ((m + 1) as usize, (#[trigger] b[i]).file_ref),
                )
        }),
{
    let edit = version::marking(l, start, output);
    let after = builder::edited::<O>(levels, edit);
    lemma_marking::<O>(levels, l, start, output);
    lemma_marks_keep_sound::<O>(contents, levels, after);
    let (s, e, p, q) = lemma_picked::<O>(contents, after, m);
    let a = after[m].subrange(s, e);
    let b = after[m + 1].subrange(p, q);
    version::lemma_marked_level::<O>(levels[m], m as nat, edit);
    version::lemma_marked_level::<O>(levels[m + 1], (m + 1) as nat, edit);
    assert forall|i: int| 0 <= i < a.len() implies !edit.marked.contains(
        (m as usize, (#[trigger] a[i]).file_ref),
    ) by {
        assert(!a[i].being_compacted);
        assert(a[i] == after[m][s + i]);
    }
    assert forall|i: int| 0 <= i < b.len() implies !edit.marked.contains(
        ((m + 1) as usize, (#[trigger] b[i]).file_ref),
    ) by {
        assert(!b[i].being_compacted);
        assert(b[i] == after[m + 1][p + i]);
    }
}

} // verus!

//! What flushes and compactions keep.
use crate::key;
use crate::key::KeyOrder;
use crate::merging_iter;
use crate::table;
use crate::table::block_table;
use crate::table::{FileMeta, TableFileRef};
use crate::transaction::Timestamp;
use crate::version;
use crate::version::builder;
use crate::version::builder::FileOrder;
use crate::version::outputs;
use crate::version::EditView;
use vstd::prelude::*;

verus! {

/// Whether each file ends before the next one starts.
pub open spec fn disjoint<O: KeyOrder>(files: Seq<FileMeta>) -> bool {
    forall|i: int, j: int|
        0 <= i < j < files.len() ==> O::lt(
            (#[trigger] files[i]).supremum,
            (#[trigger] files[j]).infimum,
        )
}

/// Whether no two files have the same name.
pub open spec fn refs_distinct(files: Seq<FileMeta>) -> bool {
    forall|i: int, j: int|
        0 <= i < j < files.len() ==> (#[trigger] files[i]).file_ref != (
        #[trigger] files[j]).file_ref
}

/// The entries of the table of a file.
pub open spec fn entries_in(contents: Map<TableFileRef, Seq<u8>>, f: FileMeta) -> Seq<
    (Seq<u8>, Seq<u8>),
> {
    block_table::table_entries(contents[f.file_ref])
}

/// Whether a file exists, holds a table with keys in order, and bounds its keys.
pub open spec fn file_sound<O: KeyOrder>(
    contents: Map<TableFileRef, Seq<u8>>,
    f: FileMeta,
) -> bool {
    &&& builder::comparable::<O>(f)
    &&& contents.contains_key(f.file_ref)
    &&& table::sound_table::<O>(contents[f.file_ref])
    &&& forall|i: int|
        0 <= i < entries_in(contents, f).len() ==> version::in_range::<O>(
            f,
            (#[trigger] entries_in(contents, f)[i]).0,
        )
}

/// Whether all files are sound and no two have the same name.
pub open spec fn files_sound<O: KeyOrder>(
    contents: Map<TableFileRef, Seq<u8>>,
    files: Seq<FileMeta>,
) -> bool {
    &&& refs_distinct(files)
    &&& forall|i: int| 0 <= i < files.len() ==> file_sound::<O>(contents, #[trigger] files[i])
}

/// What every version keeps: the files are sound, those of level 0 are in the order of their age,
/// and those of the other levels in the order of their keys, without overlaps.
pub open spec fn version_sound<O: KeyOrder>(
    contents: Map<TableFileRef, Seq<u8>>,
    levels: Seq<Seq<FileMeta>>,
) -> bool {
    &&& forall|l: int| 0 <= l < levels.len() ==> files_sound::<O>(contents, #[trigger] levels[l])
    &&& levels.len() > 0 ==> builder::ordered::<O>(FileOrder::Newest, levels[0])
    &&& forall|l: int| 1 <= l < levels.len() ==> disjoint::<O>(#[trigger] levels[l])
}

proof fn lemma_disjoint_ordered<O: KeyOrder>(files: Seq<FileMeta>)
    requires
        disjoint::<O>(files),
        builder::all_comparable::<O>(files),
    ensures
        builder::ordered::<O>(FileOrder::Smallest, files),
        version::ends_sorted::<O>(files),
{
    assert forall|i: int, j: int| 0 <= i < j < files.len() implies !builder::file_less::<O>(
        FileOrder::Smallest,
        #[trigger] files[j],
        #[trigger] files[i],
    ) && !O::lt(files[j].supremum, files[i].supremum) by {
        let a = files[i];
        let b = files[j];
        assert(builder::comparable::<O>(a) && builder::comparable::<O>(b));
        O::irreflexive(a.supremum);
        if O::lt(b.infimum, a.infimum) {
            O::transitive(a.supremum, b.infimum, a.infimum);
        }
        if O::lt(b.supremum, a.supremum) {
            O::transitive(b.supremum, a.supremum, b.infimum);
        }
    }
}

/// A sound version is in order, its files exist and hold tables with keys in order.
pub proof fn lemma_version_sound<O: KeyOrder>(
    contents: Map<TableFileRef, Seq<u8>>,
    levels: Seq<Seq<FileMeta>>,
)
    requires
        version_sound::<O>(contents, levels),
    ensures
        builder::levels_ordered::<O>(levels),
        version::levels_sorted::<O>(levels),
        version::levels_valid::<O>(levels),
        version::tables_sound::<O>(contents, levels),
        version::tables_exist(contents, levels),
{
    assert forall|l: int| 0 <= l < levels.len() implies builder::all_comparable::<O>(
        #[trigger] levels[l],
    ) && builder::all_valid::<O>(levels[l]) && builder::ordered::<O>(
        FileOrder::of_level(l as nat),
        levels[l],
    ) && (l >= 1 ==> version::ends_sorted::<O>(levels[l])) by {
        assert(files_sound::<O>(contents, levels[l]));
        assert forall|i: int| 0 <= i < levels[l].len() implies builder::comparable::<O>(
            #[trigger] levels[l][i],
        ) && builder::bounds_valid::<O>(levels[l][i]) by {
            assert(file_sound::<O>(contents, levels[l][i]));
        }
        if l >= 1 {
            lemma_disjoint_ordered::<O>(levels[l]);
        }
    }
    assert forall|l: int, i: int|
        0 <= l < levels.len() && 0 <= i < levels[l].len() implies contents.contains_key(
        (#[trigger] levels[l][i]).file_ref,
    ) && table::sound_table::<O>(contents[levels[l][i].file_ref]) by {
        assert(files_sound::<O>(contents, levels[l]));
        assert(file_sound::<O>(contents, levels[l][i]));
    }
}

/// The value of a key in the first of several files whose table has it.
pub open spec fn first_value(
    contents: Map<TableFileRef, Seq<u8>>,
    files: Seq<FileMeta>,
    k: Seq<u8>,
) -> Option<Seq<u8>>
    decreases files.len(),
{
    if files.len() == 0 {
        None
    } else {
        match version::value_in(contents, files[0], k) {
            Some(v) => Some(v),
            None => first_value(contents, files.drop_first(), k),
        }
    }
}

proof fn lemma_lookup_has(entries: Seq<(Seq<u8>, Seq<u8>)>, k: Seq<u8>)
    ensures
        table::lookup(entries, k) is Some ==> exists|i: int|
            0 <= i < entries.len() && (#[trigger] entries[i]).0 == k,
    decreases entries.len(),
{
    if entries.len() > 0 {
        if entries[0].0 == k {
        } else {
            let rest = entries.drop_first();
            lemma_lookup_has(rest, k);
            if table::lookup(rest, k) is Some {
                let i = choose|i: int| 0 <= i < rest.len() && (#[trigger] rest[i]).0 == k;
                assert(entries[i + 1] == rest[i]);
            }
        }
    }
}

/// A key that a sound file has lies within its bounds, and is valid.
proof fn lemma_value_bounds<O: KeyOrder>(
    contents: Map<TableFileRef, Seq<u8>>,
    f: FileMeta,
    k: Seq<u8>,
)
    requires
        file_sound::<O>(contents, f),
        version::value_in(contents, f, k) is Some,
    ensures
        version::in_range::<O>(f, k),
        O::valid(k),
{
    let entries = entries_in(contents, f);
    lemma_lookup_has(entries, k);
    let i = choose|i: int| 0 <= i < entries.len() && (#[trigger] entries[i]).0 == k;
    assert(version::in_range::<O>(f, entries[i].0));
    assert(O::valid(entries[i].0));
}

/// The first file that has a key.
pub proof fn lemma_first_value(
    contents: Map<TableFileRef, Seq<u8>>,
    files: Seq<FileMeta>,
    k: Seq<u8>,
) -> (n: int)
    ensures
        0 <= n <= files.len(),
        forall|i: int|
            0 <= i < n ==> version::value_in(contents, #[trigger] files[i], k) is None,
        n < files.len() ==> version::value_in(contents, files[n], k) is Some && first_value(
            contents,
            files,
            k,
        ) == version::value_in(contents, files[n], k),
        n == files.len() ==> first_value(contents, files, k) is None,
    decreases files.len(),
{
    if files.len() == 0 {
        0
    } else if version::value_in(contents, files[0], k) is Some {
        0
    } else {
        let rest = files.drop_first();
        let m = lemma_first_value(contents, rest, k);
        assert forall|i: int| 0 <= i < m + 1 implies version::value_in(
            contents,
            #[trigger] files[i],
            k,
        ) is None by {
            if i > 0 {
                assert(files[i] == rest[i - 1]);
            }
        }
        if m < rest.len() {
            assert(files[m + 1] == rest[m]);
        }
        m + 1
    }
}

proof fn lemma_first_value_none(
    contents: Map<TableFileRef, Seq<u8>>,
    files: Seq<FileMeta>,
    k: Seq<u8>,
)
    requires
        forall|i: int|
            0 <= i < files.len() ==> version::value_in(contents, #[trigger] files[i], k) is None,
    ensures
        first_value(contents, files, k) is None,
{
    let m = lemma_first_value(contents, files, k);
    if m < files.len() {
        assert(version::value_in(contents, files[m], k) is None);
    }
}

/// Of files that do not overlap, at most one has a key.
proof fn lemma_only_one<O: KeyOrder>(
    contents: Map<TableFileRef, Seq<u8>>,
    files: Seq<FileMeta>,
    k: Seq<u8>,
    i: int,
    j: int,
)
    requires
        files_sound::<O>(contents, files),
        disjoint::<O>(files),
        0 <= i < files.len(),
        0 <= j < files.len(),
        version::value_in(contents, files[i], k) is Some,
        version::value_in(contents, files[j], k) is Some,
    ensures
        i == j,
{
    if i != j {
        let (a, b) = if i < j {
            (files[i], files[j])
        } else {
            (files[j], files[i])
        };
        assert(file_sound::<O>(contents, files[i]) && file_sound::<O>(contents, files[j]));
        lemma_value_bounds::<O>(contents, files[i], k);
        lemma_value_bounds::<O>(contents, files[j], k);
        assert(O::lt(a.supremum, b.infimum));
        lemma_apart::<O>(a, b, k);
    }
}

/// No key lies within the bounds of two files one of which ends before the other starts.
proof fn lemma_apart<O: KeyOrder>(a: FileMeta, b: FileMeta, k: Seq<u8>)
    requires
        builder::bounds_valid::<O>(a),
        builder::bounds_valid::<O>(b),
        O::valid(k),
        O::lt(a.supremum, b.infimum),
    ensures
        !(version::in_range::<O>(a, k) && version::in_range::<O>(b, k)),
{
    if version::in_range::<O>(a, k) && version::in_range::<O>(b, k) {
        if k == a.supremum {
            O::irreflexive(k);
        } else {
            O::total(k, a.supremum);
            O::transitive(k, a.supremum, b.infimum);
        }
    }
}

/// Searching the files of a level finds the value of the first file that has the key.
proof fn lemma_level_value<O: KeyOrder>(
    contents: Map<TableFileRef, Seq<u8>>,
    level: nat,
    files: Seq<FileMeta>,
    k: Seq<u8>,
)
    requires
        files_sound::<O>(contents, files),
        level > 0 ==> disjoint::<O>(files),
        O::valid(k),
    ensures
        version::value_in_level::<O>(contents, level, files, k) == first_value(
            contents,
            files,
            k,
        ),
{
    if level == 0 {
        lemma_any_value::<O>(contents, files, k);
    } else {
        let n = lemma_first_value(contents, files, k);
        let m = version::files_below::<O>(files, k);
        lemma_below::<O>(files, k);
        if n < files.len() {
            assert(file_sound::<O>(contents, files[n]));
            lemma_value_bounds::<O>(contents, files[n], k);
            if m > n {
                assert(O::lt(files[n].supremum, k));
            }
            if m < n {
                assert(file_sound::<O>(contents, files[m as int]));
                assert(O::lt(files[m as int].supremum, files[n].infimum));
                let s = files[m as int].supremum;
                assert(!O::lt(s, k));
                if s != k {
                    O::total(s, k);
                    O::transitive(k, s, files[n].infimum);
                }
            }
        } else if m < files.len() {
            assert(version::value_in(contents, files[m as int], k) is None);
        }
    }
}

proof fn lemma_below<O: KeyOrder>(files: Seq<FileMeta>, k: Seq<u8>)
    ensures
        version::files_below::<O>(files, k) <= files.len(),
        forall|i: int|
            0 <= i < version::files_below::<O>(files, k) ==> O::lt(
                (#[trigger] files[i]).supremum,
                k,
            ),
        version::files_below::<O>(files, k) < files.len() ==> !O::lt(
            files[version::files_below::<O>(files, k) as int].supremum,
            k,
        ),
    decreases files.len(),
{
    if files.len() > 0 && O::lt(files[0].supremum, k) {
        let rest = files.drop_first();
        lemma_below::<O>(rest, k);
        let m = version::files_below::<O>(rest, k);
        assert forall|i: int| 0 <= i < m + 1 implies O::lt((#[trigger] files[i]).supremum, k) by {
            if i > 0 {
                assert(files[i] == rest[i - 1]);
            }
        }
        if m < rest.len() {
            assert(files[(m + 1) as int] == rest[m as int]);
        }
    }
}

proof fn lemma_any_value<O: KeyOrder>(
    contents: Map<TableFileRef, Seq<u8>>,
    files: Seq<FileMeta>,
    k: Seq<u8>,
)
    requires
        forall|i: int| 0 <= i < files.len() ==> file_sound::<O>(contents, #[trigger] files[i]),
    ensures
        version::value_in_any::<O>(contents, files, k) == first_value(contents, files, k),
    decreases files.len(),
{
    if files.len() > 0 {
        let rest = files.drop_first();
        assert forall|i: int| 0 <= i < rest.len() implies file_sound::<O>(
            contents,
            #[trigger] rest[i],
        ) by {
            assert(rest[i] == files[i + 1]);
        }
        lemma_any_value::<O>(contents, rest, k);
        assert(file_sound::<O>(contents, files[0]));
        if version::value_in(contents, files[0], k) is Some {
            lemma_value_bounds::<O>(contents, files[0], k);
        }
    }
}

proof fn lemma_first_value_concat(
    contents: Map<TableFileRef, Seq<u8>>,
    a: Seq<FileMeta>,
    b: Seq<FileMeta>,
    k: Seq<u8>,
)
    ensures
        first_value(contents, a + b, k) == match first_value(contents, a, k) {
            Some(v) => Some(v),
            None => first_value(contents, b, k),
        },
    decreases a.len(),
{
    if a.len() == 0 {
        assert(a + b =~= b);
    } else {
        assert((a + b)[0] == a[0]);
        assert((a + b).drop_first() =~= a.drop_first() + b);
        lemma_first_value_concat(contents, a.drop_first(), b, k);
    }
}

/// What a list of files holds after files between two places were deleted.
proof fn lemma_kept_range(
    files: Seq<FileMeta>,
    level: nat,
    deleted: Set<(usize, TableFileRef)>,
    s: int,
    e: int,
)
    requires
        0 <= s <= e <= files.len(),
        forall|i: int|
            0 <= i < files.len() ==> (deleted.contains(
                (level as usize, (#[trigger] files[i]).file_ref),
            ) <==> s <= i < e),
    ensures
        builder::kept(files, level, deleted) == files.take(s) + files.skip(e),
    decreases files.len(),
{
    if files.len() == 0 {
        assert(files.take(s) + files.skip(e) =~= files);
    } else {
        let init = files.drop_last();
        let n = init.len() as int;
        let last = files[n];
        let s1 = if s > n {
            n
        } else {
            s
        };
        let e1 = if e > n {
            n
        } else {
            e
        };
        assert forall|i: int| 0 <= i < init.len() implies (deleted.contains(
            (level as usize, (#[trigger] init[i]).file_ref),
        ) <==> s1 <= i < e1) by {
            assert(init[i] == files[i]);
        }
        lemma_kept_range(init, level, deleted, s1, e1);
        assert(deleted.contains((level as usize, last.file_ref)) <==> s <= n < e);
        assert(files.last() == last);
        if s <= n < e {
            assert(init.take(s1) + init.skip(e1) =~= files.take(s) + files.skip(e));
        } else if n >= e {
            assert((init.take(s1) + init.skip(e1)).push(last) =~= files.take(s) + files.skip(e));
        } else {
            assert((init.take(s1) + init.skip(e1)).push(last) =~= files.take(s) + files.skip(e));
        }
    }
}

proof fn lemma_placed_all<O: KeyOrder>(order: FileOrder, files: Seq<FileMeta>, f: FileMeta)
    ensures
        forall|x: FileMeta| #[trigger]
            builder::placed::<O>(order, files, f).contains(x) <==> files.contains(x) || x == f,
        refs_distinct(files) && (forall|i: int|
            0 <= i < files.len() ==> (#[trigger] files[i]).file_ref != f.file_ref) ==> refs_distinct(
            builder::placed::<O>(order, files, f),
        ),
    decreases files.len(),
{
    let out = builder::placed::<O>(order, files, f);
    if files.len() == 0 || builder::file_less::<O>(order, f, files[0]) {
        lemma_cons_contains(f, files);
        lemma_cons_distinct(f, files);
    } else {
        let rest = files.drop_first();
        lemma_placed_all::<O>(order, rest, f);
        let tail = builder::placed::<O>(order, rest, f);
        lemma_cons_contains(files[0], tail);
        lemma_cons_contains(files[0], rest);
        assert(files =~= seq![files[0]] + rest);
        if refs_distinct(files) && (forall|i: int|
            0 <= i < files.len() ==> (#[trigger] files[i]).file_ref != f.file_ref) {
            assert forall|i: int, j: int| 0 <= i < j < rest.len() implies (
            #[trigger] rest[i]).file_ref != (#[trigger] rest[j]).file_ref by {
                assert(rest[i] == files[i + 1] && rest[j] == files[j + 1]);
            }
            assert forall|i: int| 0 <= i < rest.len() implies (#[trigger] rest[i]).file_ref
                != f.file_ref by {
                assert(rest[i] == files[i + 1]);
            }
            assert forall|i: int| 0 <= i < tail.len() implies (#[trigger] tail[i]).file_ref
                != files[0].file_ref by {
                assert(tail.contains(tail[i]));
                if rest.contains(tail[i]) {
                    let j = choose|j: int| 0 <= j < rest.len() && rest[j] == tail[i];
                    assert(files[j + 1] == tail[i]);
                }
            }
            lemma_cons_distinct(files[0], tail);
        }
    }
}

proof fn lemma_cons_contains(f: FileMeta, files: Seq<FileMeta>)
    ensures
        forall|x: FileMeta| #[trigger]
            (seq![f] + files).contains(x) <==> files.contains(x) || x == f,
{
    let all = seq![f] + files;
    assert forall|x: FileMeta| #[trigger] all.contains(x) <==> files.contains(x) || x == f by {
        if all.contains(x) {
            let i = choose|i: int| 0 <= i < all.len() && all[i] == x;
            if i > 0 {
                assert(files[i - 1] == x);
            }
        }
        if files.contains(x) {
            let i = choose|i: int| 0 <= i < files.len() && files[i] == x;
            assert(all[i + 1] == x);
        }
        assert(all[0] == f);
    }
}

proof fn lemma_cons_distinct(f: FileMeta, files: Seq<FileMeta>)
    ensures
        refs_distinct(files) && (forall|i: int|
            0 <= i < files.len() ==> (#[trigger] files[i]).file_ref != f.file_ref)
            ==> refs_distinct(seq![f] + files),
{
    if refs_distinct(files) && (forall|i: int|
        0 <= i < files.len() ==> (#[trigger] files[i]).file_ref != f.file_ref) {
        let all = seq![f] + files;
        assert forall|i: int, j: int| 0 <= i < j < all.len() implies (#[trigger] all[i]).file_ref
            != (#[trigger] all[j]).file_ref by {
            assert(all[j] == files[j - 1]);
            if i > 0 {
                assert(all[i] == files[i - 1]);
            }
        }
    }
}

pub proof fn lemma_in_order_all<O: KeyOrder>(order: FileOrder, files: Seq<FileMeta>)
    ensures
        forall|x: FileMeta| #[trigger]
            builder::in_order::<O>(order, files).contains(x) <==> files.contains(x),
        refs_distinct(files) ==> refs_distinct(builder::in_order::<O>(order, files)),
    decreases files.len(),
{
    if files.len() > 0 {
        let init = files.drop_last();
        let last = files.last();
        lemma_in_order_all::<O>(order, init);
        let sorted = builder::in_order::<O>(order, init);
        lemma_placed_all::<O>(order, sorted, last);
        let out = builder::in_order::<O>(order, files);
        assert forall|x: FileMeta| #[trigger] out.contains(x) <==> files.contains(x) by {
            if out.contains(x) && sorted.contains(x) {
                assert(init.contains(x));
                let j = choose|j: int| 0 <= j < init.len() && init[j] == x;
                assert(files[j] == x);
            }
            if files.contains(x) {
                let j = choose|j: int| 0 <= j < files.len() && files[j] == x;
                if j < init.len() {
                    assert(init[j] == x);
                    assert(init.contains(x));
                    assert(sorted.contains(x));
                }
            }
            assert(files[files.len() - 1] == last);
        }
        if refs_distinct(files) {
            assert forall|i: int, j: int| 0 <= i < j < init.len() implies (
            #[trigger] init[i]).file_ref != (#[trigger] init[j]).file_ref by {
                assert(init[i] == files[i] && init[j] == files[j]);
            }
            assert forall|i: int| 0 <= i < sorted.len() implies (#[trigger] sorted[i]).file_ref
                != last.file_ref by {
                assert(sorted.contains(sorted[i]));
                let j = choose|j: int| 0 <= j < init.len() && init[j] == sorted[i];
                assert(files[j].file_ref != files[files.len() - 1].file_ref);
            }
        }
    }
}

proof fn lemma_merge_all<O: KeyOrder>(order: FileOrder, a: Seq<FileMeta>, b: Seq<FileMeta>)
    ensures
        forall|x: FileMeta| #[trigger]
            builder::merge_files::<O>(order, a, b).contains(x) <==> a.contains(x) || b.contains(
                x,
            ),
        refs_distinct(a) && refs_distinct(b) && refs_apart(a, b) ==> refs_distinct(
            builder::merge_files::<O>(order, a, b),
        ),
    decreases a.len() + b.len(),
{
    if a.len() > 0 && b.len() > 0 {
        let from_a = builder::file_less::<O>(order, a[0], b[0]);
        let (f, ra, rb) = if from_a {
            (a[0], a.drop_first(), b)
        } else {
            (b[0], a, b.drop_first())
        };
        lemma_merge_all::<O>(order, ra, rb);
        let rest = builder::merge_files::<O>(order, ra, rb);
        lemma_cons_contains(f, rest);
        if from_a {
            lemma_cons_contains(f, ra);
            assert(a =~= seq![f] + ra);
        } else {
            lemma_cons_contains(f, rb);
            assert(b =~= seq![f] + rb);
        }
        if refs_distinct(a) && refs_distinct(b) && refs_apart(a, b) {
            assert forall|i: int, j: int| 0 <= i < j < ra.len() implies (
            #[trigger] ra[i]).file_ref != (#[trigger] ra[j]).file_ref by {
                if from_a {
                    assert(ra[i] == a[i + 1] && ra[j] == a[j + 1]);
                }
            }
            assert forall|i: int, j: int| 0 <= i < j < rb.len() implies (
            #[trigger] rb[i]).file_ref != (#[trigger] rb[j]).file_ref by {
                if !from_a {
                    assert(rb[i] == b[i + 1] && rb[j] == b[j + 1]);
                }
            }
            assert forall|i: int, j: int| 0 <= i < ra.len() && 0 <= j < rb.len() implies (
            #[trigger] ra[i]).file_ref != (#[trigger] rb[j]).file_ref by {
                if from_a {
                    assert(ra[i] == a[i + 1]);
                } else {
                    assert(rb[j] == b[j + 1]);
                }
            }
            assert forall|i: int| 0 <= i < rest.len() implies (#[trigger] rest[i]).file_ref
                != f.file_ref by {
                assert(rest.contains(rest[i]));
                if ra.contains(rest[i]) {
                    let j = choose|j: int| 0 <= j < ra.len() && ra[j] == rest[i];
                    if from_a {
                        assert(a[j + 1] == rest[i]);
                        assert(a[0].file_ref != a[j + 1].file_ref);
                    } else {
                        assert(a[j].file_ref != b[0].file_ref);
                    }
                } else {
                    let j = choose|j: int| 0 <= j < rb.len() && rb[j] == rest[i];
                    if from_a {
                        assert(a[0].file_ref != b[j].file_ref);
                    } else {
                        assert(b[j + 1] == rest[i]);
                        assert(b[0].file_ref != b[j + 1].file_ref);
                    }
                }
            }
            lemma_cons_distinct(f, rest);
        }
    }
}

/// Whether no file of one list has the name of one of the other.
pub open spec fn refs_apart(a: Seq<FileMeta>, b: Seq<FileMeta>) -> bool {
    forall|i: int, j: int|
        0 <= i < a.len() && 0 <= j < b.len() ==> (#[trigger] a[i]).file_ref != (
        #[trigger] b[j]).file_ref
}

proof fn lemma_kept_has(files: Seq<FileMeta>, level: nat, deleted: Set<(usize, TableFileRef)>)
    ensures
        forall|x: FileMeta| #[trigger]
            builder::kept(files, level, deleted).contains(x) <==> files.contains(x)
                && !deleted.contains((level as usize, x.file_ref)),
        refs_distinct(files) ==> refs_distinct(builder::kept(files, level, deleted)),
    decreases files.len(),
{
    if files.len() > 0 {
        let init = files.drop_last();
        let last = files.last();
        lemma_kept_has(init, level, deleted);
        let part = builder::kept(init, level, deleted);
        let out = builder::kept(files, level, deleted);
        assert forall|x: FileMeta| #[trigger] out.contains(x) <==> files.contains(x)
            && !deleted.contains((level as usize, x.file_ref)) by {
            if out.contains(x) {
                let i = choose|i: int| 0 <= i < out.len() && out[i] == x;
                if i < part.len() {
                    assert(part[i] == x);
                    assert(part.contains(x));
                    let j = choose|j: int| 0 <= j < init.len() && init[j] == x;
                    assert(files[j] == x);
                } else {
                    assert(files[files.len() - 1] == x);
                }
            }
            if files.contains(x) && !deleted.contains((level as usize, x.file_ref)) {
                let j = choose|j: int| 0 <= j < files.len() && files[j] == x;
                if j < init.len() {
                    assert(init[j] == x);
                    assert(init.contains(x));
                    assert(part.contains(x));
                    let i = choose|i: int| 0 <= i < part.len() && part[i] == x;
                    assert(out[i] == x);
                } else {
                    assert(out[part.len() as int] == x);
                }
            }
        }
        if refs_distinct(files) {
            assert forall|i: int, j: int| 0 <= i < j < init.len() implies (
            #[trigger] init[i]).file_ref != (#[trigger] init[j]).file_ref by {
                assert(init[i] == files[i] && init[j] == files[j]);
            }
            assert forall|i: int| 0 <= i < part.len() implies (#[trigger] part[i]).file_ref
                != last.file_ref by {
                assert(part.contains(part[i]));
                let j = choose|j: int| 0 <= j < init.len() && init[j] == part[i];
                assert(files[j].file_ref != files[files.len() - 1].file_ref);
            }
        }
    }
}

/// An edit that marks nothing leaves the marks alone.
proof fn lemma_unmarked(files: Seq<FileMeta>, level: nat, marked: Set<(usize, TableFileRef)>)
    requires
        marked == Set::<(usize, TableFileRef)>::empty(),
    ensures
        builder::marked_files(files, level, marked) == files,
{
    assert(builder::marked_files(files, level, marked) =~= files);
}

/// Files in order of their smallest keys of which each two lie apart are disjoint.
proof fn lemma_apart_disjoint<O: KeyOrder>(files: Seq<FileMeta>)
    requires
        builder::all_comparable::<O>(files),
        builder::ordered::<O>(FileOrder::Smallest, files),
        forall|i: int, j: int|
            0 <= i < j < files.len() ==> O::lt(
                (#[trigger] files[i]).supremum,
                (#[trigger] files[j]).infimum,
            ) || O::lt(files[j].supremum, files[i].infimum),
    ensures
        disjoint::<O>(files),
{
    assert forall|i: int, j: int| 0 <= i < j < files.len() implies O::lt(
        (#[trigger] files[i]).supremum,
        (#[trigger] files[j]).infimum,
    ) by {
        let a = files[i];
        let b = files[j];
        assert(builder::comparable::<O>(a) && builder::comparable::<O>(b));
        assert(!builder::file_less::<O>(FileOrder::Smallest, b, a));
        if O::lt(b.supremum, a.infimum) {
            if b.supremum != b.infimum {
                O::total(b.supremum, b.infimum);
                O::transitive(b.infimum, b.supremum, a.infimum);
            }
        }
    }
}

/// Where in a run of files the entries of one of them stand.
proof fn lemma_run_at(contents: Map<TableFileRef, Seq<u8>>, files: Seq<FileMeta>, i: int) -> (at: int)
    requires
        0 <= i < files.len(),
    ensures
        0 <= at,
        at == outputs::run_entries(contents, files.take(i)).len(),
        at + entries_in(contents, files[i]).len() <= outputs::run_entries(contents, files).len(),
        at + entries_in(contents, files[i]).len() == outputs::run_entries(
            contents,
            files.take(i + 1),
        ).len(),
        forall|j: int|
            0 <= j < entries_in(contents, files[i]).len() ==> outputs::run_entries(
                contents,
                files,
            )[at + j] == #[trigger] entries_in(contents, files[i])[j],
    decreases files.len(),
{
    let init = files.drop_last();
    let at = outputs::run_entries(contents, files.take(i)).len() as int;
    assert(files.take(i + 1).drop_last() =~= files.take(i));
    assert(files.take(i + 1).last() == files[i]);
    if i < init.len() {
        let sub = lemma_run_at(contents, init, i);
        assert(init.take(i) =~= files.take(i));
        assert(init[i] == files[i]);
        assert forall|j: int| 0 <= j < entries_in(contents, files[i]).len() implies outputs::run_entries(
            contents,
            files,
        )[at + j] == #[trigger] entries_in(contents, files[i])[j] by {
            assert(outputs::run_entries(contents, init)[at + j] == entries_in(
                contents,
                init[i],
            )[j]);
        }
    } else {
        assert(files.take(i) =~= init);
        assert(files.take(i + 1) =~= files);
    }
    at
}

proof fn lemma_run_len(contents: Map<TableFileRef, Seq<u8>>, files: Seq<FileMeta>, i: int, j: int)
    requires
        0 <= i <= j <= files.len(),
    ensures
        outputs::run_entries(contents, files.take(i)).len() <= outputs::run_entries(
            contents,
            files.take(j),
        ).len(),
    decreases j - i,
{
    if i < j {
        lemma_run_len(contents, files, i, j - 1);
        assert(files.take(j).drop_last() =~= files.take(j - 1));
    }
}

/// A table whose entries are in order is sound in a file with its bounds.
proof fn lemma_table_in_bounds<O: KeyOrder>(contents: Map<TableFileRef, Seq<u8>>, f: FileMeta)
    requires
        outputs::exact_bounds(contents, f),
        f.min_xip.0 < 0x2000_0000_0000_0000,
        table::sound_table::<O>(contents[f.file_ref]),
    ensures
        file_sound::<O>(contents, f),
{
    let es = entries_in(contents, f);
    let n = es.len() - 1;
    assert(es.last() == es[n]);
    assert forall|j: int| 0 <= j < es.len() implies version::in_range::<O>(
        f,
        (#[trigger] es[j]).0,
    ) by {
        O::irreflexive(es[j].0);
        if j > 0 {
            assert(O::lt(es[0].0, es[j].0));
            if O::lt(es[j].0, es[0].0) {
                O::transitive(es[j].0, es[0].0, es[j].0);
            }
        }
        if j < n {
            assert(O::lt(es[j].0, es[n].0));
            if O::lt(es[n].0, es[j].0) {
                O::transitive(es[j].0, es[n].0, es[j].0);
            }
        }
    }
    assert(version::in_range::<O>(f, es[n].0));
}

/// A file that a part of sorted entries was written to is sound, and its bounds are keys of them.
proof fn lemma_output_sound<O: KeyOrder>(
    contents: Map<TableFileRef, Seq<u8>>,
    files: Seq<FileMeta>,
    all: Seq<(Seq<u8>, Seq<u8>)>,
    i: int,
)
    requires
        0 <= i < files.len(),
        outputs::exact_bounds(contents, files[i]),
        files[i].min_xip == Timestamp(0),
        all == outputs::run_entries(contents, files),
        key::ascending::<O>(all),
        key::keys_valid::<O>(all),
        forall|j: int| 0 <= j < all.len() ==> (#[trigger] all[j]).0.len() > 0,
    ensures
        file_sound::<O>(contents, files[i]),
        exists|a: int, b: int|
            0 <= a < all.len() && 0 <= b < all.len() && files[i].infimum == (#[trigger] all[a]).0
                && files[i].supremum == (#[trigger] all[b]).0,
{
    let f = files[i];
    let es = entries_in(contents, f);
    let at = lemma_run_at(contents, files, i);
    assert forall|j: int| 0 <= j < es.len() implies O::valid(#[trigger] es[j].0) && es[j].0.len()
        > 0 by {
        assert(all[at + j] == es[j]);
    }
    assert forall|a: int, b: int| 0 <= a < b < es.len() implies O::lt(
        #[trigger] es[a].0,
        #[trigger] es[b].0,
    ) by {
        assert(all[at + a] == es[a] && all[at + b] == es[b]);
    }
    let n = es.len() - 1;
    assert(all[at + 0] == es[0]);
    assert(all[at + n] == es[n]);
    assert(table::sound_table::<O>(contents[f.file_ref]));
    lemma_table_in_bounds::<O>(contents, f);
}

/// Of two files that parts of sorted entries were written to, the first ends before the second
/// begins.
proof fn lemma_outputs_apart<O: KeyOrder>(
    contents: Map<TableFileRef, Seq<u8>>,
    files: Seq<FileMeta>,
    all: Seq<(Seq<u8>, Seq<u8>)>,
    i: int,
    j: int,
)
    requires
        0 <= i < j < files.len(),
        outputs::exact_bounds(contents, files[i]),
        outputs::exact_bounds(contents, files[j]),
        all == outputs::run_entries(contents, files),
        key::ascending::<O>(all),
    ensures
        O::lt(files[i].supremum, files[j].infimum),
{
    let a = lemma_run_at(contents, files, i);
    let b = lemma_run_at(contents, files, j);
    let es = entries_in(contents, files[i]);
    let gs = entries_in(contents, files[j]);
    lemma_run_len(contents, files, i + 1, j);
    assert(all[a + es.len() - 1] == es[es.len() - 1]);
    assert(all[b + 0] == gs[0]);
}

/// Files that sorted entries were written to are sound, and none overlaps another one.
proof fn lemma_outputs_sound<O: KeyOrder>(
    contents: Map<TableFileRef, Seq<u8>>,
    files: Seq<FileMeta>,
    first: nat,
)
    requires
        outputs::written_files(contents, files, first),
        first + files.len() <= usize::MAX,
        key::ascending::<O>(outputs::run_entries(contents, files)),
        key::keys_valid::<O>(outputs::run_entries(contents, files)),
        forall|i: int|
            0 <= i < outputs::run_entries(contents, files).len() ==> (
            #[trigger] outputs::run_entries(contents, files)[i]).0.len() > 0,
    ensures
        files_sound::<O>(contents, files),
        disjoint::<O>(files),
        forall|i: int|
            0 <= i < files.len() ==> exists|a: int, b: int|
                0 <= a < outputs::run_entries(contents, files).len() && 0 <= b
                    < outputs::run_entries(contents, files).len() && (
                #[trigger] files[i]).infimum == (#[trigger] outputs::run_entries(
                    contents,
                    files,
                )[a]).0 && files[i].supremum == (#[trigger] outputs::run_entries(
                    contents,
                    files,
                )[b]).0,
{
    let all = outputs::run_entries(contents, files);
    assert forall|i: int| 0 <= i < files.len() implies file_sound::<O>(
        contents,
        #[trigger] files[i],
    ) && exists|a: int, b: int|
        0 <= a < all.len() && 0 <= b < all.len() && files[i].infimum == (#[trigger] all[a]).0
            && files[i].supremum == (#[trigger] all[b]).0 by {
        lemma_output_sound::<O>(contents, files, all, i);
    }
    assert forall|i: int, j: int| 0 <= i < j < files.len() implies O::lt(
        (#[trigger] files[i]).supremum,
        (#[trigger] files[j]).infimum,
    ) by {
        lemma_outputs_apart::<O>(contents, files, all, i, j);
    }
}

/// The value that counts in a merge of files of which no later one is younger: that of the first
/// one that has the key.
proof fn lemma_winner_first(
    contents: Map<TableFileRef, Seq<u8>>,
    ages: Seq<Timestamp>,
    files: Seq<FileMeta>,
    k: Seq<u8>,
    n: nat,
)
    requires
        n <= files.len(),
        ages.len() == files.len(),
        forall|i: int, j: int|
            0 <= i < j < files.len() ==> !merging_iter::replaces(
                #[trigger] ages[i],
                #[trigger] ages[j],
            ),
    ensures
        ({
            let w = merging_iter::winner(
                None,
                ages,
                version::input_tables(contents, files),
                k,
                n,
            );
            let v = first_value(contents, files.take(n as int), k);
            match w {
                None => v is None,
                Some((t, x)) => v == Some(x) && exists|i: int|
                    0 <= i < n && #[trigger] ages[i] == t,
            }
        }),
    decreases n,
{
    let tables = version::input_tables(contents, files);
    if n == 0 {
        assert(files.take(0).len() == 0);
    } else {
        let m = (n - 1) as nat;
        lemma_winner_first(contents, ages, files, k, m);
        let part = files.take(m as int);
        let last = files[m as int];
        assert(files.take(n as int) =~= part + seq![last]);
        lemma_first_value_concat(contents, part, seq![last], k);
        assert(seq![last].drop_first() =~= Seq::<FileMeta>::empty());
        assert(first_value(contents, seq![last], k) == version::value_in(contents, last, k)) by {
            assert(first_value(contents, seq![last].drop_first(), k) is None);
        }
        assert(tables[m as int] == entries_in(contents, last));
        let w = merging_iter::winner(None, ages, tables, k, m);
        match w {
            Some((t, x)) => {
                let i = choose|i: int| 0 <= i < m && #[trigger] ages[i] == t;
                assert(!merging_iter::replaces(ages[i], ages[m as int]));
            },
            None => {},
        }
        assert(ages[m as int] == ages[n - 1]);
    }
}

/// The value of a key in the files that entries were written to is that of the entries.
proof fn lemma_run_value(contents: Map<TableFileRef, Seq<u8>>, files: Seq<FileMeta>, k: Seq<u8>)
    ensures
        first_value(contents, files, k) == table::lookup(
            outputs::run_entries(contents, files),
            k,
        ),
    decreases files.len(),
{
    if files.len() > 0 {
        let init = files.drop_last();
        let last = files.last();
        lemma_run_value(contents, init, k);
        assert(files =~= init + seq![last]);
        lemma_first_value_concat(contents, init, seq![last], k);
        assert(seq![last].drop_first() =~= Seq::<FileMeta>::empty());
        assert(first_value(contents, seq![last].drop_first(), k) is None);
        table::lemma_lookup_concat(
            outputs::run_entries(contents, init),
            entries_in(contents, last),
            k,
        );
    }
}

proof fn lemma_same_values(
    before: Map<TableFileRef, Seq<u8>>,
    after: Map<TableFileRef, Seq<u8>>,
    files: Seq<FileMeta>,
    k: Seq<u8>,
)
    requires
        forall|i: int|
            0 <= i < files.len() ==> after[(#[trigger] files[i]).file_ref]
                == before[files[i].file_ref],
    ensures
        first_value(after, files, k) == first_value(before, files, k),
    decreases files.len(),
{
    if files.len() > 0 {
        assert(after[files[0].file_ref] == before[files[0].file_ref]);
        let rest = files.drop_first();
        assert forall|i: int| 0 <= i < rest.len() implies after[(#[trigger] rest[i]).file_ref]
            == before[rest[i].file_ref] by {
            assert(rest[i] == files[i + 1]);
        }
        lemma_same_values(before, after, rest, k);
    }
}

/// Whether the files from `s` to before `e` of level `l`, and from `p` to before `q` of the next
/// level, can be compacted together: of level 0 they are the oldest ones, and the other files of the
/// next level lie below or above all of them.
pub open spec fn selected<O: KeyOrder>(
    levels: Seq<Seq<FileMeta>>,
    l: int,
    s: int,
    e: int,
    p: int,
    q: int,
) -> bool {
    &&& 0 <= l
    &&& l + 1 < levels.len()
    &&& 0 <= s <= e <= levels[l].len()
    &&& l == 0 ==> e == levels[l].len()
    &&& 0 <= p <= q <= levels[l + 1].len()
    &&& forall|i: int, j: int|
        0 <= i < p && s <= j < e ==> O::lt(
            (#[trigger] levels[l + 1][i]).supremum,
            (#[trigger] levels[l][j]).infimum,
        )
    &&& forall|i: int, j: int|
        q <= i < levels[l + 1].len() && s <= j < e ==> O::lt(
            (#[trigger] levels[l][j]).supremum,
            (#[trigger] levels[l + 1][i]).infimum,
        )
}

/// All files of a compaction, in the order in which they count.
pub open spec fn inputs_of(
    levels: Seq<Seq<FileMeta>>,
    l: int,
    s: int,
    e: int,
    p: int,
    q: int,
) -> Seq<FileMeta> {
    levels[l].subrange(s, e) + levels[l + 1].subrange(p, q)
}

/// The ages of the files of a compaction in its merge.
pub open spec fn ages_in(
    levels: Seq<Seq<FileMeta>>,
    l: int,
    s: int,
    e: int,
    p: int,
    q: int,
) -> Seq<Timestamp> {
    version::input_ages(l as usize, levels[l].subrange(s, e)) + version::input_ages(
        1,
        levels[l + 1].subrange(p, q),
    )
}

/// The merged entries of the files of a compaction.
pub open spec fn merged_inputs<O: KeyOrder>(
    contents: Map<TableFileRef, Seq<u8>>,
    levels: Seq<Seq<FileMeta>>,
    l: int,
    s: int,
    e: int,
    p: int,
    q: int,
) -> Seq<(Seq<u8>, Seq<u8>)> {
    merging_iter::merged::<O>(
        None,
        ages_in(levels, l, s, e, p, q),
        version::input_tables(contents, inputs_of(levels, l, s, e, p, q)),
    )
}

/// What a compaction changes: the files that it wrote come in place of those that it read.
pub open spec fn compaction_edit(
    levels: Seq<Seq<FileMeta>>,
    l: int,
    s: int,
    e: int,
    p: int,
    q: int,
    outs: Seq<FileMeta>,
) -> EditView {
    EditView {
        min_xip: None,
        added: outs.map_values(|f: FileMeta| ((l + 1) as usize, f)),
        deleted: version::refs_at(l as usize, levels[l].subrange(s, e)).union(
            version::refs_at((l + 1) as usize, levels[l + 1].subrange(p, q)),
        ),
        marked: Set::empty(),
    }
}

proof fn lemma_ages<O: KeyOrder>(
    levels: Seq<Seq<FileMeta>>,
    l: int,
    s: int,
    e: int,
    p: int,
    q: int,
)
    requires
        levels.len() <= usize::MAX,
        selected::<O>(levels, l, s, e, p, q),
        builder::ordered::<O>(FileOrder::Newest, levels[0]),
    ensures
        ages_in(levels, l, s, e, p, q).len() == inputs_of(levels, l, s, e, p, q).len(),
        forall|i: int, j: int|
            0 <= i < j < ages_in(levels, l, s, e, p, q).len() ==> !merging_iter::replaces(
                #[trigger] ages_in(levels, l, s, e, p, q)[i],
                #[trigger] ages_in(levels, l, s, e, p, q)[j],
            ),
{
    let ages = ages_in(levels, l, s, e, p, q);
    let a = levels[l].subrange(s, e);
    let b = levels[l + 1].subrange(p, q);
    let x = version::input_ages(l as usize, a);
    let y = version::input_ages(1, b);
    assert(ages == x + y);
    assert forall|i: int, j: int| 0 <= i < j < ages.len() implies !merging_iter::replaces(
        #[trigger] ages[i],
        #[trigger] ages[j],
    ) by {
        if j >= a.len() {
            assert(ages[j] == y[j - a.len()]);
            assert(ages[j].invalid());
        } else {
            assert(ages[i] == x[i]);
            assert(ages[j] == x[j]);
            if l == 0 {
                assert(a[i] == levels[0][s + i] && a[j] == levels[0][s + j]);
                assert(!builder::file_less::<O>(
                    FileOrder::Newest,
                    levels[0][s + j],
                    levels[0][s + i],
                ));
            } else {
                assert(l as usize == l);
                assert(ages[j].invalid());
            }
        }
    }
}

pub proof fn lemma_inputs_sound<O: KeyOrder>(
    contents: Map<TableFileRef, Seq<u8>>,
    levels: Seq<Seq<FileMeta>>,
    l: int,
    s: int,
    e: int,
    p: int,
    q: int,
)
    requires
        version_sound::<O>(contents, levels),
        selected::<O>(levels, l, s, e, p, q),
    ensures
        ({
            let inputs = inputs_of(levels, l, s, e, p, q);
            &&& forall|i: int|
                0 <= i < inputs.len() ==> file_sound::<O>(contents, #[trigger] inputs[i])
            &&& merging_iter::tables_sorted::<O>(version::input_tables(contents, inputs))
        }),
{
    let inputs = inputs_of(levels, l, s, e, p, q);
    let tables = version::input_tables(contents, inputs);
    let a = levels[l].subrange(s, e);
    assert(files_sound::<O>(contents, levels[l]));
    assert(files_sound::<O>(contents, levels[l + 1]));
    assert forall|i: int| 0 <= i < inputs.len() implies file_sound::<O>(
        contents,
        #[trigger] inputs[i],
    ) by {
        if i < a.len() {
            assert(inputs[i] == levels[l][s + i]);
        } else {
            assert(inputs[i] == levels[l + 1][p + i - a.len()]);
        }
    }
    assert forall|i: int| 0 <= i < tables.len() implies key::ascending::<O>(#[trigger] tables[i])
        && key::keys_valid::<O>(tables[i]) by {
        assert(file_sound::<O>(contents, inputs[i]));
        assert(tables[i] == entries_in(contents, inputs[i]));
    }
}

/// The merged entries of a compaction are in order, none of their keys is empty, each lies within
/// the bounds of one of the files, and a key has the value of the first file that has it.
proof fn lemma_merged_inputs<O: KeyOrder>(
    contents: Map<TableFileRef, Seq<u8>>,
    levels: Seq<Seq<FileMeta>>,
    l: int,
    s: int,
    e: int,
    p: int,
    q: int,
)
    requires
        version_sound::<O>(contents, levels),
        selected::<O>(levels, l, s, e, p, q),
        levels.len() <= usize::MAX,
    ensures
        ({
            let all = merged_inputs::<O>(contents, levels, l, s, e, p, q);
            let inputs = inputs_of(levels, l, s, e, p, q);
            &&& key::ascending::<O>(all)
            &&& key::keys_valid::<O>(all)
            &&& forall|k: Seq<u8>| #[trigger]
                table::lookup(all, k) == first_value(contents, inputs, k)
            &&& forall|i: int|
                0 <= i < all.len() ==> (#[trigger] all[i]).0.len() > 0 && exists|x: int|
                    0 <= x < inputs.len() && version::in_range::<O>(
                        #[trigger] inputs[x],
                        all[i].0,
                    )
        }),
{
    let all = merged_inputs::<O>(contents, levels, l, s, e, p, q);
    let inputs = inputs_of(levels, l, s, e, p, q);
    let ages = ages_in(levels, l, s, e, p, q);
    let tables = version::input_tables(contents, inputs);
    lemma_inputs_sound::<O>(contents, levels, l, s, e, p, q);
    lemma_ages::<O>(levels, l, s, e, p, q);
    merging_iter::lemma_merged::<O>(None, ages, tables);
    assert forall|k: Seq<u8>| #[trigger] table::lookup(all, k) == first_value(
        contents,
        inputs,
        k,
    ) by {
        lemma_winner_first(contents, ages, inputs, k, inputs.len());
        assert(inputs.take(inputs.len() as int) =~= inputs);
        assert(merging_iter::taken_value(None, k) is None);
    }
    assert forall|i: int| 0 <= i < all.len() implies (#[trigger] all[i]).0.len() > 0 && exists|
        x: int,
    |
        0 <= x < inputs.len() && version::in_range::<O>(#[trigger] inputs[x], all[i].0) by {
        let k = all[i].0;
        O::irreflexive(k);
        assert forall|j: int| 0 <= j < i implies (#[trigger] all[j]).0 != k by {
            assert(O::lt(all[j].0, all[i].0));
        }
        table::lemma_lookup_at(all, k, i);
        let x = lemma_first_value(contents, inputs, k);
        assert(x < inputs.len());
        assert(file_sound::<O>(contents, inputs[x]));
        lemma_value_bounds::<O>(contents, inputs[x], k);
        let es = entries_in(contents, inputs[x]);
        lemma_lookup_has(es, k);
        let j = choose|j: int| 0 <= j < es.len() && (#[trigger] es[j]).0 == k;
        assert(es[j].0.len() > 0);
        assert(version::in_range::<O>(inputs[x], all[i].0));
    }
}

/// A file below all files of a compaction lies below all their keys, and one above lies above.
proof fn lemma_outside<O: KeyOrder>(
    contents: Map<TableFileRef, Seq<u8>>,
    levels: Seq<Seq<FileMeta>>,
    l: int,
    s: int,
    e: int,
    p: int,
    q: int,
    i: int,
    k: Seq<u8>,
)
    requires
        version_sound::<O>(contents, levels),
        selected::<O>(levels, l, s, e, p, q),
        0 <= i < levels[l + 1].len(),
        i < p || i >= q,
        O::valid(k),
        exists|x: int|
            0 <= x < inputs_of(levels, l, s, e, p, q).len() && version::in_range::<O>(
                #[trigger] inputs_of(levels, l, s, e, p, q)[x],
                k,
            ),
    ensures
        i < p ==> O::lt(levels[l + 1][i].supremum, k),
        i >= q ==> O::lt(k, levels[l + 1][i].infimum),
{
    let inputs = inputs_of(levels, l, s, e, p, q);
    let a = levels[l].subrange(s, e);
    let x = choose|x: int|
        0 <= x < inputs.len() && version::in_range::<O>(#[trigger] inputs[x], k);
    let f = levels[l + 1][i];
    let g = inputs[x];
    lemma_inputs_sound::<O>(contents, levels, l, s, e, p, q);
    assert(file_sound::<O>(contents, inputs[x]));
    assert(files_sound::<O>(contents, levels[l + 1]));
    assert(file_sound::<O>(contents, levels[l + 1][i]));
    assert(disjoint::<O>(levels[l + 1]));
    if x < a.len() {
        assert(g == levels[l][s + x]);
    } else {
        assert(g == levels[l + 1][p + x - a.len()]);
    }
    if i < p {
        assert(O::lt(f.supremum, g.infimum));
        if g.infimum != k {
            O::total(g.infimum, k);
            O::transitive(f.supremum, g.infimum, k);
        }
    } else {
        assert(O::lt(g.supremum, f.infimum));
        if g.supremum != k {
            O::total(g.supremum, k);
            O::transitive(k, g.supremum, f.infimum);
        }
    }
}

proof fn lemma_added_all(outs: Seq<FileMeta>, level: usize, l: nat)
    ensures
        builder::added_at(outs.map_values(|f: FileMeta| (level, f)), l) == if l == level {
            outs
        } else {
            Seq::<FileMeta>::empty()
        },
    decreases outs.len(),
{
    let added = outs.map_values(|f: FileMeta| (level, f));
    if outs.len() > 0 {
        let init = outs.drop_last();
        assert(added.drop_last() =~= init.map_values(|f: FileMeta| (level, f)));
        lemma_added_all(init, level, l);
        assert(outs =~= init.push(outs.last()));
    }
}

/// Which files of a level are deleted by a compaction.
proof fn lemma_deleted(files: Seq<FileMeta>, level: usize, a: int, b: int)
    requires
        refs_distinct(files),
        0 <= a <= b <= files.len(),
    ensures
        forall|i: int|
            0 <= i < files.len() ==> (version::refs_at(level, files.subrange(a, b)).contains(
                (level, (#[trigger] files[i]).file_ref),
            ) <==> a <= i < b),
{
    let part = files.subrange(a, b);
    assert forall|i: int| 0 <= i < files.len() implies (version::refs_at(level, part).contains(
        (level, (#[trigger] files[i]).file_ref),
    ) <==> a <= i < b) by {
        if version::refs_at(level, part).contains((level, files[i].file_ref)) {
            let j = choose|j: int|
                0 <= j < part.len() && (#[trigger] part[j]).file_ref == files[i].file_ref;
            assert(part[j] == files[a + j]);
            if i < a + j {
                assert(files[i].file_ref != files[a + j].file_ref);
            }
            if a + j < i {
                assert(files[a + j].file_ref != files[i].file_ref);
            }
        }
        if a <= i < b {
            assert(part[i - a] == files[i]);
        }
    }
}

/// The levels after a compaction.
proof fn lemma_compacted_levels<O: KeyOrder>(
    contents: Map<TableFileRef, Seq<u8>>,
    levels: Seq<Seq<FileMeta>>,
    l: int,
    s: int,
    e: int,
    p: int,
    q: int,
    outs: Seq<FileMeta>,
)
    requires
        version_sound::<O>(contents, levels),
        selected::<O>(levels, l, s, e, p, q),
        levels.len() <= usize::MAX,
        builder::all_comparable::<O>(outs),
        refs_distinct(outs),
        refs_apart(outs, levels[l + 1]),
    ensures
        ({
            let after = builder::edited::<O>(
                levels,
                compaction_edit(levels, l, s, e, p, q, outs),
            );
            &&& after.len() == levels.len()
            &&& forall|i: int|
                0 <= i < levels.len() && i != l && i != l + 1 ==> #[trigger] after[i] == levels[i]
            &&& after[l] == levels[l].take(s) + levels[l].skip(e)
            &&& forall|x: FileMeta| #[trigger]
                after[l + 1].contains(x) <==> outs.contains(x) || exists|i: int|
                    0 <= i < levels[l + 1].len() && (i < p || i >= q) && #[trigger] levels[l
                        + 1][i] == x
            &&& refs_distinct(after[l + 1])
            &&& builder::all_comparable::<O>(after[l + 1])
            &&& builder::ordered::<O>(FileOrder::Smallest, after[l + 1])
        }),
{
    let edit = compaction_edit(levels, l, s, e, p, q, outs);
    let after = builder::edited::<O>(levels, edit);
    let none = Seq::<FileMeta>::empty();
    lemma_version_sound::<O>(contents, levels);
    assert(files_sound::<O>(contents, levels[l]));
    assert(files_sound::<O>(contents, levels[l + 1]));
    lemma_deleted(levels[l], l as usize, s, e);
    lemma_deleted(levels[l + 1], (l + 1) as usize, p, q);
    assert forall|i: int| 0 <= i < levels.len() && i != l && i != l + 1 implies #[trigger] after[i]
        == levels[i] by {
        let order = FileOrder::of_level(i as nat);
        lemma_added_all(outs, (l + 1) as usize, i as nat);
        assert(builder::in_order::<O>(order, none) =~= none);
        assert(builder::merge_files::<O>(order, none, levels[i]) == levels[i]);
        let n = levels[i].len() as int;
        assert forall|j: int| 0 <= j < n implies (edit.deleted.contains(
            (i as usize, (#[trigger] levels[i][j]).file_ref),
        ) <==> n <= j < n) by {
            assert(i as usize != l as usize && i as usize != (l + 1) as usize);
        }
        lemma_kept_range(levels[i], i as nat, edit.deleted, n, n);
        assert(levels[i].take(n) + levels[i].skip(n) =~= levels[i]);
        lemma_unmarked(levels[i], i as nat, edit.marked);
    }
    assert(after[l] == levels[l].take(s) + levels[l].skip(e)) by {
        let order = FileOrder::of_level(l as nat);
        lemma_added_all(outs, (l + 1) as usize, l as nat);
        assert(builder::in_order::<O>(order, none) =~= none);
        assert forall|j: int| 0 <= j < levels[l].len() implies (edit.deleted.contains(
            (l as usize, (#[trigger] levels[l][j]).file_ref),
        ) <==> s <= j < e) by {
            assert(!version::refs_at((l + 1) as usize, levels[l + 1].subrange(p, q)).contains(
                (l as usize, levels[l][j].file_ref),
            ));
        }
        lemma_kept_range(levels[l], l as nat, edit.deleted, s, e);
        lemma_unmarked(levels[l].take(s) + levels[l].skip(e), l as nat, edit.marked);
    }
    let order = FileOrder::Smallest;
    let base = levels[l + 1];
    lemma_added_all(outs, (l + 1) as usize, (l + 1) as nat);
    let sorted = builder::in_order::<O>(order, outs);
    let mixed = builder::merge_files::<O>(order, sorted, base);
    let left = builder::kept(mixed, (l + 1) as nat, edit.deleted);
    lemma_unmarked(left, (l + 1) as nat, edit.marked);
    assert(after[l + 1] == left);
    lemma_in_order_all::<O>(order, outs);
    builder::lemma_in_order::<O>(order, outs);
    assert forall|i: int, j: int| 0 <= i < sorted.len() && 0 <= j < base.len() implies (
    #[trigger] sorted[i]).file_ref != (#[trigger] base[j]).file_ref by {
        assert(sorted.contains(sorted[i]));
        let n = choose|n: int| 0 <= n < outs.len() && outs[n] == sorted[i];
        assert(outs[n].file_ref != base[j].file_ref);
    }
    lemma_merge_all::<O>(order, sorted, base);
    lemma_kept_has(mixed, (l + 1) as nat, edit.deleted);
    assert forall|i: int|
        0 <= i < edit.added.len() implies builder::comparable::<O>(
        (#[trigger] edit.added[i]).1,
    ) by {
        assert(builder::comparable::<O>(outs[i]));
    }
    builder::lemma_edit_keeps_order::<O>(levels, edit);
    assert(builder::all_comparable::<O>(after[l + 1]));
    assert forall|x: FileMeta| #[trigger] after[l + 1].contains(x) <==> outs.contains(x) || exists|
        i: int,
    |
        0 <= i < base.len() && (i < p || i >= q) && #[trigger] base[i] == x by {
        let name = ((l + 1) as usize, x.file_ref);
        assert(!version::refs_at(l as usize, levels[l].subrange(s, e)).contains(name));
        if after[l + 1].contains(x) && !outs.contains(x) {
            assert(base.contains(x));
            let i = choose|i: int| 0 <= i < base.len() && base[i] == x;
            assert(!(p <= i < q));
        }
        if outs.contains(x) {
            let n = choose|n: int| 0 <= n < outs.len() && outs[n] == x;
            if edit.deleted.contains(name) {
                let part = base.subrange(p, q);
                let j = choose|j: int| 0 <= j < part.len() && (#[trigger] part[j]).file_ref == x.file_ref;
                assert(part[j] == base[p + j]);
                assert(outs[n].file_ref != base[p + j].file_ref);
            }
            assert(sorted.contains(x));
        }
        if exists|i: int| 0 <= i < base.len() && (i < p || i >= q) && #[trigger] base[i] == x {
            let i = choose|i: int|
                0 <= i < base.len() && (i < p || i >= q) && #[trigger] base[i] == x;
            assert(!edit.deleted.contains(((l + 1) as usize, base[i].file_ref)));
            assert(base.contains(x));
        }
    }
}

/// Whether the merged entries of the files of a compaction were written to new files.
pub open spec fn compacted<O: KeyOrder>(
    contents: Map<TableFileRef, Seq<u8>>,
    after: Map<TableFileRef, Seq<u8>>,
    levels: Seq<Seq<FileMeta>>,
    l: int,
    s: int,
    e: int,
    p: int,
    q: int,
    outs: Seq<FileMeta>,
    first: nat,
) -> bool {
    &&& outputs::numbers_unused(contents, first, first + outs.len())
    &&& first + outs.len() <= usize::MAX
    &&& outputs::only_added(contents, after, first, first + outs.len())
    &&& outputs::written_files(after, outs, first)
    &&& outputs::run_entries(after, outs) == merged_inputs::<O>(contents, levels, l, s, e, p, q)
}

/// A sound file stays sound when files are added.
proof fn lemma_still_sound<O: KeyOrder>(
    contents: Map<TableFileRef, Seq<u8>>,
    after: Map<TableFileRef, Seq<u8>>,
    f: FileMeta,
    first: nat,
    end: nat,
)
    requires
        file_sound::<O>(contents, f),
        outputs::numbers_unused(contents, first, end),
        outputs::only_added(contents, after, first, end),
    ensures
        file_sound::<O>(after, f),
        after[f.file_ref] == contents[f.file_ref],
{
    let r = f.file_ref;
    assert(contents.contains_key(r));
    assert(after.contains_key(r) == contents.contains_key(r));
    assert forall|i: int| 0 <= i < entries_in(after, f).len() implies version::in_range::<O>(
        f,
        (#[trigger] entries_in(after, f)[i]).0,
    ) by {
        assert(version::in_range::<O>(f, entries_in(contents, f)[i].0));
    }
}

/// What the outputs of a compaction are like.
pub proof fn lemma_compacted_outputs<O: KeyOrder>(
    contents: Map<TableFileRef, Seq<u8>>,
    after: Map<TableFileRef, Seq<u8>>,
    levels: Seq<Seq<FileMeta>>,
    l: int,
    s: int,
    e: int,
    p: int,
    q: int,
    outs: Seq<FileMeta>,
    first: nat,
)
    requires
        version_sound::<O>(contents, levels),
        selected::<O>(levels, l, s, e, p, q),
        levels.len() <= usize::MAX,
        compacted::<O>(contents, after, levels, l, s, e, p, q, outs, first),
    ensures
        files_sound::<O>(after, outs),
        disjoint::<O>(outs),
        builder::all_comparable::<O>(outs),
        refs_apart(outs, levels[l + 1]),
        forall|k: Seq<u8>| #[trigger]
            first_value(after, outs, k) == first_value(
                contents,
                inputs_of(levels, l, s, e, p, q),
                k,
            ),
        forall|i: int, x: int|
            0 <= i < levels[l + 1].len() && (i < p || i >= q) && 0 <= x < outs.len() ==> if i < p {
                O::lt((#[trigger] levels[l + 1][i]).supremum, (#[trigger] outs[x]).infimum)
            } else {
                O::lt(outs[x].supremum, levels[l + 1][i].infimum)
            },
{
    let all = merged_inputs::<O>(contents, levels, l, s, e, p, q);
    let inputs = inputs_of(levels, l, s, e, p, q);
    lemma_merged_inputs::<O>(contents, levels, l, s, e, p, q);
    lemma_outputs_sound::<O>(after, outs, first);
    assert forall|i: int| 0 <= i < outs.len() implies builder::comparable::<O>(
        #[trigger] outs[i],
    ) by {
        assert(file_sound::<O>(after, outs[i]));
    }
    assert(files_sound::<O>(contents, levels[l + 1]));
    assert forall|i: int, j: int| 0 <= i < outs.len() && 0 <= j < levels[l + 1].len() implies (
    #[trigger] outs[i]).file_ref != (#[trigger] levels[l + 1][j]).file_ref by {
        assert(file_sound::<O>(contents, levels[l + 1][j]));
        assert(contents.contains_key(levels[l + 1][j].file_ref));
    }
    assert forall|k: Seq<u8>| #[trigger] first_value(after, outs, k) == first_value(
        contents,
        inputs,
        k,
    ) by {
        lemma_run_value(after, outs, k);
        assert(table::lookup(all, k) == first_value(contents, inputs, k));
    }
    assert forall|i: int, x: int|
        0 <= i < levels[l + 1].len() && (i < p || i >= q) && 0 <= x < outs.len() implies if i < p {
        O::lt((#[trigger] levels[l + 1][i]).supremum, (#[trigger] outs[x]).infimum)
    } else {
        O::lt(outs[x].supremum, levels[l + 1][i].infimum)
    } by {
        let run = outputs::run_entries(after, outs);
        let (a, b) = choose|a: int, b: int|
            0 <= a < run.len() && 0 <= b < run.len() && outs[x].infimum == (#[trigger] run[a]).0
                && outs[x].supremum == (#[trigger] run[b]).0;
        assert(all[a].0.len() > 0 && all[b].0.len() > 0);
        if i < p {
            lemma_outside::<O>(contents, levels, l, s, e, p, q, i, all[a].0);
        } else {
            lemma_outside::<O>(contents, levels, l, s, e, p, q, i, all[b].0);
        }
    }
}

/// The level that a compaction writes to is sound afterwards.
proof fn lemma_lower_sound<O: KeyOrder>(
    contents: Map<TableFileRef, Seq<u8>>,
    after: Map<TableFileRef, Seq<u8>>,
    base: Seq<FileMeta>,
    files: Seq<FileMeta>,
    p: int,
    q: int,
    outs: Seq<FileMeta>,
    first: nat,
)
    requires
        files_sound::<O>(contents, base),
        disjoint::<O>(base),
        outputs::numbers_unused(contents, first, first + outs.len()),
        outputs::only_added(contents, after, first, first + outs.len()),
        files_sound::<O>(after, outs),
        disjoint::<O>(outs),
        forall|i: int, x: int|
            0 <= i < base.len() && (i < p || i >= q) && 0 <= x < outs.len() ==> if i < p {
                O::lt((#[trigger] base[i]).supremum, (#[trigger] outs[x]).infimum)
            } else {
                O::lt(outs[x].supremum, base[i].infimum)
            },
        forall|x: FileMeta| #[trigger]
            files.contains(x) <==> outs.contains(x) || exists|i: int|
                0 <= i < base.len() && (i < p || i >= q) && #[trigger] base[i] == x,
        refs_distinct(files),
        builder::all_comparable::<O>(files),
        builder::ordered::<O>(FileOrder::Smallest, files),
    ensures
        files_sound::<O>(after, files),
        disjoint::<O>(files),
{
    let end = first + outs.len();
    assert forall|i: int| 0 <= i < files.len() implies file_sound::<O>(
        after,
        #[trigger] files[i],
    ) by {
        assert(files.contains(files[i]));
        if outs.contains(files[i]) {
            let x = choose|x: int| 0 <= x < outs.len() && outs[x] == files[i];
            assert(file_sound::<O>(after, outs[x]));
        } else {
            let j = choose|j: int|
                0 <= j < base.len() && (j < p || j >= q) && #[trigger] base[j] == files[i];
            assert(file_sound::<O>(contents, base[j]));
            lemma_still_sound::<O>(contents, after, base[j], first, end);
        }
    }
    assert forall|i: int, j: int| 0 <= i < j < files.len() implies O::lt(
        (#[trigger] files[i]).supremum,
        (#[trigger] files[j]).infimum,
    ) || O::lt(files[j].supremum, files[i].infimum) by {
        let f = files[i];
        let g = files[j];
        assert(f.file_ref != g.file_ref);
        assert(files.contains(files[i]) && files.contains(files[j]));
        if outs.contains(f) {
            let x = choose|x: int| 0 <= x < outs.len() && outs[x] == f;
            if outs.contains(g) {
                let y = choose|y: int| 0 <= y < outs.len() && outs[y] == g;
                if x < y {
                    assert(O::lt(outs[x].supremum, outs[y].infimum));
                } else {
                    assert(O::lt(outs[y].supremum, outs[x].infimum));
                }
            } else {
                let y = choose|y: int|
                    0 <= y < base.len() && (y < p || y >= q) && #[trigger] base[y] == g;
                assert(base[y] == g && outs[x] == f);
            }
        } else {
            let x = choose|x: int|
                0 <= x < base.len() && (x < p || x >= q) && #[trigger] base[x] == f;
            if outs.contains(g) {
                let y = choose|y: int| 0 <= y < outs.len() && outs[y] == g;
                assert(base[x] == f && outs[y] == g);
            } else {
                let y = choose|y: int|
                    0 <= y < base.len() && (y < p || y >= q) && #[trigger] base[y] == g;
                if x < y {
                    assert(O::lt(base[x].supremum, base[y].infimum));
                } else {
                    assert(O::lt(base[y].supremum, base[x].infimum));
                }
            }
        }
    }
    lemma_apart_disjoint::<O>(files);
}

/// A compaction keeps a version sound: the files that it wrote hold tables with keys in order, lie
/// between their bounds, and overlap no other file of their level.
pub proof fn lemma_compaction_sound<O: KeyOrder>(
    contents: Map<TableFileRef, Seq<u8>>,
    after: Map<TableFileRef, Seq<u8>>,
    levels: Seq<Seq<FileMeta>>,
    l: int,
    s: int,
    e: int,
    p: int,
    q: int,
    outs: Seq<FileMeta>,
    first: nat,
)
    requires
        version_sound::<O>(contents, levels),
        selected::<O>(levels, l, s, e, p, q),
        levels.len() <= usize::MAX,
        compacted::<O>(contents, after, levels, l, s, e, p, q, outs, first),
    ensures
        version_sound::<O>(
            after,
            builder::edited::<O>(levels, compaction_edit(levels, l, s, e, p, q, outs)),
        ),
{
    let now = builder::edited::<O>(levels, compaction_edit(levels, l, s, e, p, q, outs));
    lemma_compacted_outputs::<O>(contents, after, levels, l, s, e, p, q, outs, first);
    lemma_compacted_levels::<O>(contents, levels, l, s, e, p, q, outs);
    let end = first + outs.len();
    assert forall|i: int| 0 <= i < now.len() && i != l + 1 implies files_sound::<O>(
        after,
        #[trigger] now[i],
    ) && (i == 0 ==> builder::ordered::<O>(FileOrder::Newest, now[i])) && (i >= 1
        ==> disjoint::<O>(now[i])) by {
        assert(files_sound::<O>(contents, levels[i]));
        if i == l {
            lemma_part_sound::<O>(contents, after, levels[l], s, e, first, end);
            if l >= 1 {
                assert(disjoint::<O>(levels[l]));
            }
        } else {
            let n = levels[i].len() as int;
            assert(levels[i].take(n) + levels[i].skip(n) =~= levels[i]);
            lemma_part_sound::<O>(contents, after, levels[i], n, n, first, end);
            if i >= 1 {
                assert(disjoint::<O>(levels[i]));
            }
        }
    }
    assert(files_sound::<O>(contents, levels[l + 1]));
    assert(disjoint::<O>(levels[l + 1]));
    lemma_lower_sound::<O>(contents, after, levels[l + 1], now[l + 1], p, q, outs, first);
}

/// Leaving out files keeps the others sound and in order.
proof fn lemma_part_sound<O: KeyOrder>(
    contents: Map<TableFileRef, Seq<u8>>,
    after: Map<TableFileRef, Seq<u8>>,
    files: Seq<FileMeta>,
    s: int,
    e: int,
    first: nat,
    end: nat,
)
    requires
        files_sound::<O>(contents, files),
        0 <= s <= e <= files.len(),
        outputs::numbers_unused(contents, first, end),
        outputs::only_added(contents, after, first, end),
    ensures
        files_sound::<O>(after, files.take(s) + files.skip(e)),
        builder::ordered::<O>(FileOrder::Newest, files) ==> builder::ordered::<O>(
            FileOrder::Newest,
            files.take(s) + files.skip(e),
        ),
        disjoint::<O>(files) ==> disjoint::<O>(files.take(s) + files.skip(e)),
{
    let part = files.take(s) + files.skip(e);
    assert forall|i: int| 0 <= i < part.len() implies #[trigger] part[i] == files[if i < s {
        i
    } else {
        i - s + e
    }] by {}
    assert forall|i: int| 0 <= i < part.len() implies file_sound::<O>(
        after,
        #[trigger] part[i],
    ) by {
        let j = if i < s {
            i
        } else {
            i - s + e
        };
        assert(file_sound::<O>(contents, files[j]));
        lemma_still_sound::<O>(contents, after, files[j], first, end);
    }
    assert forall|i: int, j: int| 0 <= i < j < part.len() implies (#[trigger] part[i]).file_ref
        != (#[trigger] part[j]).file_ref by {
        let a = if i < s {
            i
        } else {
            i - s + e
        };
        let b = if j < s {
            j
        } else {
            j - s + e
        };
        assert(files[a].file_ref != files[b].file_ref);
    }
    if builder::ordered::<O>(FileOrder::Newest, files) {
        assert forall|i: int, j: int| 0 <= i < j < part.len() implies !builder::file_less::<O>(
            FileOrder::Newest,
            #[trigger] part[j],
            #[trigger] part[i],
        ) by {
            let a = if i < s {
                i
            } else {
                i - s + e
            };
            let b = if j < s {
                j
            } else {
                j - s + e
            };
            assert(!builder::file_less::<O>(FileOrder::Newest, files[b], files[a]));
        }
    }
    if disjoint::<O>(files) {
        assert forall|i: int, j: int| 0 <= i < j < part.len() implies O::lt(
            (#[trigger] part[i]).supremum,
            (#[trigger] part[j]).infimum,
        ) by {
            let a = if i < s {
                i
            } else {
                i - s + e
            };
            let b = if j < s {
                j
            } else {
                j - s + e
            };
            assert(O::lt(files[a].supremum, files[b].infimum));
        }
    }
}

/// The value of a key in two neighbouring levels.
spec fn two_levels(
    contents: Map<TableFileRef, Seq<u8>>,
    levels: Seq<Seq<FileMeta>>,
    l: int,
    k: Seq<u8>,
) -> Option<Seq<u8>> {
    match first_value(contents, levels[l], k) {
        Some(v) => Some(v),
        None => first_value(contents, levels[l + 1], k),
    }
}

proof fn lemma_from_level<O: KeyOrder>(
    a_contents: Map<TableFileRef, Seq<u8>>,
    a: Seq<Seq<FileMeta>>,
    b_contents: Map<TableFileRef, Seq<u8>>,
    b: Seq<Seq<FileMeta>>,
    l: int,
    n: nat,
    k: Seq<u8>,
)
    requires
        a.len() == b.len(),
        0 <= l,
        l + 1 < a.len(),
        n <= a.len(),
        n != l + 1,
        forall|i: int|
            0 <= i < a.len() && i != l && i != l + 1 ==> version::value_in_level::<O>(
                a_contents,
                i as nat,
                #[trigger] a[i],
                k,
            ) == version::value_in_level::<O>(b_contents, i as nat, b[i], k),
        (match version::value_in_level::<O>(a_contents, l as nat, a[l], k) {
            Some(v) => Some(v),
            None => version::value_in_level::<O>(a_contents, (l + 1) as nat, a[l + 1], k),
        }) == (match version::value_in_level::<O>(b_contents, l as nat, b[l], k) {
            Some(v) => Some(v),
            None => version::value_in_level::<O>(b_contents, (l + 1) as nat, b[l + 1], k),
        }),
    ensures
        version::value_from_level::<O>(a_contents, a, n, k) == version::value_from_level::<O>(
            b_contents,
            b,
            n,
            k,
        ),
    decreases a.len() - n,
{
    if n < a.len() {
        if n == l {
            lemma_from_level::<O>(a_contents, a, b_contents, b, l, n + 2, k);
            reveal_with_fuel(version::value_from_level, 3);
            assert(a[(n + 1) as int] == a[l + 1] && b[(n + 1) as int] == b[l + 1]);
        } else {
            lemma_from_level::<O>(a_contents, a, b_contents, b, l, n + 1, k);
            assert(a[n as int] == a[n as int]);
        }
    }
}

/// In a sound version the first file of a level that has a key decides.
pub proof fn lemma_sound_level<O: KeyOrder>(
    contents: Map<TableFileRef, Seq<u8>>,
    levels: Seq<Seq<FileMeta>>,
    n: int,
    k: Seq<u8>,
)
    requires
        version_sound::<O>(contents, levels),
        0 <= n < levels.len(),
        O::valid(k),
    ensures
        version::value_in_level::<O>(contents, n as nat, levels[n], k) == first_value(
            contents,
            levels[n],
            k,
        ),
{
    assert(files_sound::<O>(contents, levels[n]));
    if n > 0 {
        assert(disjoint::<O>(levels[n]));
    }
    lemma_level_value::<O>(contents, n as nat, levels[n], k);
}

/// Compaction changes no value: what a key had in the table files before, it has afterwards.
pub proof fn lemma_compaction_keeps_values<O: KeyOrder>(
    contents: Map<TableFileRef, Seq<u8>>,
    after: Map<TableFileRef, Seq<u8>>,
    levels: Seq<Seq<FileMeta>>,
    l: int,
    s: int,
    e: int,
    p: int,
    q: int,
    outs: Seq<FileMeta>,
    first: nat,
    k: Seq<u8>,
)
    requires
        version_sound::<O>(contents, levels),
        selected::<O>(levels, l, s, e, p, q),
        levels.len() <= usize::MAX,
        compacted::<O>(contents, after, levels, l, s, e, p, q, outs, first),
        O::valid(k),
    ensures
        version::value_from_level::<O>(
            after,
            builder::edited::<O>(levels, compaction_edit(levels, l, s, e, p, q, outs)),
            0,
            k,
        ) == version::value_from_level::<O>(contents, levels, 0, k),
{
    let now = builder::edited::<O>(levels, compaction_edit(levels, l, s, e, p, q, outs));
    lemma_compaction_sound::<O>(contents, after, levels, l, s, e, p, q, outs, first);
    lemma_compacted_outputs::<O>(contents, after, levels, l, s, e, p, q, outs, first);
    lemma_compacted_levels::<O>(contents, levels, l, s, e, p, q, outs);
    assert forall|i: int|
        0 <= i < levels.len() && i != l && i != l + 1 implies version::value_in_level::<O>(
        contents,
        i as nat,
        #[trigger] levels[i],
        k,
    ) == version::value_in_level::<O>(after, i as nat, now[i], k) by {
        lemma_sound_level::<O>(contents, levels, i, k);
        lemma_sound_level::<O>(after, now, i, k);
        assert(files_sound::<O>(contents, levels[i]));
        assert forall|j: int| 0 <= j < levels[i].len() implies after[(
        #[trigger] levels[i][j]).file_ref] == contents[levels[i][j].file_ref] by {
            assert(file_sound::<O>(contents, levels[i][j]));
            lemma_still_sound::<O>(contents, after, levels[i][j], first, first + outs.len());
        }
        lemma_same_values(contents, after, levels[i], k);
    }
    lemma_two_levels::<O>(contents, after, levels, now, l, s, e, p, q, outs, first, k);
    lemma_sound_level::<O>(contents, levels, l, k);
    lemma_sound_level::<O>(contents, levels, l + 1, k);
    lemma_sound_level::<O>(after, now, l, k);
    lemma_sound_level::<O>(after, now, l + 1, k);
    lemma_from_level::<O>(contents, levels, after, now, l, 0, k);
}

proof fn lemma_two_levels<O: KeyOrder>(
    contents: Map<TableFileRef, Seq<u8>>,
    after: Map<TableFileRef, Seq<u8>>,
    levels: Seq<Seq<FileMeta>>,
    now: Seq<Seq<FileMeta>>,
    l: int,
    s: int,
    e: int,
    p: int,
    q: int,
    outs: Seq<FileMeta>,
    first: nat,
    k: Seq<u8>,
)
    requires
        version_sound::<O>(contents, levels),
        version_sound::<O>(after, now),
        selected::<O>(levels, l, s, e, p, q),
        levels.len() <= usize::MAX,
        compacted::<O>(contents, after, levels, l, s, e, p, q, outs, first),
        now.len() == levels.len(),
        now[l] == levels[l].take(s) + levels[l].skip(e),
        forall|x: FileMeta| #[trigger]
            now[l + 1].contains(x) <==> outs.contains(x) || exists|i: int|
                0 <= i < levels[l + 1].len() && (i < p || i >= q) && #[trigger] levels[l + 1][i]
                    == x,
        O::valid(k),
    ensures
        two_levels(contents, levels, l, k) == two_levels(after, now, l, k),
{
    let upper = levels[l];
    let lower = levels[l + 1];
    let start = upper.subrange(s, e);
    let rest = lower.subrange(p, q);
    let inputs = inputs_of(levels, l, s, e, p, q);
    let end = first + outs.len();
    lemma_compacted_outputs::<O>(contents, after, levels, l, s, e, p, q, outs, first);
    assert(files_sound::<O>(contents, upper));
    assert(files_sound::<O>(contents, lower));
    assert(files_sound::<O>(after, now[l + 1]));
    assert(disjoint::<O>(lower));
    assert(disjoint::<O>(now[l + 1]));
    lemma_first_value_concat(contents, start, rest, k);
    // The files of the upper level that stay.
    let stay = upper.take(s) + upper.skip(e);
    assert forall|j: int| 0 <= j < stay.len() implies after[(#[trigger] stay[j]).file_ref]
        == contents[stay[j].file_ref] by {
        let i = if j < s {
            j
        } else {
            j - s + e
        };
        assert(stay[j] == upper[i]);
        assert(file_sound::<O>(contents, upper[i]));
        lemma_still_sound::<O>(contents, after, upper[i], first, end);
    }
    lemma_same_values(contents, after, stay, k);
    lemma_upper::<O>(contents, levels, l, s, e, k);
    // The files of the lower level.
    let n = lemma_first_value(after, now[l + 1], k);
    let m = lemma_first_value(contents, lower, k);
    if first_value(after, now[l], k) is None {
        if m < lower.len() && !(p <= m < q) {
            // A file of the lower level that stays has the key, so none that is read has it.
            assert(file_sound::<O>(contents, lower[m]));
            lemma_value_bounds::<O>(contents, lower[m], k);
            let x = lemma_first_value(contents, inputs, k);
            if x < inputs.len() {
                lemma_inputs_sound::<O>(contents, levels, l, s, e, p, q);
                assert(file_sound::<O>(contents, inputs[x]));
                lemma_value_bounds::<O>(contents, inputs[x], k);
                assert(version::in_range::<O>(inputs[x], k));
                lemma_outside::<O>(contents, levels, l, s, e, p, q, m, k);
            }
            assert(first_value(contents, start, k) is None);
            assert(now[l + 1].contains(lower[m]));
            let below = now[l + 1];
            let y = choose|y: int| 0 <= y < below.len() && below[y] == lower[m];
            lemma_still_sound::<O>(contents, after, lower[m], first, end);
            assert(version::value_in(after, now[l + 1][y], k) is Some);
            assert(n <= y) by {
                if n > y {
                    assert(version::value_in(after, now[l + 1][y], k) is None);
                }
            }
            lemma_only_one::<O>(after, now[l + 1], k, n, y);
        } else {
            // No file that stays has the key.
            assert forall|i: int| 0 <= i < lower.len() && (i < p || i >= q) implies version::value_in(
                contents,
                #[trigger] lower[i],
                k,
            ) is None by {
                if version::value_in(contents, lower[i], k) is Some {
                    assert(m <= i) by {
                        if m > i {
                            assert(version::value_in(contents, lower[i], k) is None);
                        }
                    }
                    lemma_only_one::<O>(contents, lower, k, m, i);
                }
            }
            lemma_lower_inputs::<O>(contents, lower, p, q, k);
            if n < now[l + 1].len() {
                let f = now[l + 1][n];
                assert(now[l + 1].contains(f));
                if outs.contains(f) {
                    let x = choose|x: int| 0 <= x < outs.len() && outs[x] == f;
                    let y = lemma_first_value(after, outs, k);
                    assert(y <= x) by {
                        if y > x {
                            assert(version::value_in(after, outs[x], k) is None);
                        }
                    }
                    lemma_only_one::<O>(after, outs, k, y, x);
                } else {
                    let i = choose|i: int|
                        0 <= i < lower.len() && (i < p || i >= q) && #[trigger] lower[i] == f;
                    assert(file_sound::<O>(contents, lower[i]));
                    lemma_still_sound::<O>(contents, after, lower[i], first, end);
                    assert(version::value_in(contents, lower[i], k) is None);
                }
            } else {
                let y = lemma_first_value(after, outs, k);
                if y < outs.len() {
                    assert(now[l + 1].contains(outs[y]));
                    let below = now[l + 1];
                    let z = choose|z: int| 0 <= z < below.len() && below[z] == outs[y];
                    assert(version::value_in(after, now[l + 1][z], k) is None);
                }
            }
        }
    }
}

/// Of the upper level, either a file that stays has the key, or the files that are read decide.
proof fn lemma_upper<O: KeyOrder>(
    contents: Map<TableFileRef, Seq<u8>>,
    levels: Seq<Seq<FileMeta>>,
    l: int,
    s: int,
    e: int,
    k: Seq<u8>,
)
    requires
        version_sound::<O>(contents, levels),
        0 <= l < levels.len(),
        0 <= s <= e <= levels[l].len(),
        l == 0 ==> e == levels[l].len(),
        O::valid(k),
    ensures
        first_value(contents, levels[l], k) == match first_value(
            contents,
            levels[l].take(s) + levels[l].skip(e),
            k,
        ) {
            Some(v) => Some(v),
            None => first_value(contents, levels[l].subrange(s, e), k),
        },
{
    let files = levels[l];
    let a = files.take(s);
    let b = files.subrange(s, e);
    let c = files.skip(e);
    assert(files =~= a + (b + c));
    lemma_first_value_concat(contents, a, b + c, k);
    lemma_first_value_concat(contents, b, c, k);
    lemma_first_value_concat(contents, a, c, k);
    if l == 0 {
        assert(c.len() == 0);
    } else {
        assert(files_sound::<O>(contents, files));
        assert(disjoint::<O>(files));
        let x = lemma_first_value(contents, b, k);
        let y = lemma_first_value(contents, c, k);
        if x < b.len() && y < c.len() {
            assert(b[x] == files[s + x] && c[y] == files[e + y]);
            lemma_only_one::<O>(contents, files, k, s + x, e + y);
        }
    }
}

/// Where no other file of the lower level has the key, those that are read decide.
proof fn lemma_lower_inputs<O: KeyOrder>(
    contents: Map<TableFileRef, Seq<u8>>,
    lower: Seq<FileMeta>,
    p: int,
    q: int,
    k: Seq<u8>,
)
    requires
        0 <= p <= q <= lower.len(),
        forall|i: int|
            0 <= i < lower.len() && (i < p || i >= q) ==> version::value_in(
                contents,
                #[trigger] lower[i],
                k,
            ) is None,
    ensures
        first_value(contents, lower, k) == first_value(contents, lower.subrange(p, q), k),
{
    let a = lower.take(p);
    let b = lower.subrange(p, q);
    let c = lower.skip(q);
    assert(lower =~= a + (b + c));
    lemma_first_value_concat(contents, a, b + c, k);
    lemma_first_value_concat(contents, b, c, k);
    assert forall|i: int| 0 <= i < a.len() implies version::value_in(
        contents,
        #[trigger] a[i],
        k,
    ) is None by {
        assert(a[i] == lower[i]);
    }
    assert forall|i: int| 0 <= i < c.len() implies version::value_in(
        contents,
        #[trigger] c[i],
        k,
    ) is None by {
        assert(c[i] == lower[q + i]);
    }
    lemma_first_value_none(contents, a, k);
    lemma_first_value_none(contents, c, k);
}

/// What a flush changes: it adds a file to level 0.
pub open spec fn flush_edit(min_xip: Timestamp, f: FileMeta) -> EditView {
    EditView {
        min_xip: Some(min_xip),
        added: seq![(0usize, f)],
        deleted: Set::empty(),
        marked: Set::empty(),
    }
}

/// The levels after a flush.
pub proof fn lemma_flushed_levels<O: KeyOrder>(
    levels: Seq<Seq<FileMeta>>,
    min_xip: Timestamp,
    f: FileMeta,
)
    requires
        levels.len() > 0,
    ensures
        ({
            let now = builder::edited::<O>(levels, flush_edit(min_xip, f));
            &&& now.len() == levels.len()
            &&& now[0] == builder::merge_files::<O>(FileOrder::Newest, seq![f], levels[0])
            &&& forall|l: int| 1 <= l < levels.len() ==> #[trigger] now[l] == levels[l]
        }),
{
    let edit = flush_edit(min_xip, f);
    let now = builder::edited::<O>(levels, edit);
    let one = seq![f];
    assert(one.map_values(|g: FileMeta| (0usize, g)) =~= edit.added);
    assert forall|l: int| 0 <= l < levels.len() implies #[trigger] now[l] == if l == 0 {
        builder::merge_files::<O>(FileOrder::Newest, one, levels[0])
    } else {
        levels[l]
    } by {
        let order = FileOrder::of_level(l as nat);
        lemma_added_all(one, 0, l as nat);
        let added = builder::in_order::<O>(order, builder::added_at(edit.added, l as nat));
        if l == 0 {
            assert(one.drop_last() =~= Seq::<FileMeta>::empty());
            assert(builder::in_order::<O>(order, one.drop_last()) =~= Seq::<FileMeta>::empty());
            assert(builder::placed::<O>(order, Seq::<FileMeta>::empty(), f) =~= one);
            assert(added == one);
        } else {
            assert(added =~= Seq::<FileMeta>::empty());
        }
        let merged = builder::merge_files::<O>(order, added, levels[l]);
        version::lemma_kept_all(merged, l as nat, edit.deleted);
        lemma_unmarked(merged, l as nat, edit.marked);
    }
}

/// A flush keeps a version sound.
pub proof fn lemma_flush_sound<O: KeyOrder>(
    contents: Map<TableFileRef, Seq<u8>>,
    levels: Seq<Seq<FileMeta>>,
    min_xip: Timestamp,
    f: FileMeta,
)
    requires
        version_sound::<O>(contents, levels),
        levels.len() > 0,
        file_sound::<O>(contents, f),
        forall|i: int| 0 <= i < levels[0].len() ==> (#[trigger] levels[0][i]).file_ref != f.file_ref,
    ensures
        version_sound::<O>(contents, builder::edited::<O>(levels, flush_edit(min_xip, f))),
{
    let now = builder::edited::<O>(levels, flush_edit(min_xip, f));
    lemma_flushed_levels::<O>(levels, min_xip, f);
    let one = seq![f];
    let base = levels[0];
    let files = now[0];
    assert(files_sound::<O>(contents, base));
    assert forall|i: int| 0 <= i < base.len() implies builder::comparable::<O>(
        #[trigger] base[i],
    ) by {
        assert(file_sound::<O>(contents, base[i]));
    }
    builder::lemma_merge_ordered::<O>(FileOrder::Newest, one, base);
    lemma_merge_all::<O>(FileOrder::Newest, one, base);
    assert forall|i: int| 0 <= i < files.len() implies file_sound::<O>(
        contents,
        #[trigger] files[i],
    ) by {
        assert(files.contains(files[i]));
        if one.contains(files[i]) {
            let j = choose|j: int| 0 <= j < one.len() && one[j] == files[i];
            assert(files[i] == f);
        } else {
            let j = choose|j: int| 0 <= j < base.len() && base[j] == files[i];
            assert(file_sound::<O>(contents, base[j]));
        }
    }
    assert forall|l: int| 0 <= l < now.len() implies files_sound::<O>(contents, #[trigger] now[l]) by {
        if l > 0 {
            assert(files_sound::<O>(contents, levels[l]));
        }
    }
    assert forall|l: int| 1 <= l < now.len() implies disjoint::<O>(#[trigger] now[l]) by {
        assert(disjoint::<O>(levels[l]));
    }
}

/// After a flush the table that was flushed comes first, and then the files that there were.
pub proof fn lemma_flush_value<O: KeyOrder>(
    contents: Map<TableFileRef, Seq<u8>>,
    levels: Seq<Seq<FileMeta>>,
    min_xip: Timestamp,
    f: FileMeta,
    k: Seq<u8>,
)
    requires
        version_sound::<O>(contents, levels),
        levels.len() > 0,
        file_sound::<O>(contents, f),
        forall|i: int| 0 <= i < levels[0].len() ==> (#[trigger] levels[0][i]).file_ref != f.file_ref,
        forall|i: int| 0 <= i < levels[0].len() ==> (#[trigger] levels[0][i]).min_xip.before(f.min_xip),
        O::valid(k),
    ensures
        version::value_from_level::<O>(
            contents,
            builder::edited::<O>(levels, flush_edit(min_xip, f)),
            0,
            k,
        ) == match version::value_in(contents, f, k) {
            Some(v) => Some(v),
            None => version::value_from_level::<O>(contents, levels, 0, k),
        },
{
    let now = builder::edited::<O>(levels, flush_edit(min_xip, f));
    lemma_flushed_levels::<O>(levels, min_xip, f);
    lemma_flush_sound::<O>(contents, levels, min_xip, f);
    let one = seq![f];
    let base = levels[0];
    if base.len() > 0 {
        assert(base[0].min_xip.before(f.min_xip));
        assert(builder::file_less::<O>(FileOrder::Newest, one[0], base[0]));
        assert(builder::merge_files::<O>(FileOrder::Newest, one.drop_first(), base) == base);
        assert(seq![one[0]] =~= one);
    }
    assert(now[0] =~= one + base);
    lemma_first_value_concat(contents, one, base, k);
    assert(one.drop_first() =~= Seq::<FileMeta>::empty());
    assert(first_value(contents, one.drop_first(), k) is None);
    assert(one[0] == f);
    lemma_sound_level::<O>(contents, levels, 0, k);
    lemma_sound_level::<O>(contents, now, 0, k);
    lemma_rest_same::<O>(contents, levels, now, 1, k);
}

proof fn lemma_rest_same<O: KeyOrder>(
    contents: Map<TableFileRef, Seq<u8>>,
    a: Seq<Seq<FileMeta>>,
    b: Seq<Seq<FileMeta>>,
    n: nat,
    k: Seq<u8>,
)
    requires
        a.len() == b.len(),
        forall|l: int| n <= l < a.len() ==> #[trigger] b[l] == a[l],
    ensures
        version::value_from_level::<O>(contents, a, n, k) == version::value_from_level::<O>(
            contents,
            b,
            n,
            k,
        ),
    decreases a.len() - n,
{
    if n < a.len() {
        assert(b[n as int] == a[n as int]);
        lemma_rest_same::<O>(contents, a, b, n + 1, k);
    }
}

/// Whether what is in `before` is also in `after`.
pub open spec fn holds_all(
    before: Map<TableFileRef, Seq<u8>>,
    after: Map<TableFileRef, Seq<u8>>,
) -> bool {
    forall|f: TableFileRef| #[trigger]
        before.contains_key(f) ==> after.contains_key(f) && after[f] == before[f]
}

/// Files that are added do not matter for whether a version is sound.
pub proof fn lemma_more_sound<O: KeyOrder>(
    before: Map<TableFileRef, Seq<u8>>,
    after: Map<TableFileRef, Seq<u8>>,
    levels: Seq<Seq<FileMeta>>,
)
    requires
        version_sound::<O>(before, levels),
        holds_all(before, after),
    ensures
        version_sound::<O>(after, levels),
{
    assert forall|l: int| 0 <= l < levels.len() implies files_sound::<O>(
        after,
        #[trigger] levels[l],
    ) by {
        assert(files_sound::<O>(before, levels[l]));
        assert forall|i: int| 0 <= i < levels[l].len() implies file_sound::<O>(
            after,
            #[trigger] levels[l][i],
        ) by {
            let f = levels[l][i];
            assert(file_sound::<O>(before, f));
            assert(before.contains_key(f.file_ref));
            assert forall|j: int| 0 <= j < entries_in(after, f).len() implies version::in_range::<
                O,
            >(f, (#[trigger] entries_in(after, f)[j]).0) by {
                assert(version::in_range::<O>(f, entries_in(before, f)[j].0));
            }
        }
    }
}

/// Files that are added do not matter for the value of a key.
pub proof fn lemma_more_values<O: KeyOrder>(
    before: Map<TableFileRef, Seq<u8>>,
    after: Map<TableFileRef, Seq<u8>>,
    levels: Seq<Seq<FileMeta>>,
    n: nat,
    k: Seq<u8>,
)
    requires
        version_sound::<O>(before, levels),
        holds_all(before, after),
        O::valid(k),
    ensures
        version::value_from_level::<O>(after, levels, n, k) == version::value_from_level::<O>(
            before,
            levels,
            n,
            k,
        ),
    decreases levels.len() - n,
{
    if n < levels.len() {
        let l = n as int;
        lemma_more_sound::<O>(before, after, levels);
        lemma_sound_level::<O>(before, levels, l, k);
        lemma_sound_level::<O>(after, levels, l, k);
        assert(files_sound::<O>(before, levels[l]));
        assert forall|i: int| 0 <= i < levels[l].len() implies after[(
        #[trigger] levels[l][i]).file_ref] == before[levels[l][i].file_ref] by {
            assert(file_sound::<O>(before, levels[l][i]));
            assert(before.contains_key(levels[l][i].file_ref));
        }
        lemma_same_values(before, after, levels[l], k);
        lemma_more_values::<O>(before, after, levels, n + 1, k);
    }
}

} // verus!

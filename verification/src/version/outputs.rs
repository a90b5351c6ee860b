//! Writes sorted entries to table files.
use crate::error::Error;
use crate::key;
use crate::key::KeyOrder;
use crate::merging_iter::MergingIter;
use crate::table;
use crate::table::block_table;
use crate::table::{
    BlockTableFactory, FileMeta, TableBuilder, TableFileMeta, TableFileRef, TableIterator,
    TableStore,
};
use crate::transaction::Timestamp;
use crate::utils::random_access::RandomAccess;
use crate::version::VersionSet;
use vstd::prelude::*;
use vstd::slice::slice_to_vec;

verus! {

/// Whether a table of the entries can be built.
pub open spec fn buildable(factory: BlockTableFactory, entries: Seq<(Seq<u8>, Seq<u8>)>) -> bool {
    let opts = factory.table_options();
    &&& opts.filter_policy.millibits_per_key > 0
    &&& block_table::table_fits(entries, opts.filter_policy.millibits_per_key as nat)
    &&& forall|i: int|
        0 <= i < entries.len() ==> block_table::entry_fits(
            opts.block_size as nat,
            (#[trigger] entries[i]).0,
            entries[i].1,
        )
}

proof fn lemma_bounds_take(entries: Seq<(Seq<u8>, Seq<u8>)>, n: int)
    requires
        0 <= n <= entries.len(),
    ensures
        block_table::data_bound(entries.take(n)) <= block_table::data_bound(entries),
        block_table::index_bound(entries.take(n)) <= block_table::index_bound(entries),
    decreases entries.len() - n,
{
    if n < entries.len() {
        assert(entries.take(n + 1).drop_last() =~= entries.take(n));
        lemma_bounds_take(entries, n + 1);
    } else {
        assert(entries.take(n) =~= entries);
    }
}

proof fn lemma_bounds_skip(entries: Seq<(Seq<u8>, Seq<u8>)>, n: int)
    requires
        0 <= n <= entries.len(),
    ensures
        block_table::data_bound(entries.skip(n)) <= block_table::data_bound(entries),
        block_table::index_bound(entries.skip(n)) <= block_table::index_bound(entries),
    decreases entries.len() - n,
{
    if n == entries.len() {
        assert(entries.skip(n) =~= Seq::<(Seq<u8>, Seq<u8>)>::empty());
        lemma_bounds_take(entries, 0);
        assert(entries.take(0) =~= Seq::<(Seq<u8>, Seq<u8>)>::empty());
    } else {
        let rest = entries.skip(n);
        let init = entries.drop_last();
        assert(rest.drop_last() =~= init.skip(n));
        assert(rest.last() == entries.last());
        lemma_bounds_skip(init, n);
    }
}

/// A part of the entries of a table that can be built can be built too.
pub proof fn lemma_buildable_part(
    factory: BlockTableFactory,
    entries: Seq<(Seq<u8>, Seq<u8>)>,
    a: int,
    b: int,
)
    requires
        buildable(factory, entries),
        0 <= a <= b <= entries.len(),
    ensures
        buildable(factory, entries.subrange(a, b)),
{
    let part = entries.subrange(a, b);
    assert(part =~= entries.take(b).skip(a));
    lemma_bounds_take(entries, b);
    lemma_bounds_skip(entries.take(b), a);
    let m = factory.table_options().filter_policy.millibits_per_key as int;
    let n = part.len() as int;
    let all = entries.len() as int;
    assert(n * m <= all * m) by (nonlinear_arith)
        requires
            n <= all,
            m >= 0,
    ;
    assert(0 <= n * m) by (nonlinear_arith)
        requires
            n >= 0,
            m >= 0,
    ;
    assert forall|i: int| 0 <= i < part.len() implies block_table::entry_fits(
        factory.table_options().block_size as nat,
        (#[trigger] part[i]).0,
        part[i].1,
    ) by {
        assert(part[i] == entries[a + i]);
    }
}

/// Whether entries can become one file: the table was not too large yet before the last of them
/// was added. Its size is looked at from the second entry on.
pub open spec fn one_file(
    factory: BlockTableFactory,
    run: Seq<(Seq<u8>, Seq<u8>)>,
    limit: int,
) -> bool {
    forall|n: int|
        2 <= n < run.len() ==> block_table::built_size(
            factory.table_options(),
            #[trigger] run.take(n),
        ) <= limit
}

/// Whether entries end a file: with the last of them, which is not the only one, the table is too
/// large.
pub open spec fn full_file(
    factory: BlockTableFactory,
    run: Seq<(Seq<u8>, Seq<u8>)>,
    limit: int,
) -> bool {
    run.len() >= 2 && block_table::built_size(factory.table_options(), run) > limit
}

/// Entries can become one file with one more if the table is not too large without it.
proof fn lemma_one_file_more(
    factory: BlockTableFactory,
    all: Seq<(Seq<u8>, Seq<u8>)>,
    n: int,
    limit: int,
)
    requires
        0 <= n < all.len(),
        one_file(factory, all.take(n), limit),
        n >= 2 ==> block_table::built_size(factory.table_options(), all.take(n)) <= limit,
    ensures
        one_file(factory, all.take(n + 1), limit),
{
    let run = all.take(n + 1);
    assert forall|j: int| 2 <= j < run.len() implies block_table::built_size(
        factory.table_options(),
        #[trigger] run.take(j),
    ) <= limit by {
        assert(run.take(j) =~= all.take(j));
        if j < n {
            assert(all.take(n).take(j) =~= all.take(j));
        }
    }
}

/// Whether every file that entries can be split into can be built.
pub open spec fn files_buildable(
    factory: BlockTableFactory,
    entries: Seq<(Seq<u8>, Seq<u8>)>,
    limit: int,
) -> bool {
    forall|a: int, b: int|
        0 <= a <= b <= entries.len() && one_file(factory, entries.subrange(a, b), limit)
            ==> buildable(factory, #[trigger] entries.subrange(a, b))
}

/// The files that the rest of the entries can be split into can be built too.
proof fn lemma_files_buildable_rest(
    factory: BlockTableFactory,
    entries: Seq<(Seq<u8>, Seq<u8>)>,
    limit: int,
    n: int,
)
    requires
        files_buildable(factory, entries, limit),
        0 <= n <= entries.len(),
    ensures
        files_buildable(factory, entries.skip(n), limit),
{
    let rest = entries.skip(n);
    assert forall|a: int, b: int|
        0 <= a <= b <= rest.len() && one_file(
            factory,
            rest.subrange(a, b),
            limit,
        ) implies buildable(factory, #[trigger] rest.subrange(a, b)) by {
        assert(rest.subrange(a, b) =~= entries.subrange(a + n, b + n));
    }
}

/// Where one table can hold all entries, so can the files that they are split into.
pub proof fn lemma_files_buildable(
    factory: BlockTableFactory,
    entries: Seq<(Seq<u8>, Seq<u8>)>,
    limit: int,
)
    requires
        buildable(factory, entries),
    ensures
        files_buildable(factory, entries, limit),
{
    assert forall|a: int, b: int|
        0 <= a <= b <= entries.len() && one_file(
            factory,
            entries.subrange(a, b),
            limit,
        ) implies buildable(factory, #[trigger] entries.subrange(a, b)) by {
        lemma_buildable_part(factory, entries, a, b);
    }
}

/// The entries of the tables of files, one after the other.
pub open spec fn run_entries(contents: Map<TableFileRef, Seq<u8>>, files: Seq<FileMeta>) -> Seq<
    (Seq<u8>, Seq<u8>),
>
    decreases files.len(),
{
    if files.len() == 0 {
        Seq::empty()
    } else {
        run_entries(contents, files.drop_last()) + block_table::table_entries(
            contents[files.last().file_ref],
        )
    }
}

/// Whether a file holds a table, and its bounds are the first and the last key of the table.
pub open spec fn exact_bounds(contents: Map<TableFileRef, Seq<u8>>, f: FileMeta) -> bool {
    let entries = block_table::table_entries(contents[f.file_ref]);
    &&& contents.contains_key(f.file_ref)
    &&& block_table::is_table(contents[f.file_ref])
    &&& entries.len() > 0
    &&& f.infimum == entries[0].0
    &&& f.supremum == entries.last().0
}

/// Whether files were written one after the other: they are numbered from `first` on, and their
/// bounds are right.
pub open spec fn written_files(
    contents: Map<TableFileRef, Seq<u8>>,
    files: Seq<FileMeta>,
    first: nat,
) -> bool {
    forall|i: int|
        0 <= i < files.len() ==> {
            let f = #[trigger] files[i];
            &&& f.file_ref == TableFileRef(0, (first + i) as usize)
            &&& exact_bounds(contents, f)
            &&& f.min_xip == Timestamp(0)
            &&& !f.being_compacted
            &&& f.size == contents[f.file_ref].len()
        }
}

/// Whether entries were split where they had to be: each file but the last one ends with the entry
/// that made its table larger than the limit, and no table went on after that.
pub open spec fn split_at(
    factory: BlockTableFactory,
    contents: Map<TableFileRef, Seq<u8>>,
    files: Seq<FileMeta>,
    limit: int,
) -> bool {
    forall|i: int|
        0 <= i < files.len() ==> {
            let f = #[trigger] files[i];
            &&& i < files.len() - 1 ==> full_file(
                factory,
                block_table::table_entries(contents[f.file_ref]),
                limit,
            )
            &&& one_file(factory, block_table::table_entries(contents[f.file_ref]), limit)
        }
}

/// Whether files were only added, under numbers from `first` to before `end`.
pub open spec fn only_added(
    before: Map<TableFileRef, Seq<u8>>,
    after: Map<TableFileRef, Seq<u8>>,
    first: nat,
    end: nat,
) -> bool {
    forall|f: TableFileRef|
        !(f.0 == 0 && first <= f.1 < end) ==> (#[trigger] after.contains_key(f)
            == before.contains_key(f)) && (before.contains_key(f) ==> after[f] == before[f])
}

/// Whether no file has a number from `first` to before `end`.
pub open spec fn numbers_unused(
    contents: Map<TableFileRef, Seq<u8>>,
    first: nat,
    end: nat,
) -> bool {
    forall|f: TableFileRef| #[trigger]
        contents.contains_key(f) && f.0 == 0 ==> !(first <= f.1 < end)
}

/// Whether no file has a number from `first` on.
pub open spec fn numbers_free(contents: Map<TableFileRef, Seq<u8>>, first: nat) -> bool {
    forall|f: TableFileRef| #[trigger] contents.contains_key(f) && f.0 == 0 ==> f.1 < first
}

/// Builds a table of an entry and those that follow it, until the table is large enough.
fn write_run<O: KeyOrder, R: RandomAccess>(
    factory: BlockTableFactory,
    it: &mut MergingIter<O, R>,
    key: &Vec<u8>,
    value: &Vec<u8>,
    limit: usize,
) -> (r: Result<(Vec<u8>, Vec<u8>), Error>)
    requires
        old(it).wf(),
        files_buildable(factory, seq![(key@, value@)] + old(it).remaining(), limit as int),
    ensures
        final(it).wf(),
        final(it).entries() == old(it).entries(),
        final(it).reliable() == old(it).reliable(),
        match r {
            Ok((bytes, last_key)) => {
                let n = old(it).remaining().len() - final(it).remaining().len();
                let all = seq![(key@, value@)] + old(it).remaining();
                &&& 0 <= n <= old(it).remaining().len()
                &&& final(it).remaining() == old(it).remaining().skip(n)
                &&& block_table::is_table(bytes@)
                &&& block_table::table_entries(bytes@) == all.take(n + 1)
                &&& last_key@ == all[n].0
                &&& one_file(factory, all.take(n + 1), limit as int)
                &&& final(it).remaining().len() > 0 ==> full_file(
                    factory,
                    all.take(n + 1),
                    limit as int,
                )
            },
            Err(_) => !old(it).reliable(),
        },
{
    let ghost rest = it.remaining();
    let ghost all = seq![(key@, value@)] + rest;
    let mut builder = factory.create_table_builder();
    proof {
        assert(one_file(factory, all.subrange(0, 1), limit as int));
        assert(all.subrange(0, 1) =~= builder.entries().push((key@, value@)));
        assert(all[0] == (key@, value@));
    }
    match builder.add(key.as_slice(), value.as_slice()) {
        Ok(_) => {},
        Err(e) => {
            return Err(e);
        },
    }
    let mut last_key = slice_to_vec(key.as_slice());
    let ghost mut n: int = 0;
    let mut full = false;
    let mut at_end = false;
    proof {
        assert(rest.skip(0) =~= rest);
        assert(builder.entries() =~= all.take(1));
        assert(all.take(1).drop_last() =~= Seq::<(Seq<u8>, Seq<u8>)>::empty());
        assert(all.take(1).last() == (key@, value@));
    }
    while !full && !at_end
        invariant
            it.wf(),
            it.entries() == old(it).entries(),
            it.reliable() == old(it).reliable(),
            rest == old(it).remaining(),
            all == seq![(key@, value@)] + rest,
            files_buildable(factory, all, limit as int),
            0 <= n <= rest.len(),
            !at_end ==> it.remaining() == rest.skip(n),
            at_end ==> n == rest.len() && it.remaining().len() == 0,
            builder.open(),
            builder.table_options() == factory.table_options(),
            builder.taken_out() == Seq::<u8>::empty(),
            builder.entries() == all.take(n + 1),
            last_key@ == all[n].0,
            full ==> n > 0 && builder.size() > limit,
            !full && n > 0 ==> builder.size() <= limit,
            one_file(factory, all.take(n + 1), limit as int),
        decreases rest.len() - n + if full || at_end {
            0int
        } else {
            1int
        },
    {
        match it.next() {
            Ok(Some((k, v))) => {
                proof {
                    assert(all[n + 1] == rest[n]);
                    let run = all.subrange(0, n + 2);
                    assert(run =~= all.take(n + 1).push((k@, v@)));
                    assert(run =~= all.take(n + 2));
                    builder.lemma_size();
                    lemma_one_file_more(factory, all, n + 1, limit as int);
                    assert(one_file(factory, run, limit as int));
                    assert(buildable(factory, run));
                    assert(run[n + 1] == all[n + 1]);
                    assert(block_table::entry_fits(
                        factory.table_options().block_size as nat,
                        all[n + 1].0,
                        all[n + 1].1,
                    ));
                }
                match builder.add(k.as_slice(), v.as_slice()) {
                    Ok(_) => {},
                    Err(e) => {
                        return Err(e);
                    },
                }
                last_key = k;
                proof {
                    n = n + 1;
                    assert(all.take(n + 1) =~= all.take(n).push((k@, v@)));
                    assert(rest.skip(n - 1).drop_first() =~= rest.skip(n));
                }
                if builder.size_hint() > limit {
                    full = true;
                }
            },
            Ok(None) => {
                at_end = true;
                proof {
                    assert(n == rest.len());
                }
            },
            Err(e) => {
                return Err(e);
            },
        }
    }
    proof {
        builder.lemma_size();
    }
    match builder.finish() {
        Ok(_) => {},
        Err(e) => {
            return Err(e);
        },
    }
    proof {
        builder.lemma_output();
        assert(Seq::<u8>::empty() + builder.pending() =~= builder.pending());
        if at_end {
            assert(rest.skip(n) =~= Seq::<(Seq<u8>, Seq<u8>)>::empty());
        }
    }
    let bytes = builder.take_output();
    Ok((bytes, last_key))
}

/// What files hold depends on their own bytes only.
pub proof fn lemma_run_same(
    before: Map<TableFileRef, Seq<u8>>,
    after: Map<TableFileRef, Seq<u8>>,
    files: Seq<FileMeta>,
)
    requires
        forall|i: int|
            0 <= i < files.len() ==> after[(#[trigger] files[i]).file_ref]
                == before[files[i].file_ref],
    ensures
        run_entries(after, files) == run_entries(before, files),
    decreases files.len(),
{
    if files.len() > 0 {
        let init = files.drop_last();
        assert forall|i: int| 0 <= i < init.len() implies after[(#[trigger] init[i]).file_ref]
            == before[init[i].file_ref] by {
            assert(init[i] == files[i]);
        }
        lemma_run_same(before, after, init);
        assert(files[files.len() - 1] == files.last());
        assert(after[files[files.len() - 1].file_ref] == before[files.last().file_ref]);
    }
}

/// Writes an entry and those that follow it to a new file, which is closed when it is large enough.
fn write_output<O: KeyOrder, S: TableStore>(
    factory: BlockTableFactory,
    store: &mut S,
    vset: &mut VersionSet,
    it: &mut MergingIter<O, S::Reader>,
    key: Vec<u8>,
    value: Vec<u8>,
    limit: usize,
) -> (r: Result<TableFileMeta, Error>)
    requires
        old(it).wf(),
        files_buildable(factory, seq![(key@, value@)] + old(it).remaining(), limit as int),
        old(vset).next_file() < usize::MAX,
        numbers_free(old(store).files(), old(vset).next_file()),
    ensures
        final(vset).same_but_next_file(*old(vset)),
        final(vset).next_file() == old(vset).next_file() + 1,
        final(store).reliable() == old(store).reliable(),
        final(it).reliable() == old(it).reliable(),
        final(it).wf(),
        only_added(
            old(store).files(),
            final(store).files(),
            old(vset).next_file(),
            final(vset).next_file(),
        ),
        numbers_free(final(store).files(), final(vset).next_file()),
        match r {
            Ok(meta) => {
                let n = old(it).remaining().len() - final(it).remaining().len();
                let all = seq![(key@, value@)] + old(it).remaining();
                &&& 0 <= n <= old(it).remaining().len()
                &&& final(it).remaining() == old(it).remaining().skip(n)
                &&& written_files(final(store).files(), seq![meta@], old(vset).next_file())
                &&& block_table::table_entries(final(store).files()[meta@.file_ref]) == all.take(
                    n + 1,
                )
                &&& one_file(factory, all.take(n + 1), limit as int)
                &&& final(it).remaining().len() > 0 ==> full_file(
                    factory,
                    all.take(n + 1),
                    limit as int,
                )
            },
            Err(_) => !old(store).reliable() || !old(it).reliable(),
        },
{
    let ghost contents = store.files();
    let ghost first = vset.next_file();
    let ghost rest = it.remaining();
    let ghost all = seq![(key@, value@)] + rest;
    let file_num = vset.new_file_number();
    let file_ref = TableFileRef::new(0, file_num);
    let (bytes, last_key) = match write_run(factory, it, &key, &value, limit) {
        Ok(res) => res,
        Err(e) => {
            return Err(e);
        },
    };
    let size: usize = bytes.len();
    let ghost bs = bytes@;
    match store.create_table(file_ref, bytes) {
        Ok(_) => {},
        Err(e) => {
            proof {
                lemma_tried(contents, store.files(), file_ref, first);
            }
            return Err(e);
        },
    }
    let meta = TableFileMeta::new(file_ref, size, Timestamp::default(), key, last_key);
    proof {
        let n = rest.len() - it.remaining().len();
        let run = all.take(n + 1);
        assert(run[0] == all[0]);
        assert(run.last() == all[n]);
        assert(store.files().remove(file_ref) =~= contents.remove(file_ref));
        lemma_tried(contents, store.files(), file_ref, first);
    }
    Ok(meta)
}

/// Writing the file with the next number leaves the others alone.
proof fn lemma_tried(
    before: Map<TableFileRef, Seq<u8>>,
    after: Map<TableFileRef, Seq<u8>>,
    file_ref: TableFileRef,
    first: nat,
)
    requires
        after.remove(file_ref) == before.remove(file_ref),
        file_ref.0 == 0,
        file_ref.1 == first,
        numbers_free(before, first),
    ensures
        only_added(before, after, first, first + 1),
        numbers_free(after, first + 1),
{
    assert forall|f: TableFileRef| f != file_ref implies (#[trigger] after.contains_key(f)
        == before.contains_key(f)) && (before.contains_key(f) ==> after[f] == before[f]) by {
        let a = after.remove(file_ref);
        let b = before.remove(file_ref);
        assert(a.contains_key(f) == after.contains_key(f));
        assert(b.contains_key(f) == before.contains_key(f));
        if before.contains_key(f) {
            assert(a[f] == after[f]);
            assert(b[f] == before[f]);
        }
    }
    assert forall|f: TableFileRef| #[trigger] after.contains_key(f) && f.0 == 0 implies f.1 < first
        + 1 by {
        if f != file_ref {
            assert(before.contains_key(f));
        }
    }
}

/// One more file after those that were written.
proof fn lemma_written_more(
    before: Map<TableFileRef, Seq<u8>>,
    after: Map<TableFileRef, Seq<u8>>,
    files: Seq<FileMeta>,
    f: FileMeta,
    first: nat,
)
    requires
        written_files(before, files, first),
        first + files.len() < usize::MAX,
        only_added(before, after, first + files.len(), first + files.len() + 1),
        written_files(after, seq![f], first + files.len()),
    ensures
        written_files(after, files.push(f), first),
        run_entries(after, files.push(f)) == run_entries(before, files)
            + block_table::table_entries(after[f.file_ref]),
{
    let now = files.push(f);
    assert(seq![f][0] == f);
    assert forall|i: int| 0 <= i < files.len() implies after[(#[trigger] files[i]).file_ref]
        == before[files[i].file_ref] && after.contains_key(files[i].file_ref) by {
        let r = files[i].file_ref;
        assert(before.contains_key(r));
        assert(after.contains_key(r) == before.contains_key(r));
    }
    lemma_run_same(before, after, files);
    assert(now.drop_last() =~= files);
    assert forall|i: int| 0 <= i < now.len() implies {
        let g = #[trigger] now[i];
        &&& g.file_ref == TableFileRef(0, (first + i) as usize)
        &&& exact_bounds(after, g)
        &&& g.min_xip == Timestamp(0)
        &&& !g.being_compacted
        &&& g.size == after[g.file_ref].len()
    } by {
        if i < files.len() {
            assert(now[i] == files[i]);
            assert(exact_bounds(before, files[i]));
        }
    }
}

/// One more file after those that were split off.
proof fn lemma_split_more(
    factory: BlockTableFactory,
    before: Map<TableFileRef, Seq<u8>>,
    after: Map<TableFileRef, Seq<u8>>,
    files: Seq<FileMeta>,
    f: FileMeta,
    first: nat,
    limit: int,
)
    requires
        written_files(before, files, first),
        first + files.len() < usize::MAX,
        only_added(before, after, first + files.len(), first + files.len() + 1),
        split_at(factory, before, files, limit),
        files.len() > 0 ==> full_file(
            factory,
            block_table::table_entries(before[files.last().file_ref]),
            limit,
        ),
        one_file(factory, block_table::table_entries(after[f.file_ref]), limit),
    ensures
        split_at(factory, after, files.push(f), limit),
{
    let now = files.push(f);
    assert forall|i: int| 0 <= i < now.len() implies {
        let g = #[trigger] now[i];
        &&& i < now.len() - 1 ==> full_file(
            factory,
            block_table::table_entries(after[g.file_ref]),
            limit,
        )
        &&& one_file(factory, block_table::table_entries(after[g.file_ref]), limit)
    } by {
        if i < files.len() {
            let r = files[i].file_ref;
            assert(before.contains_key(r));
            assert(after.contains_key(r) == before.contains_key(r));
            if i == files.len() - 1 {
                assert(files.last() == files[i]);
            }
        }
    }
}

proof fn lemma_added_twice(
    a: Map<TableFileRef, Seq<u8>>,
    b: Map<TableFileRef, Seq<u8>>,
    c: Map<TableFileRef, Seq<u8>>,
    first: nat,
    mid: nat,
    end: nat,
)
    requires
        only_added(a, b, first, mid),
        only_added(b, c, mid, end),
        first <= mid <= end,
    ensures
        only_added(a, c, first, end),
{
    assert forall|f: TableFileRef| !(f.0 == 0 && first <= f.1 < end) implies (
    #[trigger] c.contains_key(f) == a.contains_key(f)) && (a.contains_key(f) ==> c[f]
        == a[f]) by {
        assert(b.contains_key(f) == a.contains_key(f));
        assert(c.contains_key(f) == b.contains_key(f));
    }
}

/// Writes merged entries to files, each of which is closed when it is large enough.
#[verifier::rlimit(60)]
pub fn write_outputs<O: KeyOrder, S: TableStore>(
    factory: BlockTableFactory,
    store: &mut S,
    vset: &mut VersionSet,
    it: &mut MergingIter<O, S::Reader>,
    limit: usize,
) -> (r: Result<Vec<TableFileMeta>, Error>)
    requires
        old(it).wf(),
        files_buildable(factory, old(it).remaining(), limit as int),
        old(vset).next_file() + old(it).remaining().len() < usize::MAX,
        numbers_free(old(store).files(), old(vset).next_file()),
    ensures
        final(vset).same_but_next_file(*old(vset)),
        old(vset).next_file() <= final(vset).next_file(),
        final(store).reliable() == old(store).reliable(),
        only_added(
            old(store).files(),
            final(store).files(),
            old(vset).next_file(),
            final(vset).next_file(),
        ),
        numbers_free(final(store).files(), final(vset).next_file()),
        match r {
            Ok(outputs) => {
                let files = table::level_view(outputs@);
                &&& final(vset).next_file() == old(vset).next_file() + files.len()
                &&& written_files(final(store).files(), files, old(vset).next_file())
                &&& run_entries(final(store).files(), files) == old(it).remaining()
                &&& split_at(factory, final(store).files(), files, limit as int)
            },
            Err(_) => !old(store).reliable() || !old(it).reliable(),
        },
{
    let ghost all = it.remaining();
    let ghost first = vset.next_file();
    let ghost files0 = store.files();
    let mut outputs: Vec<TableFileMeta> = Vec::new();
    let ghost mut n: int = 0;
    let mut at_end = false;
    proof {
        assert(all.skip(0) =~= all);
        assert(all.take(0) =~= run_entries(store.files(), table::level_view(outputs@)));
    }
    while !at_end
        invariant
            it.wf(),
            it.reliable() == old(it).reliable(),
            all == old(it).remaining(),
            first == old(vset).next_file(),
            files0 == old(store).files(),
            files_buildable(factory, all, limit as int),
            first + all.len() < usize::MAX,
            0 <= n <= all.len(),
            outputs@.len() <= n,
            !at_end ==> it.remaining() == all.skip(n),
            at_end ==> n == all.len(),
            vset.same_but_next_file(*old(vset)),
            vset.next_file() == first + outputs@.len(),
            store.reliable() == old(store).reliable(),
            only_added(files0, store.files(), first, vset.next_file()),
            numbers_free(store.files(), vset.next_file()),
            written_files(store.files(), table::level_view(outputs@), first),
            run_entries(store.files(), table::level_view(outputs@)) == all.take(n),
            split_at(factory, store.files(), table::level_view(outputs@), limit as int),
            outputs@.len() > 0 && n < all.len() ==> full_file(
                factory,
                block_table::table_entries(
                    store.files()[table::level_view(outputs@).last().file_ref],
                ),
                limit as int,
            ),
        decreases all.len() - n + if at_end {
            0int
        } else {
            1int
        },
    {
        match it.next() {
            Ok(Some((key, value))) => {
                let ghost outs = table::level_view(outputs@);
                let ghost contents = store.files();
                let ghost next = vset.next_file();
                let ghost rest = it.remaining();
                proof {
                    assert(all.skip(n)[0] == all[n]);
                    assert(seq![(key@, value@)] + rest =~= all.skip(n));
                    lemma_files_buildable_rest(factory, all, limit as int, n);
                }
                let res = write_output(factory, store, vset, it, key, value, limit);
                proof {
                    lemma_added_twice(
                        files0,
                        contents,
                        store.files(),
                        first,
                        next,
                        vset.next_file(),
                    );
                }
                match res {
                    Ok(meta) => {
                        let ghost mv = meta@;
                        outputs.push(meta);
                        proof {
                            let m = rest.len() - it.remaining().len();
                            let run = all.skip(n).take(m + 1);
                            assert(table::level_view(outputs@) =~= outs.push(mv));
                            lemma_written_more(contents, store.files(), outs, mv, first);
                            assert(all.take(n) + run =~= all.take(n + m + 1));
                            assert(rest.skip(m) =~= all.skip(n + m + 1));
                            lemma_split_more(
                                factory,
                                contents,
                                store.files(),
                                outs,
                                mv,
                                first,
                                limit as int,
                            );
                            n = n + m + 1;
                        }
                    },
                    Err(e) => {
                        return Err(e);
                    },
                }
            },
            Ok(None) => {
                at_end = true;
            },
            Err(e) => {
                return Err(e);
            },
        }
    }
    proof {
        assert(all.take(n) =~= all);
    }
    Ok(outputs)
}

} // verus!

//! Flushes that are done while a compaction is under way.
use crate::db::DbView;
use crate::key::KeyOrder;
use crate::table::{FileMeta, TableFileRef, TableStore};
use crate::transaction::Timestamp;
use crate::version;
use crate::version::builder;
use crate::version::builder::FileOrder;
use crate::version::contents;
use crate::version::outputs;
use crate::version::Compaction;
use vstd::prelude::*;

verus! {

/// The files without those with a number from `first` to before `end`.
pub open spec fn without_numbers(
    files: Map<TableFileRef, Seq<u8>>,
    first: nat,
    end: nat,
) -> Map<TableFileRef, Seq<u8>> {
    Map::new(
        |f: TableFileRef| files.contains_key(f) && !(f.0 == 0 && first <= f.1 < end),
        |f: TableFileRef| files[f],
    )
}

/// The files that a compaction wrote are in their places when more files are written.
proof fn lemma_outputs_stay(
    files: Map<TableFileRef, Seq<u8>>,
    more: Map<TableFileRef, Seq<u8>>,
    outs: Seq<FileMeta>,
    first: nat,
)
    requires
        contents::holds_all(files, more),
        outputs::written_files(files, outs, first),
    ensures
        outputs::written_files(more, outs, first),
        outputs::run_entries(more, outs) == outputs::run_entries(files, outs),
{
    assert forall|i: int| 0 <= i < outs.len() implies more[(#[trigger] outs[i]).file_ref]
        == files[outs[i].file_ref] && more.contains_key(outs[i].file_ref) by {
        assert(outputs::exact_bounds(files, outs[i]));
        assert(files.contains_key(outs[i].file_ref));
    }
    outputs::lemma_run_same(files, more, outs);
    assert forall|i: int| 0 <= i < outs.len() implies {
        let f = #[trigger] outs[i];
        &&& f.file_ref == TableFileRef(0, (first + i) as usize)
        &&& outputs::exact_bounds(more, f)
        &&& f.min_xip == Timestamp(0)
        &&& !f.being_compacted
        &&& f.size == more[f.file_ref].len()
    } by {
        assert(outputs::exact_bounds(files, outs[i]));
    }
}

/// What the files of a compaction come to depends on their own bytes only.
proof fn lemma_inputs_stay<O: KeyOrder>(
    files: Map<TableFileRef, Seq<u8>>,
    more: Map<TableFileRef, Seq<u8>>,
    levels: Seq<Seq<FileMeta>>,
    l: int,
    s: int,
    e: int,
    p: int,
    q: int,
)
    requires
        contents::version_sound::<O>(files, levels),
        contents::selected::<O>(levels, l, s, e, p, q),
        contents::holds_all(files, more),
    ensures
        contents::merged_inputs::<O>(more, levels, l, s, e, p, q) == contents::merged_inputs::<O>(
            files,
            levels,
            l,
            s,
            e,
            p,
            q,
        ),
{
    let inputs = contents::inputs_of(levels, l, s, e, p, q);
    contents::lemma_version_sound::<O>(files, levels);
    let above = levels[l];
    let below = levels[l + 1];
    assert(contents::files_sound::<O>(files, above));
    assert(contents::files_sound::<O>(files, below));
    assert forall|i: int| 0 <= i < inputs.len() implies more[(#[trigger] inputs[i]).file_ref]
        == files[inputs[i].file_ref] by {
        if i < e - s {
            assert(inputs[i] == above[s + i]);
            assert(contents::file_sound::<O>(files, above[s + i]));
        } else {
            assert(inputs[i] == below[p + (i - (e - s))]);
            assert(contents::file_sound::<O>(files, below[p + (i - (e - s))]));
        }
        assert(files.contains_key(inputs[i].file_ref));
    }
    assert(version::input_tables(more, inputs) =~= version::input_tables(files, inputs));
}

/// A compaction whose files have been written can be finished after more files were written: they
/// do not change what it comes to.
proof fn lemma_compacted_stays<O: KeyOrder>(
    before: Map<TableFileRef, Seq<u8>>,
    files: Map<TableFileRef, Seq<u8>>,
    more: Map<TableFileRef, Seq<u8>>,
    levels: Seq<Seq<FileMeta>>,
    l: int,
    s: int,
    e: int,
    p: int,
    q: int,
    outs: Seq<FileMeta>,
    first: nat,
)
    requires
        contents::version_sound::<O>(before, levels),
        contents::selected::<O>(levels, l, s, e, p, q),
        contents::compacted::<O>(before, files, levels, l, s, e, p, q, outs, first),
        contents::holds_all(files, more),
    ensures
        contents::version_sound::<O>(without_numbers(more, first, first + outs.len()), levels),
        contents::compacted::<O>(
            without_numbers(more, first, first + outs.len()),
            more,
            levels,
            l,
            s,
            e,
            p,
            q,
            outs,
            first,
        ),
{
    let rest = without_numbers(more, first, first + outs.len());
    assert(contents::holds_all(before, rest)) by {
        assert forall|f: TableFileRef| #[trigger] before.contains_key(f) implies rest.contains_key(
            f,
        ) && rest[f] == before[f] by {
            assert(files.contains_key(f) == before.contains_key(f));
            assert(more.contains_key(f));
        }
    }
    assert(outputs::only_added(rest, more, first, first + outs.len())) by {
        assert forall|f: TableFileRef|
            !(f.0 == 0 && first <= f.1 < first + outs.len()) implies (#[trigger] more.contains_key(f)
            == rest.contains_key(f)) && (rest.contains_key(f) ==> more[f] == rest[f]) by {}
    }
    lemma_outputs_stay(files, more, outs, first);
    lemma_inputs_stay::<O>(before, rest, levels, l, s, e, p, q);
    contents::lemma_more_sound::<O>(before, rest, levels);
}

/// Writing the file of a flush while a compaction is under way leaves it possible to finish the
/// compaction.
pub proof fn lemma_written_files_keep_compaction<O: KeyOrder, S: TableStore>(
    before: DbView<S>,
    after: DbView<S>,
    c: Compaction,
)
    requires
        before.can_finish::<O>(c),
        after.vset.files() == before.vset.files(),
        contents::holds_all(before.store.files(), after.store.files()),
    ensures
        after.can_finish::<O>(c),
{
    let levels = before.vset.files();
    let files = before.store.files();
    let l = c.from_level() as int;
    let (files0, s, e, p, q, outs, first) = choose|
        files0: Map<TableFileRef, Seq<u8>>,
        s: int,
        e: int,
        p: int,
        q: int,
        outs: Seq<FileMeta>,
        first: nat,
    | #[trigger]
        before.compacted_to::<O>(c, files0, s, e, p, q, outs, first);
    let more = after.store.files();
    let rest = without_numbers(more, first, first + outs.len());
    lemma_compacted_stays::<O>(files0, files, more, levels, l, s, e, p, q, outs, first);
    assert(after.compacted_to::<O>(c, rest, s, e, p, q, outs, first));
}

/// Adding the file of a flush to level 0 while a compaction is under way leaves it possible to
/// finish the compaction, if the file is none that the compaction wrote and is younger than those
/// of level 0.
#[verifier::rlimit(40)]
pub proof fn lemma_flush_keeps_compaction<O: KeyOrder, S: TableStore>(
    before: DbView<S>,
    after: DbView<S>,
    c: Compaction,
    min_xip: Timestamp,
    f: FileMeta,
)
    requires
        before.can_finish::<O>(c),
        after.store == before.store,
        after.vset.files() == builder::edited::<O>(
            before.vset.files(),
            contents::flush_edit(min_xip, f),
        ),
        contents::file_sound::<O>(before.store.files(), f),
        forall|i: int|
            0 <= i < before.vset.files()[0].len() ==> (#[trigger] before.vset.files()[0][i]).file_ref
                != f.file_ref,
        before.vset.files()[0].len() > 0 ==> builder::file_less::<O>(
            FileOrder::Newest,
            f,
            before.vset.files()[0][0],
        ),
        forall|i: int|
            0 <= i < c.changes().added.len() ==> (#[trigger] c.changes().added[i]).1.file_ref
                != f.file_ref,
    ensures
        after.can_finish::<O>(c),
{
    let levels = before.vset.files();
    let now = after.vset.files();
    let files = before.store.files();
    let l = c.from_level() as int;
    let (files0, s, e, p, q, outs, first) = choose|
        files0: Map<TableFileRef, Seq<u8>>,
        s: int,
        e: int,
        p: int,
        q: int,
        outs: Seq<FileMeta>,
        first: nat,
    | #[trigger]
        before.compacted_to::<O>(c, files0, s, e, p, q, outs, first);
    let rest = without_numbers(files, first, first + outs.len());
    lemma_compacted_stays::<O>(files0, files, files, levels, l, s, e, p, q, outs, first);
    contents::lemma_flushed_levels::<O>(levels, min_xip, f);
    lemma_put_first::<O>(f, levels[0]);
    assert(now[0] == seq![f] + levels[0]);
    assert(contents::file_sound::<O>(rest, f)) by {
        let r = f.file_ref;
        if r.0 == 0 && first <= r.1 < first + outs.len() {
            let i = r.1 - first;
            assert(c.changes().added[i].1 == outs[i]);
            assert(outs[i].file_ref == TableFileRef(0, (first + i) as usize));
        }
        assert(rest.contains_key(r));
        assert forall|i: int| 0 <= i < contents::entries_in(rest, f).len() implies version::in_range::<
            O,
        >(f, (#[trigger] contents::entries_in(rest, f)[i]).0) by {
            assert(version::in_range::<O>(f, contents::entries_in(files, f)[i].0));
        }
    }
    contents::lemma_flush_sound::<O>(rest, levels, min_xip, f);
    let (s1, e1) = if l == 0 {
        (s + 1, e + 1)
    } else {
        (s, e)
    };
    assert(now[l + 1] == levels[l + 1]);
    if l == 0 {
        assert forall|j: int| s1 <= j < e1 implies #[trigger] now[l][j] == levels[l][j - 1] by {}
        assert(now[l].subrange(s1, e1) =~= levels[l].subrange(s, e));
    } else {
        assert(now[l] == levels[l]);
    }
    assert(contents::selected::<O>(now, l, s1, e1, p, q)) by {
        let below = levels[l + 1];
        let above = now[l];
        assert forall|i: int, j: int| 0 <= i < p && s1 <= j < e1 implies O::lt(
            (#[trigger] now[l + 1][i]).supremum,
            (#[trigger] now[l][j]).infimum,
        ) by {
            let j0 = j - (s1 - s);
            assert(above[j] == levels[l][j0]);
            assert(O::lt(levels[l + 1][i].supremum, levels[l][j0].infimum));
        }
        assert forall|i: int, j: int| q <= i < now[l + 1].len() && s1 <= j < e1 implies O::lt(
            (#[trigger] now[l][j]).supremum,
            (#[trigger] now[l + 1][i]).infimum,
        ) by {
            let j0 = j - (s1 - s);
            assert(above[j] == levels[l][j0]);
            assert(O::lt(levels[l][j0].supremum, levels[l + 1][i].infimum));
        }
    }
    assert(after.compacted_to::<O>(c, rest, s1, e1, p, q, outs, first));
}

/// A file that comes before the first of others is put in front of them.
proof fn lemma_put_first<O: KeyOrder>(f: FileMeta, files: Seq<FileMeta>)
    requires
        files.len() > 0 ==> builder::file_less::<O>(FileOrder::Newest, f, files[0]),
    ensures
        builder::merge_files::<O>(FileOrder::Newest, seq![f], files) == seq![f] + files,
{
    let one = seq![f];
    if files.len() == 0 {
        assert(one + files =~= one);
    } else {
        assert(one.drop_first() =~= Seq::<FileMeta>::empty());
        assert(builder::merge_files::<O>(FileOrder::Newest, one.drop_first(), files) == files);
    }
}

} // verus!

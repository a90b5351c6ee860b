//! Where the value of a key is found.
use crate::db;
use crate::db::DbView;
use crate::key::KeyOrder;
use crate::memtable;
use crate::storage::RedoView;
use crate::table;
use crate::table::{FileMeta, TableFileRef, TableStore};
use crate::transaction::transaction_manager::Reader;
use crate::transaction::Timestamp;
use crate::version;
use crate::version::contents;
use vstd::prelude::*;

verus! {

/// Whether a table that is being flushed has a value for a key.
pub open spec fn has_value(entries: Seq<(Seq<u8>, Option<Seq<u8>>)>, key: Seq<u8>) -> bool {
    exists|v: Seq<u8>| entries.contains((key, Some(v)))
}

/// Whether the table of a file has a key.
pub open spec fn has_key(
    contents: Map<TableFileRef, Seq<u8>>,
    f: FileMeta,
    key: Seq<u8>,
) -> bool {
    exists|i: int|
        0 <= i < contents::entries_in(contents, f).len() && (#[trigger] contents::entries_in(
            contents,
            f,
        )[i]).0 == key
}

/// The value of a key in a table is the one that stands there with it.
pub proof fn lemma_lookup_finds(entries: Seq<(Seq<u8>, Seq<u8>)>, key: Seq<u8>, i: int)
    requires
        -1 <= i < entries.len(),
        i >= 0 ==> entries[i].0 == key,
        i >= 0 ==> forall|j: int| 0 <= j < i ==> (#[trigger] entries[j]).0 != key,
        i < 0 ==> forall|j: int| 0 <= j < entries.len() ==> (#[trigger] entries[j]).0 != key,
    ensures
        table::lookup(entries, key) == if i >= 0 {
            Some(entries[i].1)
        } else {
            None
        },
    decreases entries.len(),
{
    if entries.len() > 0 && i != 0 {
        let rest = entries.drop_first();
        assert(entries[0].0 != key);
        if i > 0 {
            assert(rest[i - 1] == entries[i]);
            assert forall|j: int| 0 <= j < i - 1 implies (#[trigger] rest[j]).0 != key by {
                assert(rest[j] == entries[j + 1]);
            }
            lemma_lookup_finds(rest, key, i - 1);
        } else {
            assert forall|j: int| 0 <= j < rest.len() implies (#[trigger] rest[j]).0 != key by {
                assert(rest[j] == entries[j + 1]);
            }
            lemma_lookup_finds(rest, key, -1);
        }
    }
}

/// A reader gets what it sees in the memory table, if that is a value.
pub proof fn lemma_memory_comes_first<O: KeyOrder, S: TableStore>(
    db: DbView<S>,
    r: Reader,
    key: Seq<u8>,
    v: Seq<u8>,
)
    requires
        memtable::seen_value(db.chain(key), r) == Some(v),
    ensures
        db.read::<O>(r, key) == Some(v),
{
}

/// A reader that sees no value in the memory table gets the one of the youngest table that is
/// being flushed and has a value.
pub proof fn lemma_youngest_flushed_is_read<O: KeyOrder, S: TableStore>(
    db: DbView<S>,
    r: Reader,
    key: Seq<u8>,
    i: int,
    v: Seq<u8>,
)
    requires
        db.flushes_ok::<O>(),
        memtable::seen_value(db.chain(key), r) is None,
        0 <= i < db.flushing.len(),
        db.flushing[i].1.contains((key, Some(v))),
        forall|j: int|
            i < j < db.flushing.len() ==> !has_value((#[trigger] db.flushing[j]).1, key),
    ensures
        db.read::<O>(r, key) == Some(v),
{
    assert(db::entries_sound::<O>(db.flushing[i].1));
    lemma_last_held::<O>(db.flushing, key, i, v);
}

proof fn lemma_last_held<O: KeyOrder>(
    tables: Seq<(Timestamp, Seq<(Seq<u8>, Option<Seq<u8>>)>)>,
    key: Seq<u8>,
    i: int,
    v: Seq<u8>,
)
    requires
        0 <= i < tables.len(),
        memtable::sorted_keys::<O>(tables[i].1),
        tables[i].1.contains((key, Some(v))),
        forall|j: int| i < j < tables.len() ==> !has_value((#[trigger] tables[j]).1, key),
    ensures
        db::held_by_last(tables, key) == Some(v),
    decreases tables.len(),
{
    let n = tables.len() - 1;
    if i == n {
        db::lemma_held::<O>(tables[i].1, key, Some(v));
    } else {
        let init = tables.drop_last();
        assert(!has_value(tables[n].1, key));
        assert forall|j: int| i < j < init.len() implies !has_value(
            (#[trigger] init[j]).1,
            key,
        ) by {
            assert(init[j] == tables[j]);
        }
        lemma_last_held::<O>(init, key, i, v);
    }
}

proof fn lemma_none_held(
    tables: Seq<(Timestamp, Seq<(Seq<u8>, Option<Seq<u8>>)>)>,
    key: Seq<u8>,
)
    requires
        forall|j: int| 0 <= j < tables.len() ==> !has_value((#[trigger] tables[j]).1, key),
    ensures
        db::held_by_last(tables, key) is None,
    decreases tables.len(),
{
    if tables.len() > 0 {
        let init = tables.drop_last();
        assert(!has_value(tables[tables.len() - 1].1, key));
        assert forall|j: int| 0 <= j < init.len() implies !has_value(
            (#[trigger] init[j]).1,
            key,
        ) by {
            assert(init[j] == tables[j]);
        }
        lemma_none_held(init, key);
    }
}

/// Whether no file of a level has a key.
pub open spec fn level_lacks(
    contents: Map<TableFileRef, Seq<u8>>,
    files: Seq<FileMeta>,
    key: Seq<u8>,
) -> bool {
    forall|i: int| 0 <= i < files.len() ==> !has_key(contents, #[trigger] files[i], key)
}

proof fn lemma_value_in<O: KeyOrder>(
    contents: Map<TableFileRef, Seq<u8>>,
    f: FileMeta,
    key: Seq<u8>,
    i: int,
)
    requires
        contents::file_sound::<O>(contents, f),
        0 <= i < contents::entries_in(contents, f).len(),
        contents::entries_in(contents, f)[i].0 == key,
    ensures
        version::value_in(contents, f, key) == Some(contents::entries_in(contents, f)[i].1),
{
    let entries = contents::entries_in(contents, f);
    assert(O::valid(entries[i].0));
    O::irreflexive(key);
    assert forall|j: int| 0 <= j < i implies (#[trigger] entries[j]).0 != key by {
        assert(O::lt(entries[j].0, entries[i].0));
    }
    lemma_lookup_finds(entries, key, i);
}

proof fn lemma_no_value_in(contents: Map<TableFileRef, Seq<u8>>, f: FileMeta, key: Seq<u8>)
    requires
        !has_key(contents, f, key),
    ensures
        version::value_in(contents, f, key) is None,
{
    lemma_lookup_finds(contents::entries_in(contents, f), key, -1);
}

proof fn lemma_lacking_level<O: KeyOrder>(
    contents: Map<TableFileRef, Seq<u8>>,
    levels: Seq<Seq<FileMeta>>,
    l: int,
    key: Seq<u8>,
)
    requires
        contents::version_sound::<O>(contents, levels),
        0 <= l < levels.len(),
        O::valid(key),
        level_lacks(contents, levels[l], key),
    ensures
        version::value_in_level::<O>(contents, l as nat, levels[l], key) is None,
{
    contents::lemma_sound_level::<O>(contents, levels, l, key);
    let files = levels[l];
    let n = contents::lemma_first_value(contents, files, key);
    if n < files.len() {
        assert(!has_key(contents, files[n], key));
        lemma_no_value_in(contents, files[n], key);
    }
}

/// In the table files the value of a key is that of the first level that has the key, and of the
/// first of its files that has it.
pub proof fn lemma_first_file_is_read<O: KeyOrder>(
    contents: Map<TableFileRef, Seq<u8>>,
    levels: Seq<Seq<FileMeta>>,
    from: int,
    l: int,
    i: int,
    e: int,
    key: Seq<u8>,
)
    requires
        contents::version_sound::<O>(contents, levels),
        O::valid(key),
        0 <= from <= l < levels.len(),
        0 <= i < levels[l].len(),
        0 <= e < contents::entries_in(contents, levels[l][i]).len(),
        contents::entries_in(contents, levels[l][i])[e].0 == key,
        forall|m: int| from <= m < l ==> level_lacks(contents, #[trigger] levels[m], key),
        forall|j: int| 0 <= j < i ==> !has_key(contents, #[trigger] levels[l][j], key),
    ensures
        version::value_from_level::<O>(contents, levels, from as nat, key) == Some(
            contents::entries_in(contents, levels[l][i])[e].1,
        ),
    decreases l - from,
{
    if from < l {
        assert(level_lacks(contents, levels[from], key));
        lemma_lacking_level::<O>(contents, levels, from, key);
        lemma_first_file_is_read::<O>(contents, levels, from + 1, l, i, e, key);
    } else {
        lemma_first_in_level::<O>(contents, levels, l, i, e, key);
    }
}

/// The value of a key in a level is that of the first file that has the key.
proof fn lemma_first_in_level<O: KeyOrder>(
    contents: Map<TableFileRef, Seq<u8>>,
    levels: Seq<Seq<FileMeta>>,
    l: int,
    i: int,
    e: int,
    key: Seq<u8>,
)
    requires
        contents::version_sound::<O>(contents, levels),
        O::valid(key),
        0 <= l < levels.len(),
        0 <= i < levels[l].len(),
        0 <= e < contents::entries_in(contents, levels[l][i]).len(),
        contents::entries_in(contents, levels[l][i])[e].0 == key,
        forall|j: int| 0 <= j < i ==> !has_key(contents, #[trigger] levels[l][j], key),
    ensures
        version::value_in_level::<O>(contents, l as nat, levels[l], key) == Some(
            contents::entries_in(contents, levels[l][i])[e].1,
        ),
{
    let files = levels[l];
    contents::lemma_sound_level::<O>(contents, levels, l, key);
    assert(contents::files_sound::<O>(contents, files));
    assert(contents::file_sound::<O>(contents, files[i]));
    lemma_value_in::<O>(contents, files[i], key, e);
    let n = contents::lemma_first_value(contents, files, key);
    if n < i {
        assert(!has_key(contents, files[n], key));
        lemma_no_value_in(contents, files[n], key);
    }
}

/// A key that no table file has is not found in them.
pub proof fn lemma_missing_is_not_read<O: KeyOrder>(
    contents: Map<TableFileRef, Seq<u8>>,
    levels: Seq<Seq<FileMeta>>,
    from: int,
    key: Seq<u8>,
)
    requires
        contents::version_sound::<O>(contents, levels),
        O::valid(key),
        0 <= from <= levels.len(),
        forall|m: int|
            from <= m < levels.len() ==> level_lacks(contents, #[trigger] levels[m], key),
    ensures
        version::value_from_level::<O>(contents, levels, from as nat, key) is None,
    decreases levels.len() - from,
{
    if from < levels.len() {
        assert(level_lacks(contents, levels[from], key));
        lemma_lacking_level::<O>(contents, levels, from, key);
        lemma_missing_is_not_read::<O>(contents, levels, from + 1, key);
    }
}

/// A reader that sees no value in the memory table, while no table that is being flushed has one,
/// gets what is in the table files.
pub proof fn lemma_files_come_last<O: KeyOrder, S: TableStore>(
    db: DbView<S>,
    r: Reader,
    key: Seq<u8>,
)
    requires
        memtable::seen_value(db.chain(key), r) is None,
        forall|j: int|
            0 <= j < db.flushing.len() ==> !has_value((#[trigger] db.flushing[j]).1, key),
    ensures
        db.read::<O>(r, key) == version::value_from_level::<O>(
            db.store.files(),
            db.vset.files(),
            0,
            key,
        ),
{
    lemma_none_held(db.flushing, key);
}

/// The chain of a key is the one that the memory table has for it, or has no version; a write to
/// one key leaves the chains of the others.
pub proof fn lemma_chain<S: TableStore>(
    db: DbView<S>,
    key: Seq<u8>,
    chain: Seq<RedoView>,
    k: Seq<u8>,
)
    ensures
        db.memory.contains_key(key) ==> db.chain(key) == db.memory[key],
        !db.memory.contains_key(key) ==> db.chain(key).len() == 0,
        db.with_chain(key, chain).chain(key) == chain,
        k != key ==> db.with_chain(key, chain).chain(k) == db.chain(k),
        db.with_chain(key, chain).txnmgr == db.txnmgr,
        db.with_chain(key, chain).wal == db.wal,
        db.with_chain(key, chain).flushing == db.flushing,
        db.with_chain(key, chain).vset == db.vset,
        db.with_chain(key, chain).store == db.store,
        db.with_chain(key, chain).jobs == db.jobs,
{
}

} // verus!

//! Which table files make up the store.
pub mod bounds;
pub mod builder;
pub mod compaction;
pub mod contents;
pub mod edits;
pub mod first_level;
pub mod outputs;
pub mod picking;
pub mod selection;
pub mod splitting;

use crate::error::Error;
use crate::key::KeyOrder;
use crate::options::DbOptions;
use crate::table;
use crate::table::block_table;
use crate::table::{
    FileMeta, TableCache, TableFileMeta, TableFileRef, TableFileSet, TableStore,
};
use crate::merging_iter;
use crate::merging_iter::MergingIter;
use crate::table::{OwningTableIterator, TableIterator};
use crate::transaction::Timestamp;
use crate::version::builder::{clone_levels, VersionBuilder};
use crate::wal::checkpoint;
use crate::wal::checkpoint::{CheckpointManager, Manifest, ManifestTime};
use crate::wal::log_record;
use crate::wal::log_record::RecordView;
use crate::wal::segment::LogPointer;
use crate::wal::wal_log::{CheckpointLog, WalLogRecord};
use crate::wal::Wal;
use std::sync::Arc;
use vstd::prelude::*;

verus! {

/// What an edit of a version changes.
pub struct EditView {
    pub min_xip: Option<Timestamp>,
    pub added: Seq<(usize, FileMeta)>,
    pub deleted: Set<(usize, TableFileRef)>,
    pub marked: Set<(usize, TableFileRef)>,
}

/// Changes to a version: files that are added to levels, deleted from them, or marked as being
/// compacted.
pub struct VersionEdit {
    min_xip: Option<Timestamp>,
    add_files: Vec<(usize, TableFileMeta)>,
    deleted: Vec<(usize, TableFileRef)>,
    mark_compacted: Vec<(usize, TableFileRef)>,
}

impl View for VersionEdit {
    type V = EditView;

    closed spec fn view(&self) -> EditView {
        EditView {
            min_xip: self.min_xip,
            added: self.add_files@.map_values(|p: (usize, TableFileMeta)| (p.0, p.1@)),
            deleted: builder::listed(self.deleted@),
            marked: builder::listed(self.mark_compacted@),
        }
    }
}

proof fn lemma_listed_push(refs: Seq<(usize, TableFileRef)>, r: (usize, TableFileRef))
    ensures
        builder::listed(refs.push(r)) == builder::listed(refs).insert(r),
{
    assert forall|x: (usize, TableFileRef)| #[trigger]
        builder::listed(refs.push(r)).contains(x) <==> builder::listed(refs).insert(r).contains(
            x,
        ) by {
        let after = refs.push(r);
        if after.contains(x) {
            let i = choose|i: int| 0 <= i < after.len() && after[i] == x;
            if i < refs.len() {
                assert(refs[i] == x);
            }
        }
        if refs.contains(x) {
            let i = choose|i: int| 0 <= i < refs.len() && refs[i] == x;
            assert(after[i] == x);
        }
        assert(after[refs.len() as int] == r);
    }
    assert(builder::listed(refs.push(r)) =~= builder::listed(refs).insert(r));
}

impl Default for VersionEdit {
    fn default() -> (r: Self)
        ensures
            r@ == (EditView {
                min_xip: None,
                added: Seq::empty(),
                deleted: Set::empty(),
                marked: Set::empty(),
            }),
    {
        let r = VersionEdit {
            min_xip: None,
            add_files: Vec::new(),
            deleted: Vec::new(),
            mark_compacted: Vec::new(),
        };
        proof {
            assert(r@.added =~= Seq::<(usize, FileMeta)>::empty());
            assert(r@.deleted =~= Set::<(usize, TableFileRef)>::empty());
            assert(r@.marked =~= Set::<(usize, TableFileRef)>::empty());
        }
        r
    }
}

impl VersionEdit {
    pub fn new() -> (r: Self)
        ensures
            r@ == (EditView {
                min_xip: None,
                added: Seq::empty(),
                deleted: Set::empty(),
                marked: Set::empty(),
            }),
    {
        Self::default()
    }

    pub fn set_min_xip(&mut self, min_xip: Timestamp)
        ensures
            final(self)@ == (EditView { min_xip: Some(min_xip), ..old(self)@ }),
    {
        self.min_xip = Some(min_xip);
    }

    pub fn add_file(&mut self, level: usize, file: TableFileMeta)
        ensures
            final(self)@ == (EditView {
                added: old(self)@.added.push((level, file@)),
                ..old(self)@
            }),
    {
        self.add_files.push((level, file));
        proof {
            assert(self@.added =~= old(self)@.added.push((level, file@)));
        }
    }

    /// The files that are added, each with its level.
    pub fn added(&self) -> (r: &Vec<(usize, TableFileMeta)>)
        ensures
            r@.map_values(|e: (usize, TableFileMeta)| (e.0, e.1@)) == self@.added,
    {
        proof {
            assert(self.add_files@.map_values(|e: (usize, TableFileMeta)| (e.0, e.1@))
                =~= self@.added);
        }
        &self.add_files
    }

    pub fn delete_file(&mut self, level: usize, file: &TableFileMeta)
        ensures
            final(self)@ == (EditView {
                deleted: old(self)@.deleted.insert((level, file@.file_ref)),
                ..old(self)@
            }),
    {
        proof {
            lemma_listed_push(self.deleted@, (level, file.file_ref));
        }
        self.deleted.push((level, file.file_ref));
    }

    pub fn mark_as_being_compacted(&mut self, level: usize, file: &TableFileMeta)
        ensures
            final(self)@ == (EditView {
                marked: old(self)@.marked.insert((level, file@.file_ref)),
                ..old(self)@
            }),
    {
        proof {
            lemma_listed_push(self.mark_compacted@, (level, file.file_ref));
        }
        self.mark_compacted.push((level, file.file_ref));
    }
}

/// How much a level needs to be compacted: something that is counted, and the number of it from
/// which the level is compacted.
#[derive(Clone, Copy, Debug, PartialEq, Eq, Structural)]
pub struct CompactionScore {
    pub amount: usize,
    pub limit: usize,
}

impl CompactionScore {
    /// Whether the level is to be compacted.
    pub open spec fn due(self) -> bool {
        self.amount >= self.limit
    }
}

/// The table files of each level.
pub struct Version {
    files: TableFileSet,
    compaction_score: Vec<CompactionScore>,
}

impl Version {
    /// The files of each level.
    pub closed spec fn files(self) -> Seq<Seq<FileMeta>> {
        table::file_set_view(self.files@)
    }

    /// How much each level needs to be compacted.
    pub closed spec fn scores(self) -> Seq<CompactionScore> {
        self.compaction_score@
    }
}

/// The value of a key in the table of a file.
pub open spec fn value_in(
    contents: Map<TableFileRef, Seq<u8>>,
    f: FileMeta,
    key: Seq<u8>,
) -> Option<Seq<u8>> {
    table::lookup(block_table::table_entries(contents[f.file_ref]), key)
}

/// Whether a key lies between the smallest and the largest key of a file.
pub open spec fn in_range<O: KeyOrder>(f: FileMeta, key: Seq<u8>) -> bool {
    !O::lt(key, f.infimum) && !O::lt(f.supremum, key)
}

/// The value of a key in the first of several files that has it.
pub open spec fn value_in_any<O: KeyOrder>(
    contents: Map<TableFileRef, Seq<u8>>,
    files: Seq<FileMeta>,
    key: Seq<u8>,
) -> Option<Seq<u8>>
    decreases files.len(),
{
    if files.len() == 0 {
        None
    } else if in_range::<O>(files[0], key) && value_in(contents, files[0], key) is Some {
        value_in(contents, files[0], key)
    } else {
        value_in_any::<O>(contents, files.drop_first(), key)
    }
}

/// The number of files at the front whose keys are all smaller than the given one.
pub open spec fn files_below<O: KeyOrder>(files: Seq<FileMeta>, key: Seq<u8>) -> nat
    decreases files.len(),
{
    if files.len() > 0 && O::lt(files[0].supremum, key) {
        1 + files_below::<O>(files.drop_first(), key)
    } else {
        0
    }
}

/// The value of a key in the files of a level. Those of level 0 are all searched in turn; of the
/// other levels only the first one that does not end below the key.
pub open spec fn value_in_level<O: KeyOrder>(
    contents: Map<TableFileRef, Seq<u8>>,
    level: nat,
    files: Seq<FileMeta>,
    key: Seq<u8>,
) -> Option<Seq<u8>> {
    if level == 0 {
        value_in_any::<O>(contents, files, key)
    } else {
        let n = files_below::<O>(files, key);
        if n < files.len() {
            value_in(contents, files[n as int], key)
        } else {
            None
        }
    }
}

/// The value of a key in the first level, from the given one on, that has it.
pub open spec fn value_from_level<O: KeyOrder>(
    contents: Map<TableFileRef, Seq<u8>>,
    levels: Seq<Seq<FileMeta>>,
    level: nat,
    key: Seq<u8>,
) -> Option<Seq<u8>>
    decreases levels.len() - level,
{
    if level >= levels.len() {
        None
    } else {
        match value_in_level::<O>(contents, level, levels[level as int], key) {
            Some(v) => Some(v),
            None => value_from_level::<O>(contents, levels, level + 1, key),
        }
    }
}

/// Whether the files come in the order of their largest keys.
pub open spec fn ends_sorted<O: KeyOrder>(files: Seq<FileMeta>) -> bool {
    forall|i: int, j: int|
        0 <= i < j < files.len() ==> !O::lt(
            (#[trigger] files[j]).supremum,
            (#[trigger] files[i]).supremum,
        )
}

/// Whether the files of every level but the first come in the order of their largest keys.
pub open spec fn levels_sorted<O: KeyOrder>(levels: Seq<Seq<FileMeta>>) -> bool {
    forall|l: int| 1 <= l < levels.len() ==> ends_sorted::<O>(#[trigger] levels[l])
}

/// Whether all bounds of files are valid keys.
pub open spec fn levels_valid<O: KeyOrder>(levels: Seq<Seq<FileMeta>>) -> bool {
    forall|l: int| 0 <= l < levels.len() ==> builder::all_valid::<O>(#[trigger] levels[l])
}

/// The number of files.
pub open spec fn file_count(levels: Seq<Seq<FileMeta>>) -> nat
    decreases levels.len(),
{
    if levels.len() == 0 {
        0
    } else {
        file_count(levels.drop_last()) + levels.last().len()
    }
}

/// Whether each file of the levels that exists holds a table with keys in order.
pub open spec fn tables_sound<O: KeyOrder>(
    contents: Map<TableFileRef, Seq<u8>>,
    levels: Seq<Seq<FileMeta>>,
) -> bool {
    forall|l: int, i: int|
        0 <= l < levels.len() && 0 <= i < levels[l].len() && contents.contains_key(
            (#[trigger] levels[l][i]).file_ref,
        ) ==> table::sound_table::<O>(contents[levels[l][i].file_ref])
}

/// Whether all files of the levels exist.
pub open spec fn tables_exist(
    contents: Map<TableFileRef, Seq<u8>>,
    levels: Seq<Seq<FileMeta>>,
) -> bool {
    forall|l: int, i: int|
        0 <= l < levels.len() && 0 <= i < levels[l].len() ==> contents.contains_key(
            (#[trigger] levels[l][i]).file_ref,
        )
}

proof fn lemma_files_below<O: KeyOrder>(files: Seq<FileMeta>, key: Seq<u8>, n: int)
    requires
        0 <= n <= files.len(),
        forall|i: int| 0 <= i < n ==> O::lt((#[trigger] files[i]).supremum, key),
        n < files.len() ==> !O::lt(files[n].supremum, key),
    ensures
        files_below::<O>(files, key) == n,
    decreases n,
{
    if n > 0 {
        assert(O::lt(files[0].supremum, key));
        let rest = files.drop_first();
        assert forall|i: int| 0 <= i < n - 1 implies O::lt(
            (#[trigger] rest[i]).supremum,
            key,
        ) by {
            assert(rest[i] == files[i + 1]);
        }
        lemma_files_below::<O>(rest, key, n - 1);
    }
}

/// Looks for the first file that does not end below a key, by halving.
fn find_in_files<O: KeyOrder>(files: &Vec<TableFileMeta>, key: &[u8]) -> (r: Option<usize>)
    requires
        builder::all_valid::<O>(table::level_view(files@)),
        O::valid(key@),
    ensures
        r matches Some(i) ==> i < files@.len(),
        ends_sorted::<O>(table::level_view(files@)) ==> {
            let n = files_below::<O>(table::level_view(files@), key@);
            if n < files@.len() {
                r matches Some(i) && i == n
            } else {
                r is None
            }
        },
{
    let ghost all = table::level_view(files@);
    let ghost sorted = ends_sorted::<O>(all);
    let size: usize = files.len();
    let mut count: usize = size;
    let mut first: usize = 0;
    while count > 0
        invariant
            first + count <= size,
            size == files@.len(),
            all == table::level_view(files@),
            builder::all_valid::<O>(all),
            O::valid(key@),
            sorted ==> ends_sorted::<O>(all),
            sorted ==> forall|i: int| 0 <= i < first ==> O::lt((#[trigger] all[i]).supremum, key@),
            sorted ==> forall|i: int|
                first + count <= i < size ==> !O::lt((#[trigger] all[i]).supremum, key@),
        decreases count,
    {
        let step: usize = count / 2;
        let mid: usize = first + step;
        assert(all[mid as int] == files@[mid as int]@);
        assert(builder::bounds_valid::<O>(all[mid as int]));
        if O::less(files[mid].supremum.as_slice(), key) {
            proof {
                if sorted {
                    assert forall|i: int| 0 <= i < mid + 1 implies O::lt(
                        (#[trigger] all[i]).supremum,
                        key@,
                    ) by {
                        if i < mid {
                            assert(builder::bounds_valid::<O>(all[i]));
                            assert(!O::lt(all[mid as int].supremum, all[i].supremum));
                            if all[i].supremum != all[mid as int].supremum {
                                O::total(all[i].supremum, all[mid as int].supremum);
                                O::transitive(all[i].supremum, all[mid as int].supremum, key@);
                            }
                        }
                    }
                }
            }
            first = first + step + 1;
            count = count - (step + 1);
        } else {
            proof {
                if sorted {
                    assert forall|i: int| mid <= i < size implies !O::lt(
                        (#[trigger] all[i]).supremum,
                        key@,
                    ) by {
                        if i > mid && O::lt(all[i].supremum, key@) {
                            assert(builder::bounds_valid::<O>(all[i]));
                            assert(!O::lt(all[i].supremum, all[mid as int].supremum));
                            if all[i].supremum != all[mid as int].supremum {
                                O::total(all[i].supremum, all[mid as int].supremum);
                                O::transitive(all[mid as int].supremum, all[i].supremum, key@);
                            }
                        }
                    }
                }
            }
            count = step;
        }
    }
    proof {
        if sorted {
            lemma_files_below::<O>(all, key@, first as int);
        }
    }
    if first >= size {
        None
    } else {
        Some(first)
    }
}

proof fn lemma_file_count(levels: Seq<Seq<FileMeta>>, l: int)
    requires
        0 <= l < levels.len(),
    ensures
        file_count(levels.take(l + 1)) == file_count(levels.take(l)) + levels[l].len(),
        file_count(levels.take(l + 1)) <= file_count(levels),
    decreases levels.len() - l,
{
    assert(levels.take(l + 1).drop_last() =~= levels.take(l));
    if l + 1 < levels.len() {
        lemma_file_count(levels, l + 1);
    } else {
        assert(levels.take(l + 1) =~= levels);
    }
}

impl Version {
    /// A version without files.
    pub fn new(num_levels: usize) -> (r: Self)
        ensures
            r.files() == Seq::new(num_levels as nat, |l: int| Seq::<FileMeta>::empty()),
            r.scores() == Seq::new(
                num_levels as nat,
                |l: int| CompactionScore { amount: 0, limit: 1 },
            ),
    {
        let mut files: TableFileSet = Vec::new();
        let mut compaction_score: Vec<CompactionScore> = Vec::new();
        let mut i: usize = 0;
        while i < num_levels
            invariant
                i <= num_levels,
                files@.len() == i,
                compaction_score@.len() == i,
                forall|j: int| 0 <= j < i ==> (#[trigger] files@[j])@.len() == 0,
                forall|j: int|
                    0 <= j < i ==> #[trigger] compaction_score@[j] == (CompactionScore {
                        amount: 0,
                        limit: 1,
                    }),
            decreases num_levels - i,
        {
            files.push(Vec::new());
            compaction_score.push(CompactionScore { amount: 0, limit: 1 });
            i = i + 1;
        }
        let r = Version { files, compaction_score };
        proof {
            assert forall|l: int| 0 <= l < num_levels implies #[trigger] r.files()[l] == Seq::<
                FileMeta,
            >::empty() by {
                assert(r.files()[l] =~= Seq::<FileMeta>::empty());
            }
            assert(r.files() =~= Seq::new(num_levels as nat, |l: int| Seq::<FileMeta>::empty()));
            assert(r.scores() =~= Seq::new(
                num_levels as nat,
                |l: int| CompactionScore { amount: 0, limit: 1 },
            ));
        }
        r
    }

    /// A version with the given files.
    pub fn from_files(files: TableFileSet) -> (r: Self)
        ensures
            r.files() == table::file_set_view(files@),
            r.scores() == Seq::new(
                files@.len(),
                |l: int| CompactionScore { amount: 0, limit: 1 },
            ),
    {
        let r = Version::new(files.len());
        Version { files, compaction_score: r.compaction_score }
    }

    pub fn set_compaction_score(&mut self, score: Vec<CompactionScore>)
        ensures
            final(self).files() == old(self).files(),
            final(self).scores() == score@,
    {
        self.compaction_score = score;
    }

    /// The files of each level.
    pub fn levels(&self) -> (r: &TableFileSet)
        ensures
            table::file_set_view(r@) == self.files(),
    {
        &self.files
    }

    /// How much each level needs to be compacted.
    pub fn compaction_score(&self) -> (r: &Vec<CompactionScore>)
        ensures
            r@ == self.scores(),
    {
        &self.compaction_score
    }

    /// The value of a key in the files of level 0.
    fn get_in_level0<O: KeyOrder, S: TableStore>(
        &self,
        tables: &mut TableCache<S::Reader>,
        store: &S,
        key: &[u8],
    ) -> (r: Result<Option<Vec<u8>>, Error>)
        requires
            self.files().len() > 0,
            levels_valid::<O>(self.files()),
            O::valid(key@),
            tables_sound::<O>(store.files(), self.files()),
            old(tables).ok(store.files(), store.reliable()),
            old(tables).next_id() + self.files()[0].len() < u32::MAX,
        ensures
            final(tables).ok(store.files(), store.reliable()),
            final(tables).reads_with() == old(tables).reads_with(),
            old(tables).next_id() <= final(tables).next_id() <= old(tables).next_id()
                + self.files()[0].len(),
            match r {
                Ok(v) => {
                    &&& key@.len() == 0 ==> v is None
                    &&& key@.len() > 0 ==> block_table::value_bytes(v) == value_in_any::<O>(
                        store.files(),
                        self.files()[0],
                        key@,
                    )
                },
                Err(_) => !store.reliable() || !tables_exist(store.files(), self.files()),
            },
    {
        let ghost all = self.files()[0];
        let ghost contents = store.files();
        let size: usize = self.files[0].len();
        let mut i: usize = 0;
        proof {
            assert(all == table::level_view(self.files@[0]@));
            assert(all.skip(0) =~= all);
        }
        while i < size
            invariant
                i <= size,
                size == self.files@[0]@.len(),
                self.files@.len() > 0,
                all == self.files()[0],
                all == table::level_view(self.files@[0]@),
                contents == store.files(),
                levels_valid::<O>(self.files()),
                O::valid(key@),
                tables_sound::<O>(contents, self.files()),
                tables.ok(contents, store.reliable()),
                tables.reads_with() == old(tables).reads_with(),
                old(tables).next_id() <= tables.next_id() <= old(tables).next_id() + i,
                old(tables).next_id() + size < u32::MAX,
                key@.len() > 0 ==> value_in_any::<O>(contents, all, key@) == value_in_any::<O>(
                    contents,
                    all.skip(i as int),
                    key@,
                ),
            decreases size - i,
        {
            let f = &self.files[0][i];
            proof {
                assert(builder::all_valid::<O>(self.files()[0]));
                assert(all[i as int] == f@);
                assert(builder::bounds_valid::<O>(all[i as int]));
                assert(self.files()[0][i as int] == f@);
                assert(all.skip(i as int)[0] == f@);
                assert(all.skip(i as int).drop_first() =~= all.skip(i + 1));
            }
            if !O::less(key, f.infimum.as_slice()) && !O::less(f.supremum.as_slice(), key) {
                match tables.get_in_file::<O, S>(store, f.file_ref, key) {
                    Ok(Some(value)) => {
                        return Ok(Some(value));
                    },
                    Ok(None) => {},
                    Err(e) => {
                        return Err(e);
                    },
                }
            }
            i = i + 1;
        }
        proof {
            assert(all.skip(size as int).len() == 0);
        }
        Ok(None)
    }

    /// The value of a key in the first level that has it. An empty key is never found.
    pub fn get<O: KeyOrder, S: TableStore>(
        &self,
        tables: &mut TableCache<S::Reader>,
        store: &S,
        key: &[u8],
    ) -> (r: Result<Option<Vec<u8>>, Error>)
        requires
            levels_valid::<O>(self.files()),
            O::valid(key@),
            tables_sound::<O>(store.files(), self.files()),
            old(tables).ok(store.files(), store.reliable()),
            old(tables).next_id() + file_count(self.files()) < u32::MAX,
        ensures
            final(tables).ok(store.files(), store.reliable()),
            final(tables).reads_with() == old(tables).reads_with(),
            old(tables).next_id() <= final(tables).next_id() <= old(tables).next_id()
                + file_count(self.files()),
            match r {
                Ok(v) => {
                    &&& key@.len() == 0 ==> v is None
                    &&& key@.len() > 0 && levels_sorted::<O>(self.files())
                        ==> block_table::value_bytes(v) == value_from_level::<O>(
                        store.files(),
                        self.files(),
                        0,
                        key@,
                    )
                },
                Err(_) => !store.reliable() || !tables_exist(store.files(), self.files()),
            },
    {
        let ghost levels = self.files();
        let ghost contents = store.files();
        let size: usize = self.files.len();
        let mut level: usize = 0;
        proof {
            assert(levels.take(0).len() == 0);
        }
        while level < size
            invariant
                level <= size,
                size == self.files@.len(),
                levels == self.files(),
                contents == store.files(),
                levels_valid::<O>(levels),
                O::valid(key@),
                tables_sound::<O>(contents, levels),
                tables.ok(contents, store.reliable()),
                tables.reads_with() == old(tables).reads_with(),
                old(tables).next_id() <= tables.next_id() <= old(tables).next_id() + file_count(
                    levels.take(level as int),
                ),
                old(tables).next_id() + file_count(levels) < u32::MAX,
                key@.len() > 0 && levels_sorted::<O>(levels) ==> value_from_level::<O>(
                    contents,
                    levels,
                    0,
                    key@,
                ) == value_from_level::<O>(contents, levels, level as nat, key@),
            decreases size - level,
        {
            proof {
                lemma_file_count(levels, level as int);
                assert(levels[level as int] == table::level_view(self.files@[level as int]@));
                assert(builder::all_valid::<O>(levels[level as int]));
            }
            if level == 0 {
                match self.get_in_level0::<O, S>(tables, store, key) {
                    Ok(Some(value)) => {
                        proof {
                            lemma_count_mono(levels, 1);
                        }
                        return Ok(Some(value));
                    },
                    Ok(None) => {},
                    Err(e) => {
                        proof {
                            lemma_count_mono(levels, 1);
                        }
                        return Err(e);
                    },
                }
            } else {
                match find_in_files::<O>(&self.files[level], key) {
                    Some(i) => {
                        assert(levels[level as int][i as int]
                            == self.files@[level as int]@[i as int]@);
                        match tables.get_in_file::<O, S>(
                            store,
                            self.files[level][i].file_ref,
                            key,
                        ) {
                            Ok(Some(value)) => {
                                return Ok(Some(value));
                            },
                            Ok(None) => {},
                            Err(e) => {
                                return Err(e);
                            },
                        }
                    },
                    None => {},
                }
            }
            level = level + 1;
        }
        proof {
            assert(levels.take(size as int) =~= levels);
        }
        Ok(None)
    }
}

proof fn lemma_count_mono(levels: Seq<Seq<FileMeta>>, l: int)
    requires
        0 < l <= levels.len(),
    ensures
        file_count(levels.take(l)) <= file_count(levels),
{
    lemma_file_count(levels, l - 1);
}

/// Files of two neighbouring levels that are merged into the second one.
pub struct Compaction {
    level: usize,
    start_inputs: Vec<TableFileMeta>,
    output_inputs: Vec<TableFileMeta>,
    edit: VersionEdit,
}

/// The files of a level, each with the number of the level.
pub open spec fn refs_at(level: usize, files: Seq<FileMeta>) -> Set<(usize, TableFileRef)> {
    Set::new(
        |r: (usize, TableFileRef)|
            r.0 == level && exists|i: int|
                0 <= i < files.len() && (#[trigger] files[i]).file_ref == r.1,
    )
}

proof fn lemma_refs_push(level: usize, files: Seq<FileMeta>, f: FileMeta)
    ensures
        refs_at(level, files.push(f)) == refs_at(level, files).insert((level, f.file_ref)),
{
    let after = files.push(f);
    assert forall|r: (usize, TableFileRef)| #[trigger]
        refs_at(level, after).contains(r) <==> refs_at(level, files).insert(
            (level, f.file_ref),
        ).contains(r) by {
        if refs_at(level, after).contains(r) {
            let i = choose|i: int| 0 <= i < after.len() && (#[trigger] after[i]).file_ref == r.1;
            if i < files.len() {
                assert(files[i].file_ref == r.1);
            }
        }
        if refs_at(level, files).contains(r) {
            let i = choose|i: int| 0 <= i < files.len() && (#[trigger] files[i]).file_ref == r.1;
            assert(after[i].file_ref == r.1);
        }
        assert(after[files.len() as int] == f);
    }
    assert(refs_at(level, after) =~= refs_at(level, files).insert((level, f.file_ref)));
}

impl Compaction {
    /// The level that is compacted.
    pub closed spec fn from_level(self) -> usize {
        self.level
    }

    /// The files of the level that is compacted.
    pub closed spec fn start_files(self) -> Seq<FileMeta> {
        table::level_view(self.start_inputs@)
    }

    /// The files of the next level.
    pub closed spec fn output_files(self) -> Seq<FileMeta> {
        table::level_view(self.output_inputs@)
    }

    /// What the compaction changes.
    pub closed spec fn changes(self) -> EditView {
        self.edit@
    }

    fn new(
        level: usize,
        start_inputs: Vec<TableFileMeta>,
        output_inputs: Vec<TableFileMeta>,
    ) -> (r: Self)
        ensures
            r.from_level() == level,
            r.start_files() == table::level_view(start_inputs@),
            r.output_files() == table::level_view(output_inputs@),
            r.changes() == (EditView {
                min_xip: None,
                added: Seq::empty(),
                deleted: Set::empty(),
                marked: Set::empty(),
            }),
    {
        Compaction { level, start_inputs, output_inputs, edit: VersionEdit::new() }
    }

    pub fn level(&self) -> (r: usize)
        ensures
            r == self.from_level(),
    {
        self.level
    }

    pub fn output_level(&self) -> (r: usize)
        requires
            self.from_level() < usize::MAX,
        ensures
            r == self.from_level() + 1,
    {
        self.level + 1
    }

    pub fn num_inputs(&self, idx: usize) -> (r: usize)
        requires
            idx < 2,
        ensures
            r == if idx == 0 {
                self.start_files().len()
            } else {
                self.output_files().len()
            },
    {
        if idx == 0 {
            self.start_inputs.len()
        } else {
            self.output_inputs.len()
        }
    }

    /// What the compaction changes.
    pub fn planned(&self) -> (r: &VersionEdit)
        ensures
            r@ == self.changes(),
    {
        &self.edit
    }

    pub fn edit(&mut self) -> (r: &mut VersionEdit)
        ensures
            r@ == old(self).changes(),
            final(self).changes() == final(r)@,
            final(self).from_level() == old(self).from_level(),
            final(self).start_files() == old(self).start_files(),
            final(self).output_files() == old(self).output_files(),
    {
        &mut self.edit
    }

    /// Deletes the files that are merged.
    pub fn delete_inputs(&mut self)
        requires
            old(self).from_level() < usize::MAX,
        ensures
            final(self).from_level() == old(self).from_level(),
            final(self).start_files() == old(self).start_files(),
            final(self).output_files() == old(self).output_files(),
            final(self).changes() == (EditView {
                deleted: old(self).changes().deleted.union(
                    refs_at(old(self).from_level(), old(self).start_files()),
                ).union(
                    refs_at((old(self).from_level() + 1) as usize, old(self).output_files()),
                ),
                ..old(self).changes()
            }),
    {
        let ghost before = self.edit@;
        let ghost start = self.start_files();
        let ghost output = self.output_files();
        let level = self.level;
        Self::delete_files(&mut self.edit, level, &self.start_inputs);
        Self::delete_files(&mut self.edit, level + 1, &self.output_inputs);
    }

    fn delete_files(edit: &mut VersionEdit, level: usize, files: &Vec<TableFileMeta>)
        ensures
            final(edit)@ == (EditView {
                deleted: old(edit)@.deleted.union(refs_at(level, table::level_view(files@))),
                ..old(edit)@
            }),
    {
        let ghost all = table::level_view(files@);
        let size: usize = files.len();
        let mut i: usize = 0;
        proof {
            assert(all.take(0) =~= Seq::<FileMeta>::empty());
            assert(refs_at(level, all.take(0)) =~= Set::<(usize, TableFileRef)>::empty());
            assert(edit@.deleted =~= edit@.deleted.union(refs_at(level, all.take(0))));
        }
        while i < size
            invariant
                i <= size,
                size == files@.len(),
                all == table::level_view(files@),
                edit@ == (EditView {
                    deleted: old(edit)@.deleted.union(refs_at(level, all.take(i as int))),
                    ..old(edit)@
                }),
            decreases size - i,
        {
            let ghost before = edit@.deleted;
            edit.delete_file(level, &files[i]);
            proof {
                assert(all.take(i + 1) =~= all.take(i as int).push(files@[i as int]@));
                lemma_refs_push(level, all.take(i as int), files@[i as int]@);
                assert(edit@.deleted =~= old(edit)@.deleted.union(
                    refs_at(level, all.take(i + 1)),
                ));
            }
            i = i + 1;
        }
        proof {
            assert(all.take(size as int) =~= all);
        }
    }

    fn mark_files(edit: &mut VersionEdit, level: usize, files: &Vec<TableFileMeta>)
        ensures
            final(edit)@ == (EditView {
                marked: old(edit)@.marked.union(refs_at(level, table::level_view(files@))),
                ..old(edit)@
            }),
    {
        let ghost all = table::level_view(files@);
        let size: usize = files.len();
        let mut i: usize = 0;
        proof {
            assert(all.take(0) =~= Seq::<FileMeta>::empty());
            assert(refs_at(level, all.take(0)) =~= Set::<(usize, TableFileRef)>::empty());
            assert(edit@.marked =~= edit@.marked.union(refs_at(level, all.take(0))));
        }
        while i < size
            invariant
                i <= size,
                size == files@.len(),
                all == table::level_view(files@),
                edit@ == (EditView {
                    marked: old(edit)@.marked.union(refs_at(level, all.take(i as int))),
                    ..old(edit)@
                }),
            decreases size - i,
        {
            edit.mark_as_being_compacted(level, &files[i]);
            proof {
                assert(all.take(i + 1) =~= all.take(i as int).push(files@[i as int]@));
                lemma_refs_push(level, all.take(i as int), files@[i as int]@);
                assert(edit@.marked =~= old(edit)@.marked.union(refs_at(level, all.take(i + 1))));
            }
            i = i + 1;
        }
        proof {
            assert(all.take(size as int) =~= all);
        }
    }
}

/// What marks the files of a compaction.
pub open spec fn marking(level: usize, start: Seq<FileMeta>, output: Seq<FileMeta>) -> EditView {
    EditView {
        min_xip: None,
        added: Seq::empty(),
        deleted: Set::empty(),
        marked: refs_at(level, start).union(refs_at((level + 1) as usize, output)),
    }
}

/// The first level, from the given one on, that is to be compacted and has files that can be, with
/// these files. Level 0 is left out while it is being compacted.
pub open spec fn pick_from<O: KeyOrder>(
    levels: Seq<Seq<FileMeta>>,
    scores: Seq<CompactionScore>,
    busy: bool,
    level: nat,
) -> Option<(nat, Seq<FileMeta>, Seq<FileMeta>)>
    decreases scores.len() - level,
{
    if level >= scores.len() {
        None
    } else {
        let found = if (level == 0 && busy) || !scores[level as int].due() {
            None
        } else {
            compaction::picked::<O>(levels, level)
        };
        match found {
            Some((a, b)) => Some((level, a, b)),
            None => pick_from::<O>(levels, scores, busy, level + 1),
        }
    }
}

/// The versions of a store, of which one is the current one.
pub struct VersionSet {
    options: DbOptions,
    next_file_num: usize,
    min_xip: Timestamp,
    min_recovery_point: LogPointer,
    current: Arc<Version>,
    level0_compactions_in_progress: bool,
}

impl VersionSet {
    /// The current version.
    pub closed spec fn version(self) -> Version {
        *self.current
    }

    /// The files of the current version.
    pub open spec fn files(self) -> Seq<Seq<FileMeta>> {
        self.version().files()
    }

    /// What the store was opened with.
    pub closed spec fn opened_with(self) -> DbOptions {
        self.options
    }

    /// The number that the next file gets.
    pub closed spec fn next_file(self) -> nat {
        self.next_file_num as nat
    }

    /// Numbers of files can be told.
    pub proof fn lemma_next_file(self)
        ensures
            self.next_file() <= usize::MAX,
    {
    }

    /// The oldest transaction in progress when the memory table was last flushed.
    pub closed spec fn flushed_xip(self) -> Timestamp {
        self.min_xip
    }

    /// Where in the log a recovery starts.
    pub closed spec fn recovery_point(self) -> LogPointer {
        self.min_recovery_point
    }

    /// Whether level 0 is being compacted.
    pub closed spec fn level0_busy(self) -> bool {
        self.level0_compactions_in_progress
    }

    pub fn new(options: DbOptions) -> (r: Self)
        ensures
            r.opened_with() == options,
            r.next_file() == 2,
            r.flushed_xip() == Timestamp(0),
            r.recovery_point() == 0,
            !r.level0_busy(),
            r.files() == Seq::new(options.num_levels as nat, |l: int| Seq::<FileMeta>::empty()),
            r.version().scores() == Seq::new(
                options.num_levels as nat,
                |l: int| CompactionScore { amount: 0, limit: 1 },
            ),
    {
        VersionSet {
            options,
            next_file_num: 2,
            min_xip: Timestamp::from(0u64),
            min_recovery_point: 0,
            current: Arc::new(Version::new(options.num_levels)),
            level0_compactions_in_progress: false,
        }
    }

    pub fn current(&self) -> (r: Arc<Version>)
        ensures
            *r == self.version(),
    {
        self.current.clone()
    }

    /// Gives out the number of a new file.
    pub fn new_file_number(&mut self) -> (r: usize)
        requires
            old(self).next_file() < usize::MAX,
        ensures
            r == old(self).next_file(),
            final(self).next_file() == old(self).next_file() + 1,
            final(self).same_but_next_file(*old(self)),
    {
        let num = self.next_file_num;
        self.next_file_num = self.next_file_num + 1;
        num
    }

    /// Whether two states differ in nothing but the number of the next file.
    pub open spec fn same_but_next_file(self, other: VersionSet) -> bool {
        &&& self.version() == other.version()
        &&& self.opened_with() == other.opened_with()
        &&& self.flushed_xip() == other.flushed_xip()
        &&& self.recovery_point() == other.recovery_point()
        &&& self.level0_busy() == other.level0_busy()
    }

    pub fn set_next_file_number(&mut self, next_file_num: usize)
        ensures
            final(self).next_file() == next_file_num,
            final(self).same_but_next_file(*old(self)),
    {
        self.next_file_num = next_file_num;
    }

    /// The number that the next file gets.
    pub fn next_file_number(&self) -> (r: usize)
        ensures
            r == self.next_file(),
    {
        self.next_file_num
    }

    /// The oldest transaction in progress when the memory table was last flushed.
    pub fn min_xip(&self) -> (r: Timestamp)
        ensures
            r == self.flushed_xip(),
    {
        self.min_xip
    }

    /// Where in the log a recovery starts.
    pub fn min_recovery_point(&self) -> (r: LogPointer)
        ensures
            r == self.recovery_point(),
    {
        self.min_recovery_point
    }

    pub fn set_current(&mut self, version: Version)
        ensures
            final(self).version() == version,
            final(self).opened_with() == old(self).opened_with(),
            final(self).next_file() == old(self).next_file(),
            final(self).flushed_xip() == old(self).flushed_xip(),
            final(self).recovery_point() == old(self).recovery_point(),
            final(self).level0_busy() == old(self).level0_busy(),
    {
        self.current = Arc::new(version);
    }

    /// Whether an edit can be applied: its levels exist, the bounds of the files are valid, and the
    /// sizes of the levels can be told afterwards.
    pub open spec fn edit_fits<O: KeyOrder>(self, edit: EditView) -> bool {
        &&& self.edit_valid::<O>(edit)
        &&& compaction::sizes_fit(builder::edited::<O>(self.files(), edit), self.opened_with())
    }

    /// Whether the levels of an edit exist and the bounds of the files are valid.
    pub open spec fn edit_valid<O: KeyOrder>(self, edit: EditView) -> bool {
        &&& self.files().len() == self.opened_with().num_levels
        &&& levels_valid::<O>(self.files())
        &&& builder::edit_fits::<O>(edit, self.files().len())
        &&& forall|r: (usize, TableFileRef)| #[trigger]
            edit.marked.contains(r) ==> r.0 < self.files().len()
    }

    /// The files of the current version with an edit applied.
    fn edited_files<O: KeyOrder>(&self, edit: &VersionEdit) -> (r: Version)
        requires
            self.edit_valid::<O>(edit@),
        ensures
            r.files() == builder::edited::<O>(self.files(), edit@),
    {
        let num_levels = self.options.num_levels;
        let mut new_version = Version::new(num_levels);
        let mut builder = VersionBuilder::new(num_levels);
        builder.apply(edit);
        proof {
            let n = num_levels as nat;
            assert forall|l: int| 0 <= l < n implies #[trigger] builder.to_add()[l]
                == builder::added_at(edit@.added, l as nat) by {
                assert(Seq::<FileMeta>::empty() + builder::added_at(edit@.added, l as nat)
                    =~= builder::added_at(edit@.added, l as nat));
            }
            assert forall|l: int| 0 <= l < builder.to_add().len() implies builder::all_valid::<O>(
                #[trigger] builder.to_add()[l],
            ) by {
                lemma_added_valid::<O>(edit@.added, l as nat);
            }
            assert(builder.to_mark() =~= edit@.marked);
        }
        builder.save_to::<O>(&self.current, &mut new_version);
        proof {
            assert(new_version.files() =~= builder::edited::<O>(self.files(), edit@));
        }
        new_version
    }

    /// The current version with an edit applied.
    fn edited_version<O: KeyOrder>(&self, edit: &VersionEdit) -> (r: Version)
        requires
            self.edit_fits::<O>(edit@),
        ensures
            r.files() == builder::edited::<O>(self.files(), edit@),
            r.scores() == Seq::new(
                r.files().len(),
                |level: int| compaction::level_score(r.files(), self.opened_with(), level),
            ),
    {
        let mut new_version = self.edited_files::<O>(edit);
        new_version.calculate_compaction_score(&self.options);
        new_version
    }

    /// Whether an edit can be applied: the sizes of the levels can be told afterwards, and the log
    /// has room for the record of what there is then.
    pub fn can_log_and_apply<O: KeyOrder>(
        &self,
        wal: &Wal,
        edit: &VersionEdit,
        min_recovery_point: LogPointer,
    ) -> (r: bool)
        requires
            self.edit_valid::<O>(edit@),
            compaction::sizes_fit(self.files(), self.opened_with()),
            wal.wf(),
            wal.tail().usable(),
        ensures
            r == (compaction::sizes_fit(
                builder::edited::<O>(self.files(), edit@),
                self.opened_with(),
            ) && wal.fits(
                log_record::full_encoding(
                    Timestamp(0),
                    self.checkpoint_record::<O>(edit@, min_recovery_point),
                ).len(),
            )),
    {
        let new_version = self.edited_files::<O>(edit);
        proof {
            let levels = new_version.files();
            assert forall|l: int| 0 <= l < levels.len() - 1 implies #[trigger] self.opened_with()
                .level_fits(l as nat) by {
                assert(compaction::idle_size(self.files()[l]) <= usize::MAX);
            }
        }
        if !new_version.sizes_can_be_told(&self.options) {
            return false;
        }
        let new_min_xip = match edit.min_xip {
            Some(min_xip) => min_xip,
            None => self.min_xip,
        };
        let checkpoint_log = WalLogRecord::create_checkpoint_log(
            new_min_xip,
            min_recovery_point,
            self.next_file_num,
            new_version.files,
        );
        let record = wal.get_full_record(Timestamp::default(), &checkpoint_log);
        wal.can_append(record.len())
    }

    /// The log record of a checkpoint after an edit.
    pub open spec fn checkpoint_record<O: KeyOrder>(
        self,
        edit: EditView,
        min_recovery_point: LogPointer,
    ) -> RecordView {
        RecordView::Checkpoint(
            self.new_xip(edit),
            min_recovery_point,
            self.next_file() as usize,
            builder::edited::<O>(self.files(), edit),
        )
    }

    /// The oldest transaction in progress after an edit.
    pub open spec fn new_xip(self, edit: EditView) -> Timestamp {
        match edit.min_xip {
            Some(t) => t,
            None => self.flushed_xip(),
        }
    }

    /// Applies an edit, after logging the files that there are then, and hands back the manifest
    /// that says where in the log they stand.
    pub fn log_and_apply<O: KeyOrder>(
        &mut self,
        wal: &mut Wal,
        ckptmgr: &mut CheckpointManager,
        now: ManifestTime,
        edit: &VersionEdit,
        min_recovery_point: LogPointer,
    ) -> (r: Result<Vec<u8>, Error>)
        requires
            old(self).edit_fits::<O>(edit@),
            !old(self).new_xip(edit@).before(old(self).flushed_xip()),
            old(wal).wf(),
            old(wal).tail().usable(),
            old(wal).segment_size() % 0x10000 == 0,
            old(wal).fits(
                log_record::full_encoding(
                    Timestamp(0),
                    old(self).checkpoint_record::<O>(edit@, min_recovery_point),
                ).len(),
            ),
        ensures
            final(self).files() == builder::edited::<O>(old(self).files(), edit@),
            final(self).version().scores() == Seq::new(
                final(self).files().len(),
                |level: int|
                    compaction::level_score(
                        final(self).files(),
                        old(self).opened_with(),
                        level,
                    ),
            ),
            final(self).opened_with() == old(self).opened_with(),
            final(self).next_file() == old(self).next_file(),
            final(self).flushed_xip() == old(self).new_xip(edit@),
            final(self).recovery_point() == min_recovery_point,
            final(self).level0_busy() == old(self).level0_busy(),
            final(wal).wf(),
            final(wal).tail().usable(),
            final(wal).segment_size() == old(wal).segment_size(),
            final(wal).logged_from(
                *old(wal),
                log_record::full_encoding(
                    Timestamp(0),
                    old(self).checkpoint_record::<O>(edit@, min_recovery_point),
                ),
                final(ckptmgr).current().last_checkpoint_pos as nat,
            ),
            final(ckptmgr).current() == (Manifest {
                db_state: old(ckptmgr).current().db_state,
                last_checkpoint_pos: final(ckptmgr).current().last_checkpoint_pos,
                prev_checkpoint_pos: old(ckptmgr).current().last_checkpoint_pos,
                min_xip: old(self).new_xip(edit@),
                time: now,
            }),
            r matches Ok(bytes) && bytes@ == checkpoint::manifest_bytes(final(ckptmgr).current()),
    {
        let new_min_xip = match edit.min_xip {
            Some(min_xip) => min_xip,
            None => self.min_xip,
        };
        let new_version = self.edited_version::<O>(edit);
        let checkpoint_log = WalLogRecord::create_checkpoint_log(
            new_min_xip,
            min_recovery_point,
            self.next_file_num,
            clone_levels(&new_version.files),
        );
        // No transaction has this number, so the record is never replayed.
        let checkpoint_pos = match wal.append_record_and_flush(
            Timestamp::default(),
            &checkpoint_log,
        ) {
            Ok(pos) => pos,
            Err(e) => {
                return Err(e);
            },
        };
        let manifest = ckptmgr.create_checkpoint(new_min_xip, checkpoint_pos, now);
        self.set_current(new_version);
        self.min_xip = new_min_xip;
        self.min_recovery_point = min_recovery_point;
        Ok(manifest)
    }

    /// Marks the files of a compaction.
    fn register_compaction<O: KeyOrder>(&mut self, c: &Compaction)
        requires
            old(self).edit_fits::<O>(marking(c.from_level(), c.start_files(), c.output_files())),
            c.from_level() + 1 < old(self).files().len(),
        ensures
            final(self).files() == builder::edited::<O>(
                old(self).files(),
                marking(c.from_level(), c.start_files(), c.output_files()),
            ),
            final(self).version().scores() == Seq::new(
                final(self).files().len(),
                |level: int|
                    compaction::level_score(
                        final(self).files(),
                        old(self).opened_with(),
                        level,
                    ),
            ),
            final(self).opened_with() == old(self).opened_with(),
            final(self).next_file() == old(self).next_file(),
            final(self).flushed_xip() == old(self).flushed_xip(),
            final(self).recovery_point() == old(self).recovery_point(),
            final(self).level0_busy() == (old(self).level0_busy() || c.from_level() == 0),
    {
        let mut edit = VersionEdit::new();
        if c.level == 0 {
            self.level0_compactions_in_progress = true;
        }
        let num_levels: usize = self.current.files.len();
        assert(c.level + 1 < num_levels);
        Compaction::mark_files(&mut edit, c.level, &c.start_inputs);
        Compaction::mark_files(&mut edit, c.level + 1, &c.output_inputs);
        proof {
            let m = marking(c.from_level(), c.start_files(), c.output_files());
            assert(edit@.marked =~= m.marked);
        }
        let new_version = self.edited_version::<O>(&edit);
        self.set_current(new_version);
    }

    /// Whether a compaction can be picked: the files are in order, the last level is not to be
    /// compacted, and the sizes of the levels can be told.
    pub open spec fn can_pick<O: KeyOrder>(self) -> bool {
        &&& self.files().len() == self.opened_with().num_levels
        &&& self.files().len() > 0
        &&& builder::levels_ordered::<O>(self.files())
        &&& self.version().scores().len() == self.files().len()
        &&& !self.version().scores().last().due()
        &&& compaction::sizes_fit(self.files(), self.opened_with())
    }

    /// Picks the files of the next compaction, if there is one to do, and marks them.
    pub fn pick_compaction<O: KeyOrder>(&mut self) -> (r: Result<Option<Compaction>, Error>)
        requires
            old(self).can_pick::<O>(),
        ensures
            final(self).opened_with() == old(self).opened_with(),
            final(self).next_file() == old(self).next_file(),
            final(self).flushed_xip() == old(self).flushed_xip(),
            final(self).recovery_point() == old(self).recovery_point(),
            ({
                let picked = pick_from::<O>(
                    old(self).files(),
                    old(self).version().scores(),
                    old(self).level0_busy(),
                    0,
                );
                match r {
                    Ok(Some(c)) => {
                        &&& picked == Some(
                            (c.from_level() as nat, c.start_files(), c.output_files()),
                        )
                        &&& c.from_level() + 1 < old(self).files().len()
                        &&& c.changes() == (EditView {
                            min_xip: None,
                            added: Seq::empty(),
                            deleted: Set::empty(),
                            marked: Set::empty(),
                        })
                        &&& final(self).files() == builder::edited::<O>(
                            old(self).files(),
                            marking(c.from_level(), c.start_files(), c.output_files()),
                        )
                        &&& final(self).version().scores() == Seq::new(
                            final(self).files().len(),
                            |level: int|
                                compaction::level_score(
                                    final(self).files(),
                                    old(self).opened_with(),
                                    level,
                                ),
                        )
                        &&& final(self).level0_busy() == (old(self).level0_busy()
                            || c.from_level() == 0)
                    },
                    Ok(None) => picked is None && *final(self) == *old(self),
                    Err(_) => false,
                }
            }),
    {
        let ghost levels = self.files();
        let ghost scores = self.version().scores();
        let size: usize = self.current.compaction_score.len();
        let mut level: usize = 0;
        while level < size
            invariant
                level <= size,
                size == scores.len(),
                *self == *old(self),
                self.can_pick::<O>(),
                levels == self.files(),
                scores == self.version().scores(),
                pick_from::<O>(levels, scores, self.level0_busy(), 0) == pick_from::<O>(
                    levels,
                    scores,
                    self.level0_busy(),
                    level as nat,
                ),
            decreases size - level,
        {
            let score = self.current.compaction_score[level];
            if !(level == 0 && self.level0_compactions_in_progress) && score.amount
                >= score.limit {
                assert(level < size - 1);
                match self.current.try_pick_files_to_compact::<O>(level) {
                    Some((start_level_inputs, output_level_inputs)) => {
                        let c = Compaction::new(level, start_level_inputs, output_level_inputs);
                        proof {
                            lemma_marking_fits::<O>(
                                levels,
                                c.from_level(),
                                c.start_files(),
                                c.output_files(),
                                self.opened_with(),
                            );
                        }
                        self.register_compaction::<O>(&c);
                        return Ok(Some(c));
                    },
                    None => {},
                }
            }
            level = level + 1;
        }
        Ok(None)
    }

    /// An iterator over the merged entries of the files of a compaction. Files of level 0 count by
    /// their age; all others are older than those.
    pub fn make_input_iterator<O: KeyOrder, S: TableStore>(
        &self,
        tables: &mut TableCache<S::Reader>,
        store: &S,
        c: &Compaction,
    ) -> (r: Result<MergingIter<O, S::Reader>, Error>)
        requires
            old(tables).ok(store.files(), store.reliable()),
            old(tables).next_id() + c.start_files().len() + c.output_files().len() < u32::MAX,
            inputs_sound::<O>(store.files(), c.start_files()),
            inputs_sound::<O>(store.files(), c.output_files()),
        ensures
            final(tables).ok(store.files(), store.reliable()),
            final(tables).reads_with() == old(tables).reads_with(),
            old(tables).next_id() <= final(tables).next_id() <= old(tables).next_id()
                + c.start_files().len() + c.output_files().len(),
            match r {
                Ok(it) => {
                    &&& it.wf()
                    &&& it.ages() == input_ages(c.from_level(), c.start_files()) + input_ages(
                        1,
                        c.output_files(),
                    )
                    &&& it.remaining() == merging_iter::merged::<O>(
                        None,
                        input_ages(c.from_level(), c.start_files()) + input_ages(
                            1,
                            c.output_files(),
                        ),
                        input_tables(store.files(), c.start_files()) + input_tables(
                            store.files(),
                            c.output_files(),
                        ),
                    )
                    &&& store.reliable() ==> it.reliable()
                },
                Err(_) => !store.reliable() || !files_exist(store.files(), c.start_files())
                    || !files_exist(store.files(), c.output_files()),
            },
    {
        let mut iters: Vec<(Timestamp, OwningTableIterator<S::Reader>)> = Vec::new();
        match Self::open_inputs::<O, S>(tables, store, c.level, &c.start_inputs, &mut iters) {
            Ok(_) => {},
            Err(e) => {
                return Err(e);
            },
        }
        let ghost first = iters@;
        match Self::open_inputs::<O, S>(tables, store, 1, &c.output_inputs, &mut iters) {
            Ok(_) => {},
            Err(e) => {
                return Err(e);
            },
        }
        proof {
            assert(merging_iter::ages_of(iters@) =~= input_ages(c.from_level(), c.start_files())
                + input_ages(1, c.output_files()));
            assert(merging_iter::tables_of(iters@) =~= input_tables(
                store.files(),
                c.start_files(),
            ) + input_tables(store.files(), c.output_files()));
        }
        Ok(MergingIter::new(iters))
    }

    /// Opens the tables of files of a level.
    fn open_inputs<O: KeyOrder, S: TableStore>(
        tables: &mut TableCache<S::Reader>,
        store: &S,
        level: usize,
        files: &Vec<TableFileMeta>,
        iters: &mut Vec<(Timestamp, OwningTableIterator<S::Reader>)>,
    ) -> (r: Result<(), Error>)
        requires
            old(tables).ok(store.files(), store.reliable()),
            old(tables).next_id() + files@.len() < u32::MAX,
            inputs_sound::<O>(store.files(), table::level_view(files@)),
            iters_ready::<O, S::Reader>(old(iters)@),
            store.reliable() ==> all_reliable(old(iters)@),
        ensures
            final(tables).ok(store.files(), store.reliable()),
            final(tables).reads_with() == old(tables).reads_with(),
            old(tables).next_id() <= final(tables).next_id() <= old(tables).next_id()
                + files@.len(),
            iters_ready::<O, S::Reader>(final(iters)@),
            store.reliable() ==> all_reliable(final(iters)@),
            match r {
                Ok(_) => {
                    &&& merging_iter::ages_of(final(iters)@) == merging_iter::ages_of(
                        old(iters)@,
                    ) + input_ages(level, table::level_view(files@))
                    &&& merging_iter::tables_of(final(iters)@) == merging_iter::tables_of(
                        old(iters)@,
                    ) + input_tables(store.files(), table::level_view(files@))
                },
                Err(_) => !store.reliable() || !files_exist(
                    store.files(),
                    table::level_view(files@),
                ),
            },
    {
        let ghost all = table::level_view(files@);
        let ghost ages0 = merging_iter::ages_of(iters@);
        let ghost tables0 = merging_iter::tables_of(iters@);
        let ghost contents = store.files();
        let size: usize = files.len();
        let mut i: usize = 0;
        proof {
            assert(ages0 =~= ages0 + input_ages(level, all).take(0));
            assert(tables0 =~= tables0 + input_tables(contents, all).take(0));
        }
        while i < size
            invariant
                i <= size,
                size == files@.len(),
                all == table::level_view(files@),
                contents == store.files(),
                inputs_sound::<O>(contents, all),
                tables.ok(contents, store.reliable()),
                tables.reads_with() == old(tables).reads_with(),
                old(tables).next_id() <= tables.next_id() <= old(tables).next_id() + i,
                old(tables).next_id() + size < u32::MAX,
                iters_ready::<O, S::Reader>(iters@),
                store.reliable() ==> all_reliable(iters@),
                merging_iter::ages_of(iters@) == ages0 + input_ages(level, all).take(i as int),
                merging_iter::tables_of(iters@) == tables0 + input_tables(contents, all).take(
                    i as int,
                ),
            decreases size - i,
        {
            let f = &files[i];
            assert(all[i as int] == f@);
            let ts = if level == 0 {
                f.min_xip
            } else {
                Timestamp::default()
            };
            let opened = match tables.get_table(store, f.file_ref) {
                Ok(opened) => opened,
                Err(e) => {
                    return Err(e);
                },
            };
            let ghost before = iters@;
            let it = OwningTableIterator::from_table(opened);
            let ghost entry = (ts, it);
            iters.push((ts, it));
            proof {
                assert(table::sound_table::<O>(contents[all[i as int].file_ref]));
                assert(it.entries() == block_table::table_entries(contents[f.file_ref]));
                assert(merging_iter::ages_of(iters@) =~= merging_iter::ages_of(before).push(ts));
                assert(merging_iter::tables_of(iters@) =~= merging_iter::tables_of(before).push(
                    it.entries(),
                ));
                assert(input_ages(level, all).take(i + 1) =~= input_ages(level, all).take(
                    i as int,
                ).push(ts));
                assert(input_tables(contents, all).take(i + 1) =~= input_tables(
                    contents,
                    all,
                ).take(i as int).push(it.entries()));
                assert(merging_iter::ages_of(iters@) =~= ages0 + input_ages(level, all).take(
                    i + 1,
                ));
                assert(merging_iter::tables_of(iters@) =~= tables0 + input_tables(
                    contents,
                    all,
                ).take(i + 1));
                assert forall|j: int| 0 <= j < iters@.len() implies iter_ready::<O, S::Reader>(
                    #[trigger] iters@[j],
                ) by {
                    if j < before.len() {
                        assert(iters@[j] == before[j]);
                    }
                }
            }
            i = i + 1;
        }
        proof {
            assert(input_ages(level, all).take(size as int) =~= input_ages(level, all));
            assert(input_tables(contents, all).take(size as int) =~= input_tables(contents, all));
        }
        Ok(())
    }

    /// Applies what a compaction changes.
    pub fn finalize_compaction<O: KeyOrder>(
        &mut self,
        wal: &mut Wal,
        ckptmgr: &mut CheckpointManager,
        now: ManifestTime,
        c: &Compaction,
    ) -> (r: Result<Vec<u8>, Error>)
        requires
            old(self).edit_fits::<O>(c.changes()),
            !old(self).new_xip(c.changes()).before(old(self).flushed_xip()),
            old(wal).wf(),
            old(wal).tail().usable(),
            old(wal).segment_size() % 0x10000 == 0,
            old(wal).fits(
                log_record::full_encoding(
                    Timestamp(0),
                    old(self).checkpoint_record::<O>(c.changes(), old(self).recovery_point()),
                ).len(),
            ),
        ensures
            final(self).files() == builder::edited::<O>(old(self).files(), c.changes()),
            final(self).version().scores() == Seq::new(
                final(self).files().len(),
                |level: int|
                    compaction::level_score(
                        final(self).files(),
                        old(self).opened_with(),
                        level,
                    ),
            ),
            final(self).opened_with() == old(self).opened_with(),
            final(self).next_file() == old(self).next_file(),
            final(self).flushed_xip() == old(self).new_xip(c.changes()),
            final(self).recovery_point() == old(self).recovery_point(),
            final(self).level0_busy() == (old(self).level0_busy() && c.from_level() != 0),
            final(wal).wf(),
            final(wal).tail().usable(),
            final(wal).segment_size() == old(wal).segment_size(),
            final(wal).logged_from(
                *old(wal),
                log_record::full_encoding(
                    Timestamp(0),
                    old(self).checkpoint_record::<O>(c.changes(), old(self).recovery_point()),
                ),
                final(ckptmgr).current().last_checkpoint_pos as nat,
            ),
            final(ckptmgr).current() == (Manifest {
                db_state: old(ckptmgr).current().db_state,
                last_checkpoint_pos: final(ckptmgr).current().last_checkpoint_pos,
                prev_checkpoint_pos: old(ckptmgr).current().last_checkpoint_pos,
                min_xip: old(self).new_xip(c.changes()),
                time: now,
            }),
            r matches Ok(bytes) && bytes@ == checkpoint::manifest_bytes(final(ckptmgr).current()),
    {
        if c.level == 0 {
            self.level0_compactions_in_progress = false;
        }
        let min_recovery_point = self.min_recovery_point;
        self.log_and_apply::<O>(wal, ckptmgr, now, &c.edit, min_recovery_point)
    }

    /// Goes on from a checkpoint.
    pub fn recover(&mut self, checkpoint: CheckpointLog)
        requires
            compaction::sizes_fit(
                table::file_set_view(checkpoint.file_set@),
                old(self).opened_with(),
            ),
        ensures
            final(self).files() == table::file_set_view(checkpoint.file_set@),
            final(self).version().scores() == Seq::new(
                final(self).files().len(),
                |level: int|
                    compaction::level_score(
                        final(self).files(),
                        old(self).opened_with(),
                        level,
                    ),
            ),
            final(self).opened_with() == old(self).opened_with(),
            final(self).next_file() == checkpoint.next_file_num,
            final(self).flushed_xip() == checkpoint.min_xip,
            final(self).recovery_point() == checkpoint.min_recovery_point,
            final(self).level0_busy() == old(self).level0_busy(),
    {
        self.min_xip = checkpoint.min_xip;
        self.set_next_file_number(checkpoint.next_file_num);
        self.min_recovery_point = checkpoint.min_recovery_point;
        let mut version = Version::from_files(checkpoint.file_set);
        version.calculate_compaction_score(&self.options);
        self.set_current(version);
    }
}

/// The ages that the files of a level have in a merge: those of level 0 have one, the others none.
pub open spec fn input_ages(level: usize, files: Seq<FileMeta>) -> Seq<Timestamp> {
    files.map_values(
        |f: FileMeta|
            if level == 0 {
                f.min_xip
            } else {
                Timestamp(0)
            },
    )
}

/// The entries of the tables of files.
pub open spec fn input_tables(contents: Map<TableFileRef, Seq<u8>>, files: Seq<FileMeta>) -> Seq<
    Seq<(Seq<u8>, Seq<u8>)>,
> {
    files.map_values(|f: FileMeta| block_table::table_entries(contents[f.file_ref]))
}

/// Whether each of the files that exists holds a table with keys in order.
pub open spec fn inputs_sound<O: KeyOrder>(
    contents: Map<TableFileRef, Seq<u8>>,
    files: Seq<FileMeta>,
) -> bool {
    forall|i: int|
        0 <= i < files.len() && contents.contains_key((#[trigger] files[i]).file_ref)
            ==> table::sound_table::<O>(contents[files[i].file_ref])
}

/// Whether all files exist.
pub open spec fn files_exist(contents: Map<TableFileRef, Seq<u8>>, files: Seq<FileMeta>) -> bool {
    forall|i: int| 0 <= i < files.len() ==> contents.contains_key((#[trigger] files[i]).file_ref)
}

spec fn iter_ready<O: KeyOrder, R: crate::utils::random_access::RandomAccess>(
    p: (Timestamp, OwningTableIterator<R>),
) -> bool {
    &&& p.1.wf()
    &&& p.1.remaining() == p.1.entries()
    &&& crate::key::ascending::<O>(p.1.entries())
    &&& crate::key::keys_valid::<O>(p.1.entries())
}

spec fn iters_ready<O: KeyOrder, R: crate::utils::random_access::RandomAccess>(
    iters: Seq<(Timestamp, OwningTableIterator<R>)>,
) -> bool {
    forall|i: int| 0 <= i < iters.len() ==> iter_ready::<O, R>(#[trigger] iters[i])
}

spec fn all_reliable<R: crate::utils::random_access::RandomAccess>(
    iters: Seq<(Timestamp, OwningTableIterator<R>)>,
) -> bool {
    forall|i: int| 0 <= i < iters.len() ==> (#[trigger] iters[i]).1.reliable()
}

proof fn lemma_added_valid<O: KeyOrder>(added: Seq<(usize, FileMeta)>, level: nat)
    requires
        forall|i: int| 0 <= i < added.len() ==> builder::bounds_valid::<O>((#[trigger] added[i]).1),
    ensures
        builder::all_valid::<O>(builder::added_at(added, level)),
    decreases added.len(),
{
    if added.len() > 0 {
        let init = added.drop_last();
        assert forall|i: int| 0 <= i < init.len() implies builder::bounds_valid::<O>(
            (#[trigger] init[i]).1,
        ) by {
            assert(init[i] == added[i]);
        }
        lemma_added_valid::<O>(init, level);
        assert(builder::bounds_valid::<O>(added[added.len() - 1].1));
    }
}

/// Marking files changes no size upwards.
pub proof fn lemma_marking_fits<O: KeyOrder>(
    levels: Seq<Seq<FileMeta>>,
    level: usize,
    start: Seq<FileMeta>,
    output: Seq<FileMeta>,
    opt: DbOptions,
)
    requires
        builder::levels_ordered::<O>(levels),
        level + 1 < levels.len(),
        levels.len() <= usize::MAX,
        compaction::sizes_fit(levels, opt),
    ensures
        levels_valid::<O>(levels),
        builder::edit_fits::<O>(marking(level, start, output), levels.len()),
        forall|r: (usize, TableFileRef)| #[trigger]
            marking(level, start, output).marked.contains(r) ==> r.0 < levels.len(),
        compaction::sizes_fit(
            builder::edited::<O>(levels, marking(level, start, output)),
            opt,
        ),
{
    let edit = marking(level, start, output);
    assert forall|l: int| 0 <= l < levels.len() implies builder::all_valid::<O>(
        #[trigger] levels[l],
    ) by {
        compaction::lemma_valid::<O>(levels, l);
    }
    let after = builder::edited::<O>(levels, edit);
    assert forall|l: int| 0 <= l < after.len() - 1 implies compaction::idle_size(
        #[trigger] after[l],
    ) <= usize::MAX && opt.level_fits(l as nat) by {
        lemma_marked_level::<O>(levels[l], l as nat, edit);
        compaction::lemma_marked_size(levels[l], l as nat, edit.marked);
        assert(compaction::idle_size(levels[l]) <= usize::MAX);
    }
}

/// An edit that adds and deletes nothing only marks files.
pub proof fn lemma_marked_level<O: KeyOrder>(files: Seq<FileMeta>, level: nat, edit: EditView)
    requires
        edit.added.len() == 0,
        edit.deleted == Set::<(usize, TableFileRef)>::empty(),
    ensures
        builder::edited_level::<O>(files, level, edit) == builder::marked_files(
            files,
            level,
            edit.marked,
        ),
{
    let order = builder::FileOrder::of_level(level);
    assert(builder::added_at(edit.added, level) =~= Seq::<FileMeta>::empty());
    assert(builder::in_order::<O>(order, Seq::<FileMeta>::empty()) =~= Seq::<FileMeta>::empty());
    lemma_kept_all(files, level, edit.deleted);
}

pub proof fn lemma_kept_all(files: Seq<FileMeta>, level: nat, deleted: Set<(usize, TableFileRef)>)
    requires
        deleted == Set::<(usize, TableFileRef)>::empty(),
    ensures
        builder::kept(files, level, deleted) == files,
    decreases files.len(),
{
    if files.len() > 0 {
        lemma_kept_all(files.drop_last(), level, deleted);
        assert(files =~= files.drop_last().push(files.last()));
    }
}

} // verus!

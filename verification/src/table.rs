//! Tables: immutable sorted files.
pub mod block_table;
pub mod table_cache;
pub mod table_rules;

use crate::error::Error;
use crate::key;
use crate::key::KeyOrder;
use crate::transaction::Timestamp;
use crate::utils::random_access::RandomAccess;
use vstd::slice::slice_to_vec;
use vstd::prelude::*;

pub use crate::table::block_table::{
    default_table_factory, BlockCache, BlockTableBuilder, BlockTableFactory, BlockTableOptions,
    BlockTableReader, OwningTableIterator,
};
pub use crate::table::table_cache::TableCache;

verus! {

/// The first value that stands under a key.
pub open spec fn lookup(entries: Seq<(Seq<u8>, Seq<u8>)>, key: Seq<u8>) -> Option<Seq<u8>>
    decreases entries.len(),
{
    if entries.len() == 0 {
        None
    } else if entries[0].0 == key {
        Some(entries[0].1)
    } else {
        lookup(entries.drop_first(), key)
    }
}

pub proof fn lemma_lookup_concat(
    a: Seq<(Seq<u8>, Seq<u8>)>,
    b: Seq<(Seq<u8>, Seq<u8>)>,
    key: Seq<u8>,
)
    ensures
        lookup(a + b, key) == match lookup(a, key) {
            Some(v) => Some(v),
            None => lookup(b, key),
        },
    decreases a.len(),
{
    if a.len() == 0 {
        assert(a + b =~= b);
    } else {
        assert((a + b)[0] == a[0]);
        assert((a + b).drop_first() =~= a.drop_first() + b);
        lemma_lookup_concat(a.drop_first(), b, key);
    }
}

pub proof fn lemma_lookup_none(entries: Seq<(Seq<u8>, Seq<u8>)>, key: Seq<u8>)
    requires
        forall|i: int| 0 <= i < entries.len() ==> (#[trigger] entries[i]).0 != key,
    ensures
        lookup(entries, key) is None,
    decreases entries.len(),
{
    if entries.len() > 0 {
        assert(entries[0].0 != key);
        let rest = entries.drop_first();
        assert forall|i: int| 0 <= i < rest.len() implies (#[trigger] rest[i]).0 != key by {
            assert(rest[i] == entries[i + 1]);
        }
        lemma_lookup_none(rest, key);
    }
}

pub proof fn lemma_lookup_at(entries: Seq<(Seq<u8>, Seq<u8>)>, key: Seq<u8>, n: int)
    requires
        0 <= n < entries.len(),
        entries[n].0 == key,
        forall|i: int| 0 <= i < n ==> (#[trigger] entries[i]).0 != key,
    ensures
        lookup(entries, key) == Some(entries[n].1),
    decreases n,
{
    if n > 0 {
        assert(entries[0].0 != key);
        let rest = entries.drop_first();
        assert forall|i: int| 0 <= i < n - 1 implies (#[trigger] rest[i]).0 != key by {
            assert(rest[i] == entries[i + 1]);
        }
        lemma_lookup_at(rest, key, n - 1);
    }
}

/// Names a table file: the directory that it lies in and its number.
#[derive(Clone, Copy, Debug, PartialEq, Eq, Structural, Hash)]
pub struct TableFileRef(pub usize, pub usize);

impl TableFileRef {
    pub fn new(path_id: usize, seqnum: usize) -> (r: Self)
        ensures
            r.0 == path_id,
            r.1 == seqnum,
    {
        Self(path_id, seqnum)
    }

    pub fn path_id_seqnum(&self) -> (r: (usize, usize))
        ensures
            r == (self.0, self.1),
    {
        (self.0, self.1)
    }
}

impl Default for TableFileRef {
    fn default() -> (r: Self)
        ensures
            r == TableFileRef(0, 0),
    {
        Self(0, 0)
    }
}

/// What the store knows of a table file without opening it.
pub struct TableFileMeta {
    pub file_ref: TableFileRef,
    pub size: usize,
    pub min_xip: Timestamp,
    /// The smallest key.
    pub infimum: Vec<u8>,
    /// The largest key.
    pub supremum: Vec<u8>,
    pub being_compacted: bool,
}

/// What a description of a table file says.
pub struct FileMeta {
    pub file_ref: TableFileRef,
    pub size: usize,
    pub min_xip: Timestamp,
    pub infimum: Seq<u8>,
    pub supremum: Seq<u8>,
    pub being_compacted: bool,
}

impl View for TableFileMeta {
    type V = FileMeta;

    open spec fn view(&self) -> FileMeta {
        FileMeta {
            file_ref: self.file_ref,
            size: self.size,
            min_xip: self.min_xip,
            infimum: self.infimum@,
            supremum: self.supremum@,
            being_compacted: self.being_compacted,
        }
    }
}

/// What the descriptions of the files of a level say.
pub open spec fn level_view(files: Seq<TableFileMeta>) -> Seq<FileMeta> {
    files.map_values(|f: TableFileMeta| f@)
}

/// What the descriptions of the files of each level say.
pub open spec fn file_set_view(files: Seq<Vec<TableFileMeta>>) -> Seq<Seq<FileMeta>> {
    files.map_values(|l: Vec<TableFileMeta>| level_view(l@))
}

/// The files of each level.
pub type TableFileSet = Vec<Vec<TableFileMeta>>;

impl TableFileMeta {
    pub fn new(
        file_ref: TableFileRef,
        size: usize,
        min_xip: Timestamp,
        infimum: Vec<u8>,
        supremum: Vec<u8>,
    ) -> (r: Self)
        ensures
            r@ == (FileMeta {
                file_ref,
                size,
                min_xip,
                infimum: infimum@,
                supremum: supremum@,
                being_compacted: false,
            }),
    {
        Self { file_ref, size, min_xip, infimum, supremum, being_compacted: false }
    }
}

impl Clone for TableFileMeta {
    fn clone(&self) -> (r: Self)
        ensures
            r@ == self@,
    {
        Self {
            file_ref: self.file_ref,
            size: self.size,
            min_xip: self.min_xip,
            infimum: self.infimum.clone(),
            supremum: self.supremum.clone(),
            being_compacted: self.being_compacted,
        }
    }
}

/// Builds a table from its entries, which are added in ascending order of their keys.
pub trait TableBuilder {
    /// The entries that were added.
    spec fn entries(&self) -> Seq<(Seq<u8>, Seq<u8>)>;

    /// Whether entries can be added.
    spec fn open(&self) -> bool;

    /// Whether the table has room for one more entry.
    spec fn fits(&self, key: Seq<u8>, value: Seq<u8>) -> bool;

    /// The size of the table if it were finished now, without its index and filter.
    spec fn size(&self) -> nat;

    /// Whether `table` holds the given entries.
    spec fn holds(&self, table: Seq<u8>, entries: Seq<(Seq<u8>, Seq<u8>)>) -> bool;

    /// All bytes of the table so far.
    spec fn output(&self) -> Seq<u8>;

    fn size_hint(&self) -> (r: usize)
        requires
            self.open(),
        ensures
            r == self.size(),
    ;

    fn add(&mut self, key: &[u8], value: &[u8]) -> (r: Result<(), Error>)
        requires
            old(self).open(),
            old(self).fits(key@, value@),
        ensures
            r is Ok,
            final(self).open(),
            final(self).entries() == old(self).entries().push((key@, value@)),
    ;

    fn finish(&mut self) -> (r: Result<(), Error>)
        requires
            old(self).open(),
        ensures
            r is Ok,
            old(self).holds(final(self).output(), old(self).entries()),
    ;
}

/// Walks over the entries of tables in ascending order of their keys.
pub trait TableIterator {
    spec fn wf(&self) -> bool;

    /// All entries.
    spec fn entries(&self) -> Seq<(Seq<u8>, Seq<u8>)>;

    /// The entries that are still to come.
    spec fn remaining(&self) -> Seq<(Seq<u8>, Seq<u8>)>;

    /// Whether no read fails.
    spec fn reliable(&self) -> bool;

    /// The next entry.
    fn next(&mut self) -> (r: Result<Option<(Vec<u8>, Vec<u8>)>, Error>)
        requires
            old(self).wf(),
        ensures
            final(self).wf(),
            final(self).entries() == old(self).entries(),
            final(self).reliable() == old(self).reliable(),
            match r {
                Ok(Some((k, v))) => {
                    &&& old(self).remaining().len() > 0
                    &&& (k@, v@) == old(self).remaining()[0]
                    &&& final(self).remaining() == old(self).remaining().drop_first()
                },
                Ok(None) => old(self).remaining().len() == 0,
                Err(_) => !old(self).reliable(),
            },
    ;

    fn reset(&mut self)
        requires
            old(self).wf(),
        ensures
            final(self).wf(),
            final(self).entries() == old(self).entries(),
            final(self).reliable() == old(self).reliable(),
    ;

    fn seek(&mut self, key: &[u8])
        requires
            old(self).wf(),
        ensures
            final(self).wf(),
            final(self).entries() == old(self).entries(),
            final(self).reliable() == old(self).reliable(),
    ;
}

/// Whether the bytes are a table whose keys are valid, not empty, and in ascending order.
pub open spec fn sound_table<O: KeyOrder>(t: Seq<u8>) -> bool {
    let entries = block_table::table_entries(t);
    &&& block_table::is_table(t)
    &&& key::ascending::<O>(entries)
    &&& key::keys_valid::<O>(entries)
    &&& forall|i: int| 0 <= i < entries.len() ==> (#[trigger] entries[i]).0.len() > 0
}

/// Where the files of tables lie. What the files hold, and whether they can be relied on, is left
/// open where it is not stated.
pub trait TableStore: Sized {
    type Reader: RandomAccess;

    /// The bytes of each file.
    closed spec fn files(&self) -> Map<TableFileRef, Seq<u8>> {
        arbitrary::<spec_fn(Self) -> Map<TableFileRef, Seq<u8>>>()(*self)
    }

    /// Whether no access fails.
    closed spec fn reliable(&self) -> bool {
        arbitrary::<spec_fn(Self) -> bool>()(*self)
    }

    /// Opens a file and tells its size.
    fn open_table(&self, file_ref: TableFileRef) -> (r: Result<(Self::Reader, usize), Error>)
        ensures
            match r {
                Ok((reader, size)) => {
                    &&& self.files().contains_key(file_ref)
                    &&& reader.bytes() == self.files()[file_ref]
                    &&& size == reader.bytes().len()
                    &&& self.reliable() ==> reader.reliable()
                },
                Err(_) => !self.reliable() || !self.files().contains_key(file_ref),
            },
    ;

    /// Writes a file.
    fn create_table(&mut self, file_ref: TableFileRef, contents: Vec<u8>) -> (r: Result<(), Error>)
        ensures
            final(self).reliable() == old(self).reliable(),
            match r {
                Ok(_) => final(self).files() == old(self).files().insert(file_ref, contents@),
                Err(_) => {
                    &&& !old(self).reliable()
                    &&& final(self).files().remove(file_ref) == old(self).files().remove(file_ref)
                },
            },
    ;
}

/// Table files that are kept in memory.
pub struct MemoryTables {
    tables: Vec<(TableFileRef, Vec<u8>)>,
}

impl MemoryTables {
    pub fn new() -> (r: Self)
        ensures
            r.files() == Map::<TableFileRef, Seq<u8>>::empty(),
    {
        let r = MemoryTables { tables: Vec::new() };
        proof {
            assert(r.files() =~= Map::<TableFileRef, Seq<u8>>::empty());
        }
        r
    }

    /// Where a file stands.
    fn position(&self, file_ref: TableFileRef) -> (r: Option<usize>)
        ensures
            match r {
                Some(i) => i < self.tables@.len() && self.tables@[i as int].0 == file_ref,
                None => forall|i: int|
                    0 <= i < self.tables@.len() ==> (#[trigger] self.tables@[i]).0 != file_ref,
            },
            match r {
                Some(i) => forall|j: int|
                    0 <= j < i ==> (#[trigger] self.tables@[j]).0 != file_ref,
                None => true,
            },
    {
        let size: usize = self.tables.len();
        let mut i: usize = 0;
        while i < size
            invariant
                i <= size,
                size == self.tables@.len(),
                forall|j: int| 0 <= j < i ==> (#[trigger] self.tables@[j]).0 != file_ref,
            decreases size - i,
        {
            if self.tables[i].0 == file_ref {
                return Some(i);
            }
            i = i + 1;
        }
        None
    }
}

/// The files of a list, of which the first one of each name counts.
pub open spec fn listed_files(tables: Seq<(TableFileRef, Vec<u8>)>) -> Map<TableFileRef, Seq<u8>>
    decreases tables.len(),
{
    if tables.len() == 0 {
        Map::empty()
    } else {
        listed_files(tables.drop_first()).insert(tables[0].0, tables[0].1@)
    }
}

proof fn lemma_listed(tables: Seq<(TableFileRef, Vec<u8>)>, file_ref: TableFileRef, n: int)
    requires
        0 <= n <= tables.len(),
        forall|j: int| 0 <= j < n ==> (#[trigger] tables[j]).0 != file_ref,
        n < tables.len() ==> tables[n].0 == file_ref,
    ensures
        listed_files(tables).contains_key(file_ref) == (n < tables.len()),
        n < tables.len() ==> listed_files(tables)[file_ref] == tables[n].1@,
    decreases n,
{
    if n > 0 {
        assert(tables[0].0 != file_ref);
        let rest = tables.drop_first();
        assert forall|j: int| 0 <= j < n - 1 implies (#[trigger] rest[j]).0 != file_ref by {
            assert(rest[j] == tables[j + 1]);
        }
        lemma_listed(rest, file_ref, n - 1);
    }
}

proof fn lemma_listed_update(tables: Seq<(TableFileRef, Vec<u8>)>, n: int, contents: Vec<u8>)
    requires
        0 <= n < tables.len(),
        forall|j: int| 0 <= j < n ==> (#[trigger] tables[j]).0 != tables[n].0,
    ensures
        listed_files(tables.update(n, (tables[n].0, contents))) == listed_files(tables).insert(
            tables[n].0,
            contents@,
        ),
    decreases n,
{
    let after = tables.update(n, (tables[n].0, contents));
    if n == 0 {
        assert(after.drop_first() =~= tables.drop_first());
        assert(listed_files(after) =~= listed_files(tables).insert(tables[n].0, contents@));
    } else {
        let rest = tables.drop_first();
        assert(tables[0].0 != tables[n].0);
        assert forall|j: int| 0 <= j < n - 1 implies (#[trigger] rest[j]).0 != rest[n - 1].0 by {
            assert(rest[j] == tables[j + 1]);
        }
        assert(rest[n - 1] == tables[n]);
        assert(after.drop_first() =~= rest.update(n - 1, (tables[n].0, contents)));
        lemma_listed_update(rest, n - 1, contents);
        assert(listed_files(after) =~= listed_files(tables).insert(tables[n].0, contents@));
    }
}

proof fn lemma_listed_push(tables: Seq<(TableFileRef, Vec<u8>)>, e: (TableFileRef, Vec<u8>))
    requires
        forall|j: int| 0 <= j < tables.len() ==> (#[trigger] tables[j]).0 != e.0,
    ensures
        listed_files(tables.push(e)) == listed_files(tables).insert(e.0, e.1@),
    decreases tables.len(),
{
    let after = tables.push(e);
    if tables.len() == 0 {
        assert(after.drop_first() =~= tables);
    } else {
        let rest = tables.drop_first();
        assert(tables[0].0 != e.0);
        assert forall|j: int| 0 <= j < rest.len() implies (#[trigger] rest[j]).0 != e.0 by {
            assert(rest[j] == tables[j + 1]);
        }
        assert(after.drop_first() =~= rest.push(e));
        lemma_listed_push(rest, e);
        assert(listed_files(after) =~= listed_files(tables).insert(e.0, e.1@));
    }
}

impl TableStore for MemoryTables {
    type Reader = Vec<u8>;

    closed spec fn files(&self) -> Map<TableFileRef, Seq<u8>> {
        listed_files(self.tables@)
    }

    open spec fn reliable(&self) -> bool {
        true
    }

    fn open_table(&self, file_ref: TableFileRef) -> (r: Result<(Vec<u8>, usize), Error>) {
        match self.position(file_ref) {
            Some(i) => {
                proof {
                    lemma_listed(self.tables@, file_ref, i as int);
                }
                let contents = slice_to_vec(self.tables[i].1.as_slice());
                let size: usize = contents.len();
                Ok((contents, size))
            },
            None => {
                proof {
                    lemma_listed(self.tables@, file_ref, self.tables@.len() as int);
                }
                Err(Error::Io("no such table".to_owned()))
            },
        }
    }

    fn create_table(&mut self, file_ref: TableFileRef, contents: Vec<u8>) -> (r: Result<(), Error>) {
        match self.position(file_ref) {
            Some(i) => {
                proof {
                    lemma_listed_update(self.tables@, i as int, contents);
                }
                self.tables.set(i, (file_ref, contents));
            },
            None => {
                proof {
                    lemma_listed_push(self.tables@, (file_ref, contents));
                }
                self.tables.push((file_ref, contents));
            },
        }
        Ok(())
    }
}

} // verus!

//! Keeps tables open.
use crate::error::Error;
use crate::key;
use crate::key::KeyOrder;
use crate::table;
use crate::table::block_table;
use crate::table::block_table::{
    default_block_cache, BlockCache, BlockTableFactory, BlockTableReader,
};
use crate::table::{TableFileRef, TableStore};
use crate::utils::random_access::RandomAccess;
use crate::utils::cache::ShardedCache;
use std::sync::Arc;
use vstd::prelude::*;

verus! {

/// Keeps the tables that were used last open.
pub struct TableCache<R> {
    factory: BlockTableFactory,
    tables: ShardedCache<(TableFileRef, Arc<BlockTableReader<R>>)>,
    blocks: BlockCache,
    /// The table that each identifier of the block cache was given out for.
    owners: Ghost<Map<u32, Seq<u8>>>,
}

impl<R: RandomAccess> TableCache<R> {
    /// The identifier that the next table that is opened gets.
    pub closed spec fn next_id(self) -> u32 {
        self.blocks.next_cache_id()
    }

    /// How tables are read.
    pub closed spec fn reads_with(self) -> BlockTableFactory {
        self.factory
    }

    /// Whether the cache was used for the table `t` under the given identifier.
    pub closed spec fn owns(self, id: u32, t: Seq<u8>) -> bool {
        self.owners@.contains_key(id) && self.owners@[id] == t
    }

    /// Every cached block is one of the table that its identifier was given out for.
    closed spec fn blocks_fit(self) -> bool {
        &&& self.blocks.wf()
        &&& forall|id: u32| #[trigger]
            self.owners@.contains_key(id) ==> id < self.blocks.next_cache_id()
                && block_table::blocks_ok(id, self.owners@[id], self.blocks)
        &&& forall|k: (u32, u64)| #[trigger]
            self.blocks.lookup(k) is Some ==> self.owners@.contains_key(k.0)
    }

    /// Every open table is the one that the given files hold; `sure` says that reading them does
    /// not fail.
    closed spec fn tables_fit(self, files: Map<TableFileRef, Seq<u8>>, sure: bool) -> bool {
        &&& self.tables.wf()
        &&& forall|k: (u32, u64)|
            (#[trigger] self.tables.lookup(k)) is Some ==> self.table_fits(
                files,
                sure,
                self.tables.lookup(k)->Some_0,
            )
    }

    closed spec fn table_fits(
        self,
        files: Map<TableFileRef, Seq<u8>>,
        sure: bool,
        e: (TableFileRef, Arc<BlockTableReader<R>>),
    ) -> bool {
        &&& e.1.wf()
        &&& files.contains_key(e.0)
        &&& e.1.bytes() == files[e.0]
        &&& self.owns(e.1.id(), e.1.bytes())
        &&& sure ==> e.1.reliable()
    }

    /// What the cache holds is what the given files hold; `sure` says that reading them does not
    /// fail.
    pub closed spec fn ok(self, files: Map<TableFileRef, Seq<u8>>, sure: bool) -> bool {
        self.blocks_fit() && self.tables_fit(files, sure)
    }

    /// Files that are added do not matter.
    pub proof fn lemma_more_files(
        self,
        files: Map<TableFileRef, Seq<u8>>,
        more: Map<TableFileRef, Seq<u8>>,
        sure: bool,
    )
        requires
            self.ok(files, sure),
            forall|f: TableFileRef| #[trigger]
                files.contains_key(f) ==> more.contains_key(f) && more[f] == files[f],
        ensures
            self.ok(more, sure),
    {
    }

    pub fn new(factory: BlockTableFactory, max_open_files: usize) -> (r: Self)
        requires
            0 < max_open_files,
            max_open_files / 32 <= crate::utils::cache::MAX_CACHE_CAPACITY,
        ensures
            r.reads_with() == factory,
            r.next_id() == 1,
            forall|files: Map<TableFileRef, Seq<u8>>, sure: bool| #[trigger] r.ok(files, sure),
    {
        TableCache {
            factory,
            tables: ShardedCache::new(32, max_open_files),
            blocks: default_block_cache(),
            owners: Ghost(Map::empty()),
        }
    }

    /// The identifier that the next table gets.
    pub fn opened(&self) -> (r: u32)
        ensures
            r == self.next_id(),
    {
        self.blocks.peek_cache_id()
    }

    /// The table in a file, which is opened if it is not open.
    pub fn get_table<S: TableStore<Reader = R>>(&mut self, store: &S, file_ref: TableFileRef) -> (r:
        Result<Arc<BlockTableReader<R>>, Error>)
        requires
            old(self).ok(store.files(), store.reliable()),
            old(self).next_id() < u32::MAX,
            store.files().contains_key(file_ref) ==> block_table::has_blocks(
                store.files()[file_ref],
            ),
        ensures
            final(self).ok(store.files(), store.reliable()),
            final(self).reads_with() == old(self).reads_with(),
            old(self).next_id() <= final(self).next_id() <= old(self).next_id() + 1,
            match r {
                Ok(t) => {
                    &&& store.files().contains_key(file_ref)
                    &&& t.wf()
                    &&& t.bytes() == store.files()[file_ref]
                    &&& final(self).owns(t.id(), t.bytes())
                    &&& store.reliable() ==> t.reliable()
                },
                Err(_) => !store.reliable() || !store.files().contains_key(file_ref),
            },
    {
        let cache_key: u64 = file_ref.1 as u64;
        match self.tables.get(0, cache_key) {
            Some((cached_ref, table)) => {
                if *cached_ref == file_ref {
                    let table = table.clone();
                    return Ok(table);
                }
            },
            None => {},
        }
        let ghost before = *self;
        let (reader, size) = match store.open_table(file_ref) {
            Ok(opened) => opened,
            Err(e) => {
                return Err(e);
            },
        };
        proof {
            assert(block_table::has_blocks(reader.bytes()));
        }
        let table = match self.factory.create_table_reader(reader, size, &mut self.blocks) {
            Ok(table) => table,
            Err(e) => {
                proof {
                    assert forall|k: (u32, u64)| #[trigger]
                        self.blocks.lookup(k) == before.blocks.lookup(k) by {}
                    lemma_same_blocks(before.blocks, self.blocks);
                }
                return Err(e);
            },
        };
        let ghost (id, bytes) = (table.id(), table.bytes());
        self.owners = Ghost(self.owners@.insert(id, bytes));
        let table = Arc::new(table);
        proof {
            assert forall|k: (u32, u64)| #[trigger]
                self.blocks.lookup(k) == before.blocks.lookup(k) by {}
            lemma_same_blocks(before.blocks, self.blocks);
            assert(!before.owners@.contains_key(table.id()));
            assert forall|off: u64| (#[trigger] self.blocks.lookup((table.id(), off))) is None by {
                if self.blocks.lookup((table.id(), off)) is Some {
                    assert(before.blocks.lookup((table.id(), off)) is Some);
                }
            }
            assert(block_table::blocks_ok(table.id(), table.bytes(), self.blocks));
        }
        let ghost mid = *self;
        let _ = self.tables.insert(0, cache_key, (file_ref, table.clone()));
        proof {
            assert forall|k: (u32, u64)|
                (#[trigger] self.tables.lookup(k)) is Some implies self.table_fits(
                store.files(),
                store.reliable(),
                self.tables.lookup(k)->Some_0,
            ) by {
                let e = self.tables.lookup(k).unwrap();
                if k != (0u32, cache_key) || mid.tables.room() == 0 {
                    assert(before.tables.lookup(k) == Some(e));
                    assert(before.owns(e.1.id(), e.1.bytes()));
                }
            }
        }
        Ok(table)
    }

    /// The value of a key in a file. An empty key is never found.
    pub fn get_in_file<O: KeyOrder, S: TableStore<Reader = R>>(
        &mut self,
        store: &S,
        file_ref: TableFileRef,
        key: &[u8],
    ) -> (r: Result<Option<Vec<u8>>, Error>)
        requires
            old(self).ok(store.files(), store.reliable()),
            old(self).next_id() < u32::MAX,
            O::valid(key@),
            store.files().contains_key(file_ref) ==> table::sound_table::<O>(
                store.files()[file_ref],
            ),
        ensures
            final(self).ok(store.files(), store.reliable()),
            final(self).reads_with() == old(self).reads_with(),
            old(self).next_id() <= final(self).next_id() <= old(self).next_id() + 1,
            match r {
                Ok(v) => {
                    &&& store.files().contains_key(file_ref)
                    &&& key@.len() == 0 ==> v is None
                    &&& key@.len() > 0 ==> block_table::value_bytes(v) == table::lookup(
                        block_table::table_entries(store.files()[file_ref]),
                        key@,
                    )
                },
                Err(_) => !store.reliable() || !store.files().contains_key(file_ref),
            },
    {
        let table = match self.get_table(store, file_ref) {
            Ok(table) => table,
            Err(e) => {
                return Err(e);
            },
        };
        let ghost mid = *self;
        proof {
            assert(mid.owners@.contains_key(table.id()));
        }
        let r = table.get::<O>(&mut self.blocks, key);
        proof {
            assert forall|id: u32| #[trigger] self.owners@.contains_key(id) implies id
                < self.blocks.next_cache_id() && block_table::blocks_ok(
                id,
                self.owners@[id],
                self.blocks,
            ) by {
                if id != table.id() {
                    assert(block_table::blocks_ok(id, mid.owners@[id], mid.blocks));
                    assert forall|off: u64|
                        (#[trigger] self.blocks.lookup((id, off))) is Some implies self.blocks.lookup(
                        (id, off),
                    ) == mid.blocks.lookup((id, off)) by {
                        assert((id, off).0 != table.id());
                    }
                }
            }
            assert forall|k: (u32, u64)| #[trigger] self.blocks.lookup(k) is Some implies self.owners@.contains_key(
                k.0,
            ) by {
                if k.0 != table.id() {
                    assert(mid.blocks.lookup(k) is Some);
                }
            }
        }
        r
    }
}

/// Two states of a cache that find the same fit the same tables.
proof fn lemma_same_blocks(a: BlockCache, b: BlockCache)
    requires
        forall|k: (u32, u64)| #[trigger] b.lookup(k) == a.lookup(k),
    ensures
        forall|id: u32, t: Seq<u8>| #[trigger]
            block_table::blocks_ok(id, t, b) == block_table::blocks_ok(id, t, a),
{
    assert forall|id: u32, t: Seq<u8>| #[trigger]
        block_table::blocks_ok(id, t, b) == block_table::blocks_ok(id, t, a) by {
        if block_table::blocks_ok(id, t, a) {
            assert forall|off: u64| (#[trigger] b.lookup((id, off))) == a.lookup((id, off)) by {}
        }
        if block_table::blocks_ok(id, t, b) {
            assert forall|off: u64| (#[trigger] a.lookup((id, off))) == b.lookup((id, off)) by {}
        }
    }
}

} // verus!

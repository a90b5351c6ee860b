//! Tables made of blocks.
//!
//! A table is a run of data blocks, then a filter block, the index block and a footer that says
//! where the last two lie. A checksum follows every block and ends the footer.
use crate::block::data_block;
use crate::block::filter_policy;
use crate::block::index;
use crate::block::{
    create_filter_block_builder, create_filter_block_reader, default_filter_policy,
    BinarySearchIndexBuilder, Block, BlockIndexBuilder, BloomFilterPolicy, DataBlockBuilder,
    DataBlockIterator, DataBlockView, FilterBlockBuilder, FilterBlockReader, ItemPointer,
    DEFAULT_BLOCK_SIZE,
};
use crate::block::filter::{FullFilterBlockBuilder, FullFilterBlockReader};
use crate::coding;
use crate::coding::{checksum, read_u32_le, read_u64_le, write_u32_le, write_u64_le};
use crate::error::Error;
use crate::key;
use crate::key::{bytes_equal, KeyOrder};
use crate::table;
use crate::table::{TableBuilder, TableIterator};
use crate::utils::cache::{CacheId, ShardedCache};
use crate::utils::random_access::RandomAccess;
use std::sync::Arc;
use vstd::prelude::*;
use vstd::slice::{slice_subrange, slice_to_vec};

verus! {

/// The number that a table's footer starts with.
pub const BLOCK_TABLE_MAGIC_NUMBER: u32 = 0xb10cba5e;

/// The bytes of the checksum after a block.
pub const BLOCK_TRAILER_LENGTH: usize = 4;

/// The bytes of a footer.
pub const TABLE_FOOTER_LENGTH: usize = 40;

/// The blocks that a cache has room for unless it is made otherwise.
pub const DEFAULT_BLOCK_CACHE_BLOCKS: usize = 0x10_0000;

/// The parts that such a cache is split into.
pub const DEFAULT_BLOCK_CACHE_SHARDS: usize = 32;

/// Blocks that were read before, shared by the tables of a store.
pub type BlockCache = ShardedCache<Block>;

/// The cache that a store makes unless it is given one.
pub fn default_block_cache() -> (r: BlockCache)
    ensures
        r.next_cache_id() == 1,
        r.wf(),
        r.room() == 0x8000,
        forall|k: (u32, u64)| #[trigger] r.lookup(k) is None,
{
    ShardedCache::new(DEFAULT_BLOCK_CACHE_SHARDS, DEFAULT_BLOCK_CACHE_BLOCKS)
}

/// The `len` bytes at an offset, zeros where there are none.
pub open spec fn read_span(t: Seq<u8>, off: nat, len: nat) -> Seq<u8> {
    Seq::new(
        len,
        |i: int|
            if off + i < t.len() {
                t[off + i]
            } else {
                0u8
            },
    )
}

/// The block that a pointer leads to, if it can be held in memory and the checksum after it is
/// right.
pub open spec fn checked_block(t: Seq<u8>, ptr: ItemPointer) -> Option<Seq<u8>> {
    let raw = read_span(t, ptr.offset as nat, ptr.length as nat + 4);
    let contents = raw.take(ptr.length as int);
    if ptr.offset <= usize::MAX && ptr.length + 4 <= usize::MAX && coding::le_value(
        raw.skip(ptr.length as int),
    ) == coding::crc32(contents) {
        Some(contents)
    } else {
        None
    }
}

/// A footer without its checksum.
pub open spec fn footer_body(index_ptr: ItemPointer, filter_ptr: ItemPointer) -> Seq<u8> {
    coding::le_bytes(0xb10cba5e, 4) + coding::le_bytes(index_ptr.offset as nat, 8)
        + coding::le_bytes(index_ptr.length as nat, 8) + coding::le_bytes(
        filter_ptr.offset as nat,
        8,
    ) + coding::le_bytes(filter_ptr.length as nat, 8)
}

/// The bytes of a footer.
pub open spec fn footer_bytes(index_ptr: ItemPointer, filter_ptr: ItemPointer) -> Seq<u8> {
    let body = footer_body(index_ptr, filter_ptr);
    body + coding::le_bytes(coding::crc32(body) as nat, 4)
}

/// Whether the checksum of a footer is right.
pub open spec fn footer_intact(f: Seq<u8>) -> bool {
    coding::le_value(f.subrange(36, 40)) == coding::crc32(f.take(36))
}

/// Whether a footer starts with the number that it should.
pub open spec fn footer_magic(f: Seq<u8>) -> bool {
    coding::le_value(f.take(4)) == 0xb10cba5e
}

/// Where a footer says the index lies.
pub open spec fn footer_index(f: Seq<u8>) -> ItemPointer {
    ItemPointer {
        offset: coding::le_value(f.subrange(4, 12)) as u64,
        length: coding::le_value(f.subrange(12, 20)) as u64,
    }
}

/// Where a footer says the filter lies, if there is one.
pub open spec fn footer_filter(f: Seq<u8>) -> Option<ItemPointer> {
    let length = coding::le_value(f.subrange(28, 36));
    if length > 0 {
        Some(
            ItemPointer {
                offset: coding::le_value(f.subrange(20, 28)) as u64,
                length: length as u64,
            },
        )
    } else {
        None
    }
}

/// The footer of a table of the given size.
pub open spec fn footer_of(t: Seq<u8>, size: nat) -> Seq<u8> {
    read_span(t, (size - 40) as nat, 40)
}

/// Whether the bytes can be opened as a table of the given size: the footer is right and so are
/// the checksums of the index and the filter.
pub open spec fn opens(t: Seq<u8>, size: nat) -> bool {
    let f = footer_of(t, size);
    &&& footer_intact(f)
    &&& footer_magic(f)
    &&& checked_block(t, footer_index(f)) is Some
    &&& footer_filter(f) matches Some(ptr) ==> checked_block(t, ptr) is Some
}

/// What opening bytes that are no table of the given size fails with.
pub open spec fn open_error(t: Seq<u8>, size: nat, e: Error) -> bool {
    let f = footer_of(t, size);
    if !footer_intact(f) {
        e.is_corrupted("checksum does not match"@)
    } else if !footer_magic(f) {
        e.is_corrupted("table magic number does not match"@)
    } else {
        e.is_corrupted("block checksum does not match"@)
    }
}

/// The index of a table.
pub open spec fn index_of(t: Seq<u8>) -> Seq<u8> {
    checked_block(t, footer_index(footer_of(t, t.len()))).unwrap()
}

/// The data block that an item of the index leads to.
pub open spec fn item_block(t: Seq<u8>, item: (Seq<u8>, Seq<u8>)) -> Seq<u8> {
    checked_block(t, index::pointer_value(item.1)).unwrap()
}

/// The entries of the data block that an item of the index leads to.
#[verifier::opaque]
pub open spec fn item_entries(t: Seq<u8>, item: (Seq<u8>, Seq<u8>)) -> Seq<(Seq<u8>, Seq<u8>)> {
    data_block::block_entries(item_block(t, item))
}

/// Whether an item of the index leads to a data block that ends with its key.
pub open spec fn item_ok(t: Seq<u8>, item: (Seq<u8>, Seq<u8>)) -> bool {
    let ptr = index::pointer_value(item.1);
    &&& item.1.len() == 16
    &&& ptr.offset + ptr.length + 4 <= t.len()
    &&& checked_block(t, ptr) is Some
    &&& data_block::well_formed_block(item_block(t, item))
    &&& item_entries(t, item).len() > 0
    &&& item_entries(t, item).last().0 == item.0
}

/// The entries of the blocks that the items lead to.
#[verifier::opaque]
pub open spec fn entries_of(t: Seq<u8>, items: Seq<(Seq<u8>, Seq<u8>)>) -> Seq<
    (Seq<u8>, Seq<u8>),
>
    decreases items.len(),
{
    if items.len() == 0 {
        Seq::empty()
    } else {
        entries_of(t, items.drop_last()) + item_entries(t, items.last())
    }
}

/// The entries of a table.
pub open spec fn table_entries(t: Seq<u8>) -> Seq<(Seq<u8>, Seq<u8>)> {
    entries_of(t, data_block::block_entries(index_of(t)))
}

/// Whether different items lead to different offsets.
pub open spec fn offsets_differ(items: Seq<(Seq<u8>, Seq<u8>)>) -> bool {
    forall|i: int, j: int|
        0 <= i < j < items.len() ==> index::pointer_value((#[trigger] items[i]).1).offset
            != index::pointer_value((#[trigger] items[j]).1).offset
}

/// Whether every key of `entries` matches the filter.
pub open spec fn filter_covers(f: Seq<u8>, entries: Seq<(Seq<u8>, Seq<u8>)>) -> bool {
    forall|i: int|
        0 <= i < entries.len() ==> filter_policy::filter_matches(
            f,
            filter_policy::xx_hash64(#[trigger] entries[i].0),
        )
}

/// The entries of each data block of a table.
pub open spec fn item_groups(t: Seq<u8>, items: Seq<(Seq<u8>, Seq<u8>)>) -> Seq<
    Seq<(Seq<u8>, Seq<u8>)>,
> {
    Seq::new(items.len(), |i: int| item_entries(t, items[i]))
}

/// The entries of each data block of a table.
pub open spec fn table_blocks(t: Seq<u8>) -> Seq<Seq<(Seq<u8>, Seq<u8>)>> {
    item_groups(t, data_block::block_entries(index_of(t)))
}

/// The filter of a table, if it has one.
pub open spec fn table_filter(t: Seq<u8>) -> Option<Seq<u8>> {
    match footer_filter(footer_of(t, t.len())) {
        Some(ptr) => checked_block(t, ptr),
        None => None,
    }
}

/// Whether the bytes have the form of a table whose entries can be walked over: it can be opened,
/// and its index leads to its blocks.
pub open spec fn has_blocks(t: Seq<u8>) -> bool {
    let items = data_block::block_entries(index_of(t));
    &&& t.len() >= 40
    &&& opens(t, t.len())
    &&& data_block::well_formed_block(index_of(t))
    &&& forall|i: int| 0 <= i < items.len() ==> item_ok(t, #[trigger] items[i])
    &&& offsets_differ(items)
}

/// Whether keys can be looked up in a table: its filter, if it has one, can be probed and covers
/// its keys.
pub open spec fn searchable(t: Seq<u8>) -> bool {
    table_filter(t) matches Some(f) ==> filter_policy::probeable(f) && filter_covers(
        f,
        table_entries(t),
    )
}

/// Whether the bytes have the form of a table in which keys can be looked up.
pub open spec fn is_table(t: Seq<u8>) -> bool {
    has_blocks(t) && searchable(t)
}

/// Whether a key can be found among the entries: it is not empty, and an empty key among them
/// comes before it.
pub open spec fn findable<O: KeyOrder>(entries: Seq<(Seq<u8>, Seq<u8>)>, k: Seq<u8>) -> bool {
    &&& k.len() > 0
    &&& forall|i: int|
        0 <= i < entries.len() && (#[trigger] entries[i]).0.len() == 0 ==> O::lt(entries[i].0, k)
}

pub proof fn lemma_entries_split(t: Seq<u8>, items: Seq<(Seq<u8>, Seq<u8>)>, n: int)
    requires
        0 <= n <= items.len(),
    ensures
        entries_of(t, items) == entries_of(t, items.take(n)) + entries_of(t, items.skip(n)),
    decreases items.len() - n,
{
    reveal(entries_of);
    if n == items.len() {
        assert(items.take(n) =~= items);
        assert(items.skip(n).len() == 0);
        assert(entries_of(t, items.skip(n)) =~= Seq::empty());
        assert(entries_of(t, items) =~= entries_of(t, items) + Seq::<(Seq<u8>, Seq<u8>)>::empty());
    } else {
        let init = items.drop_last();
        lemma_entries_split(t, init, n);
        assert(init.take(n) =~= items.take(n));
        assert(init.skip(n) =~= items.skip(n).drop_last());
        assert(items.skip(n).last() == items.last());
        let b = item_entries(t, items.last());
        assert(entries_of(t, items) =~= (entries_of(t, items.take(n)) + entries_of(
            t,
            items.skip(n).drop_last(),
        )) + b);
    }
}

proof fn lemma_entries_first(t: Seq<u8>, items: Seq<(Seq<u8>, Seq<u8>)>)
    requires
        items.len() > 0,
    ensures
        entries_of(t, items) == item_entries(t, items[0]) + entries_of(
            t,
            items.drop_first(),
        ),
{
    reveal(entries_of);
    lemma_entries_split(t, items, 1);
    let one = items.take(1);
    assert(one.drop_last().len() == 0);
    assert(entries_of(t, one.drop_last()) =~= Seq::empty());
    assert(one.last() == items[0]);
    assert(entries_of(t, one) =~= item_entries(t, items[0]));
    assert(items.skip(1) =~= items.drop_first());
}

/// What tables are made and read with.
#[derive(Clone, Copy)]
pub struct BlockTableOptions {
    /// The size that a data block is closed at.
    pub block_size: usize,
    /// The number of entries after which a block stores a whole key again.
    pub block_restart_interval: usize,
    /// How the filter is made.
    pub filter_policy: BloomFilterPolicy,
}

impl Default for BlockTableOptions {
    fn default() -> (r: Self)
        ensures
            r.block_size == 4096,
            r.block_restart_interval == 16,
            r.filter_policy.millibits_per_key == 10000,
    {
        Self {
            block_size: DEFAULT_BLOCK_SIZE,
            block_restart_interval: 16,
            filter_policy: default_filter_policy(),
        }
    }
}

/// Where the index and the filter of a table lie.
#[derive(Clone, Copy)]
pub struct TableFooter {
    pub index_ptr: ItemPointer,
    pub filter_ptr: Option<ItemPointer>,
}

impl TableFooter {
    pub fn new(index_ptr: ItemPointer, filter_ptr: Option<ItemPointer>) -> (r: Self)
        ensures
            r.index_ptr == index_ptr,
            r.filter_ptr == filter_ptr,
    {
        Self { index_ptr, filter_ptr }
    }
}

/// Whether a block is closed before an entry is added to it: it would grow over the block size.
pub open spec fn block_full(
    options: BlockTableOptions,
    block: Seq<(Seq<u8>, Seq<u8>)>,
    e: (Seq<u8>, Seq<u8>),
) -> bool {
    data_block::block_len(block, options.block_restart_interval) + e.0.len() + e.1.len()
        > options.block_size
}

/// The blocks that entries fill one after the other, and the entries of the block that is still
/// open. A block is closed where the next entry would make it too large.
pub open spec fn grouped(options: BlockTableOptions, entries: Seq<(Seq<u8>, Seq<u8>)>) -> (
    Seq<Seq<(Seq<u8>, Seq<u8>)>>,
    Seq<(Seq<u8>, Seq<u8>)>,
)
    decreases entries.len(),
{
    if entries.len() == 0 {
        (Seq::empty(), Seq::empty())
    } else {
        let (done, open) = grouped(options, entries.drop_last());
        let e = entries.last();
        if open.len() > 0 && block_full(options, open, e) {
            (done.push(open), Seq::empty().push(e))
        } else {
            (done, open.push(e))
        }
    }
}

/// Blocks, with the open one closed if it has entries.
pub open spec fn closed_blocks(
    done: Seq<Seq<(Seq<u8>, Seq<u8>)>>,
    open: Seq<(Seq<u8>, Seq<u8>)>,
) -> Seq<Seq<(Seq<u8>, Seq<u8>)>> {
    if open.len() > 0 {
        done.push(open)
    } else {
        done
    }
}

/// The blocks of a table of the entries.
pub open spec fn blocks_of(options: BlockTableOptions, entries: Seq<(Seq<u8>, Seq<u8>)>) -> Seq<
    Seq<(Seq<u8>, Seq<u8>)>,
> {
    let (done, open) = grouped(options, entries);
    closed_blocks(done, open)
}

/// The number of bytes that blocks take with their checksums.
pub open spec fn blocks_len(blocks: Seq<Seq<(Seq<u8>, Seq<u8>)>>, interval: usize) -> nat
    decreases blocks.len(),
{
    if blocks.len() == 0 {
        0
    } else {
        blocks_len(blocks.drop_last(), interval) + data_block::block_len(blocks.last(), interval)
            + 4
    }
}

/// The size of a table that was built of the entries so far: its closed blocks, the block that is
/// open, and the footer.
pub open spec fn built_size(options: BlockTableOptions, entries: Seq<(Seq<u8>, Seq<u8>)>) -> nat {
    let (done, open) = grouped(options, entries);
    let interval = options.block_restart_interval;
    blocks_len(done, interval) + data_block::block_len(open, interval) + 40
}

/// Whether the filter of a table is that of all its keys. A table without entries has none.
pub open spec fn filter_of(
    t: Seq<u8>,
    entries: Seq<(Seq<u8>, Seq<u8>)>,
    millibits: nat,
) -> bool {
    match table_filter(t) {
        Some(f) => entries.len() > 0 && filter_policy::is_bloom_filter(
            f,
            key_hashes(entries),
            millibits,
        ),
        None => entries.len() == 0,
    }
}

/// A bound on the bytes that the data blocks of the entries take.
pub open spec fn data_bound(entries: Seq<(Seq<u8>, Seq<u8>)>) -> nat
    decreases entries.len(),
{
    if entries.len() == 0 {
        8
    } else {
        data_bound(entries.drop_last()) + entries.last().0.len() + entries.last().1.len() + 64
    }
}

/// A bound on the bytes that the index of the entries takes.
pub open spec fn index_bound(entries: Seq<(Seq<u8>, Seq<u8>)>) -> nat
    decreases entries.len(),
{
    if entries.len() == 0 {
        8
    } else {
        index_bound(entries.drop_last()) + entries.last().0.len() + 64
    }
}

/// Whether a table of the entries has a size that fits in a machine word, and an index whose
/// offsets fit in four bytes.
pub open spec fn table_fits(entries: Seq<(Seq<u8>, Seq<u8>)>, millibits: nat) -> bool {
    &&& data_bound(entries) + index_bound(entries) + filter_policy::bits_len(
        millibits,
        entries.len(),
    ) + 64 <= usize::MAX
    &&& index_bound(entries) <= u32::MAX
    &&& entries.len() * millibits + 511999 <= usize::MAX
}

/// Whether the offsets of a block with the entry fit in four bytes.
pub open spec fn entry_fits(block_size: nat, k: Seq<u8>, v: Seq<u8>) -> bool {
    block_size + k.len() + v.len() + 64 <= u32::MAX
}

/// The hashes of the keys of the entries.
pub open spec fn key_hashes(entries: Seq<(Seq<u8>, Seq<u8>)>) -> Seq<u64> {
    entries.map_values(|e: (Seq<u8>, Seq<u8>)| filter_policy::xx_hash64(e.0))
}

proof fn lemma_bound_concat(
    a: Seq<(Seq<u8>, Seq<u8>)>,
    b: Seq<(Seq<u8>, Seq<u8>)>,
)
    ensures
        data_bound(a + b) >= data_bound(a),
        index_bound(a + b) >= index_bound(a),
        b.len() > 0 ==> index_bound(a + b) >= index_bound(a) + b.last().0.len() + 64,
    decreases b.len(),
{
    if b.len() == 0 {
        assert(a + b =~= a);
    } else {
        assert((a + b).drop_last() =~= a + b.drop_last());
        lemma_bound_concat(a, b.drop_last());
    }
}

/// The table fits with fewer entries too.
proof fn lemma_fits_prefix(entries: Seq<(Seq<u8>, Seq<u8>)>, e: (Seq<u8>, Seq<u8>), millibits: nat)
    requires
        table_fits(entries.push(e), millibits),
    ensures
        table_fits(entries, millibits),
        data_bound(entries.push(e)) == data_bound(entries) + e.0.len() + e.1.len() + 64,
        index_bound(entries.push(e)) == index_bound(entries) + e.0.len() + 64,
{
    assert(entries.push(e).drop_last() =~= entries);
    let n = entries.len();
    assert(n * millibits <= (n + 1) * millibits) by (nonlinear_arith);
    assert(filter_policy::bits_len(millibits, n) <= filter_policy::bits_len(millibits, n + 1));
}

proof fn lemma_checked_block(
    t: Seq<u8>,
    before: Seq<u8>,
    contents: Seq<u8>,
    after: Seq<u8>,
    ptr: ItemPointer,
)
    requires
        ptr.offset == before.len(),
        ptr.length == contents.len(),
        t == before + contents + coding::le_bytes(coding::crc32(contents) as nat, 4) + after,
        t.len() <= usize::MAX,
    ensures
        checked_block(t, ptr) == Some(contents),
        ptr.offset + ptr.length + 4 <= t.len(),
{
    let crc = coding::le_bytes(coding::crc32(contents) as nat, 4);
    coding::lemma_pow256_values();
    coding::lemma_le_bytes_len(coding::crc32(contents) as nat, 4);
    coding::lemma_le_value_of_le_bytes(coding::crc32(contents) as nat, 4);
    let raw = read_span(t, ptr.offset as nat, ptr.length as nat + 4);
    assert(raw =~= contents + crc);
    assert(raw.take(ptr.length as int) =~= contents);
    assert(raw.skip(ptr.length as int) =~= crc);
}

/// A block stays where it is when bytes are appended.
proof fn lemma_block_kept(t: Seq<u8>, u: Seq<u8>, ptr: ItemPointer)
    requires
        ptr.offset + ptr.length + 4 <= t.len(),
    ensures
        checked_block(t + u, ptr) == checked_block(t, ptr),
{
    let n = ptr.length as nat + 4;
    assert(read_span(t + u, ptr.offset as nat, n) =~= read_span(t, ptr.offset as nat, n));
}

proof fn lemma_items_kept(t: Seq<u8>, u: Seq<u8>, items: Seq<(Seq<u8>, Seq<u8>)>)
    requires
        forall|i: int| 0 <= i < items.len() ==> item_ok(t, #[trigger] items[i]),
    ensures
        forall|i: int| 0 <= i < items.len() ==> item_ok(t + u, #[trigger] items[i]),
        entries_of(t + u, items) == entries_of(t, items),
    decreases items.len(),
{
    reveal(item_entries);
    reveal(entries_of);
    if items.len() > 0 {
        let init = items.drop_last();
        assert forall|i: int| 0 <= i < init.len() implies item_ok(t, #[trigger] init[i]) by {
            assert(init[i] == items[i]);
        }
        lemma_items_kept(t, u, init);
        assert(item_ok(t, items[items.len() - 1]));
        lemma_block_kept(t, u, index::pointer_value(items.last().1));
        assert forall|i: int| 0 <= i < items.len() implies item_ok(t + u, #[trigger] items[i]) by {
            if i < init.len() {
                assert(item_ok(t + u, init[i]));
            }
        }
    }
}

/// The blocks hold the same entries when bytes are appended.
proof fn lemma_groups_kept(t: Seq<u8>, u: Seq<u8>, items: Seq<(Seq<u8>, Seq<u8>)>)
    requires
        forall|i: int| 0 <= i < items.len() ==> item_ok(t, #[trigger] items[i]),
    ensures
        item_groups(t + u, items) == item_groups(t, items),
{
    assert forall|i: int| 0 <= i < items.len() implies item_entries(t + u, items[i])
        == item_entries(t, items[i]) by {
        reveal(item_entries);
        assert(item_ok(t, items[i]));
        lemma_block_kept(t, u, index::pointer_value(items[i].1));
    }
    assert(item_groups(t + u, items) =~= item_groups(t, items));
}

/// A block that is appended and added to the index holds the entries after the others.
proof fn lemma_flushed(
    t0: Seq<u8>,
    t1: Seq<u8>,
    items0: Seq<(Seq<u8>, Seq<u8>)>,
    buf: Seq<u8>,
    ptr: ItemPointer,
    k: Seq<u8>,
)
    requires
        forall|i: int| 0 <= i < items0.len() ==> item_ok(t0, #[trigger] items0[i]),
        offsets_differ(items0),
        data_block::well_formed_block(buf),
        data_block::block_entries(buf).len() > 0,
        data_block::block_entries(buf).last().0 == k,
        ptr.offset == t0.len(),
        ptr.length == buf.len(),
        t1 == t0 + (buf + coding::le_bytes(coding::crc32(buf) as nat, 4)),
        t1.len() <= usize::MAX,
    ensures
        ({
            let items1 = items0.push((k, index::pointer_bytes(ptr)));
            &&& forall|i: int| 0 <= i < items1.len() ==> item_ok(t1, #[trigger] items1[i])
            &&& offsets_differ(items1)
            &&& entries_of(t1, items1) == entries_of(t0, items0) + data_block::block_entries(buf)
            &&& item_groups(t1, items1) == item_groups(t0, items0).push(
                data_block::block_entries(buf),
            )
        }),
{
    reveal(item_entries);
    reveal(entries_of);
    let crc = coding::le_bytes(coding::crc32(buf) as nat, 4);
    let u = buf + crc;
    let item = (k, index::pointer_bytes(ptr));
    let items1 = items0.push(item);
    lemma_items_kept(t0, u, items0);
    index::lemma_pointer_round_trip(ptr);
    assert(t1 =~= t0 + buf + crc + Seq::<u8>::empty());
    lemma_checked_block(t1, t0, buf, Seq::empty(), ptr);
    assert(item_ok(t1, item));
    assert forall|i: int| 0 <= i < items1.len() implies item_ok(t1, #[trigger] items1[i]) by {
        if i < items0.len() {
            assert(items1[i] == items0[i]);
        }
    }
    assert forall|i: int, j: int| 0 <= i < j < items1.len() implies index::pointer_value(
        (#[trigger] items1[i]).1,
    ).offset != index::pointer_value((#[trigger] items1[j]).1).offset by {
        assert(items1[i] == items0[i]);
        assert(item_ok(t0, items0[i]));
        if j < items0.len() {
            assert(items1[j] == items0[j]);
        }
    }
    assert(items1.drop_last() =~= items0);
    lemma_groups_kept(t0, u, items0);
    assert forall|i: int| 0 <= i < items0.len() implies item_entries(t1, items1[i])
        == item_entries(t0, items0[i]) by {
        assert(item_groups(t1, items0)[i] == item_groups(t0, items0)[i]);
    }
    assert(item_groups(t1, items1) =~= item_groups(t0, items0).push(
        data_block::block_entries(buf),
    ));
}

/// The parts of a footer are read back as they were written.
proof fn lemma_footer(index_ptr: ItemPointer, filter_ptr: ItemPointer)
    ensures
        ({
            let f = footer_bytes(index_ptr, filter_ptr);
            &&& f.len() == 40
            &&& footer_intact(f)
            &&& footer_magic(f)
            &&& footer_index(f) == index_ptr
            &&& footer_filter(f) == if filter_ptr.length > 0 {
                Some(filter_ptr)
            } else {
                None
            }
        }),
{
    let f = footer_bytes(index_ptr, filter_ptr);
    let body = footer_body(index_ptr, filter_ptr);
    let crc = coding::crc32(body) as nat;
    coding::lemma_pow256_values();
    coding::lemma_le_bytes_len(0xb10cba5e, 4);
    coding::lemma_le_bytes_len(index_ptr.offset as nat, 8);
    coding::lemma_le_bytes_len(index_ptr.length as nat, 8);
    coding::lemma_le_bytes_len(filter_ptr.offset as nat, 8);
    coding::lemma_le_bytes_len(filter_ptr.length as nat, 8);
    coding::lemma_le_bytes_len(crc, 4);
    coding::lemma_le_value_of_le_bytes(0xb10cba5e, 4);
    coding::lemma_le_value_of_le_bytes(index_ptr.offset as nat, 8);
    coding::lemma_le_value_of_le_bytes(index_ptr.length as nat, 8);
    coding::lemma_le_value_of_le_bytes(filter_ptr.offset as nat, 8);
    coding::lemma_le_value_of_le_bytes(filter_ptr.length as nat, 8);
    coding::lemma_le_value_of_le_bytes(crc, 4);
    assert(f.take(36) =~= body);
    assert(f.subrange(36, 40) =~= coding::le_bytes(crc, 4));
    assert(f.take(4) =~= coding::le_bytes(0xb10cba5e, 4));
    assert(f.subrange(4, 12) =~= coding::le_bytes(index_ptr.offset as nat, 8));
    assert(f.subrange(12, 20) =~= coding::le_bytes(index_ptr.length as nat, 8));
    assert(f.subrange(20, 28) =~= coding::le_bytes(filter_ptr.offset as nat, 8));
    assert(f.subrange(28, 36) =~= coding::le_bytes(filter_ptr.length as nat, 8));
}

/// Builds a table in memory; what was built can be taken out piece by piece.
pub struct BlockTableBuilder {
    options: BlockTableOptions,
    block_builder: DataBlockBuilder,
    index_builder: BinarySearchIndexBuilder,
    filter_builder: FullFilterBlockBuilder,
    out: Vec<u8>,
    out_offset: usize,
    last_key: Option<Vec<u8>>,
    taken: Ghost<Seq<u8>>,
    added: Ghost<Seq<(Seq<u8>, Seq<u8>)>>,
}

impl BlockTableBuilder {
    /// The options of the table.
    pub closed spec fn table_options(self) -> BlockTableOptions {
        self.options
    }

    /// The bytes that were not taken out yet.
    pub closed spec fn pending(self) -> Seq<u8> {
        self.out@
    }

    /// The bytes that were taken out.
    pub closed spec fn taken_out(self) -> Seq<u8> {
        self.taken@
    }

    /// All bytes were taken out or are still to be taken out.
    pub proof fn lemma_output(self)
        ensures
            self.output() == self.taken_out() + self.pending(),
    {
    }

    /// The size so far depends on the entries and the options alone.
    pub proof fn lemma_size(self)
        requires
            self.open(),
        ensures
            self.size() == built_size(self.table_options(), self.entries()),
    {
        self.block_builder.lemma_block_len();
    }

    /// The bits per key of the filter, in thousandths.
    pub open spec fn millibits(self) -> nat {
        self.table_options().filter_policy.millibits_per_key as nat
    }

    closed spec fn written(self) -> Seq<u8> {
        self.taken@ + self.out@
    }

    /// What every operation keeps: the entries stand in the blocks that they fill.
    closed spec fn inv(self) -> bool {
        &&& self.parts_ok()
        &&& (self.groups(), self.block_builder.entries()) == grouped(self.options, self.added@)
    }

    /// The entries of the blocks that were written.
    closed spec fn groups(self) -> Seq<Seq<(Seq<u8>, Seq<u8>)>> {
        item_groups(self.written(), self.index_builder.items())
    }

    /// The finished blocks lie where the index says, and together with the open block they hold
    /// the entries.
    closed spec fn parts_ok(self) -> bool {
        let t = self.written();
        let items = self.index_builder.items();
        &&& self.block_builder.wf()
        &&& self.block_builder.interval() == self.options.block_restart_interval
        &&& t.len() == blocks_len(self.groups(), self.options.block_restart_interval)
        &&& self.index_builder.open()
        &&& self.filter_builder.open()
        &&& self.filter_builder.hashes() == key_hashes(self.added@)
        &&& self.filter_builder.millibits() == self.millibits()
        &&& self.out_offset == t.len()
        &&& forall|i: int| 0 <= i < items.len() ==> item_ok(t, #[trigger] items[i])
        &&& offsets_differ(items)
        &&& self.added@ == entries_of(t, items) + self.block_builder.entries()
        &&& match self.last_key {
            Some(k) => self.added@.len() > 0 && self.added@.last().0 == k@,
            None => self.added@.len() == 0,
        }
        &&& t.len() + self.block_builder.sealed_len() + (if self.block_builder.entries().len()
            > 0 {
            12nat
        } else {
            0
        }) <= data_bound(self.added@)
        &&& self.index_builder.sealed_len() <= index_bound(entries_of(t, items))
        &&& self.block_builder.sealed_len() <= u32::MAX
        &&& table_fits(self.added@, self.millibits())
    }

    pub fn new(options: BlockTableOptions) -> (r: Self)
        ensures
            r.open(),
            r.table_options() == options,
            r.entries() == Seq::<(Seq<u8>, Seq<u8>)>::empty(),
            r.output() == Seq::<u8>::empty(),
            r.pending() == Seq::<u8>::empty(),
            r.taken_out() == Seq::<u8>::empty(),
    {
        let restart_interval = options.block_restart_interval;
        let r = Self {
            options,
            block_builder: DataBlockBuilder::new(restart_interval),
            index_builder: BinarySearchIndexBuilder::new(restart_interval),
            filter_builder: create_filter_block_builder(&options),
            out: Vec::new(),
            out_offset: 0,
            last_key: None,
            taken: Ghost(Seq::empty()),
            added: Ghost(Seq::empty()),
        };
        proof {
            assert(r.written() =~= Seq::<u8>::empty());
            reveal(entries_of);
            assert(0 * r.millibits() == 0);
            assert(key_hashes(r.added@) =~= Seq::<u64>::empty());
            assert(r.added@ =~= entries_of(r.written(), r.index_builder.items())
                + r.block_builder.entries());
            assert(r.groups() =~= Seq::<Seq<(Seq<u8>, Seq<u8>)>>::empty());
        }
        r
    }

    /// Takes out the bytes that were built since the last time.
    pub fn take_output(&mut self) -> (r: Vec<u8>)
        ensures
            r@ == old(self).pending(),
            final(self).pending() == Seq::<u8>::empty(),
            final(self).output() == old(self).output(),
            final(self).entries() == old(self).entries(),
            final(self).table_options() == old(self).table_options(),
            old(self).open() ==> final(self).open(),
    {
        let mut out: Vec<u8> = Vec::new();
        std::mem::swap(&mut out, &mut self.out);
        self.taken = Ghost(self.taken@ + out@);
        proof {
            assert(self.written() =~= old(self).written());
        }
        out
    }

    fn need_flush(&self, key: &[u8], value: &[u8]) -> (r: bool)
        requires
            self.parts_ok(),
            entry_fits(self.options.block_size as nat, key@, value@),
            table_fits(self.added@.push((key@, value@)), self.millibits()),
        ensures
            r == block_full(self.options, self.block_builder.entries(), (key@, value@)),
    {
        proof {
            self.block_builder.lemma_block_len();
            lemma_fits_prefix(self.added@, (key@, value@), self.millibits());
        }
        let cur_len = self.block_builder.full_len();
        cur_len + key.len() + value.len() > self.options.block_size
    }

    /// Writes a block and its checksum.
    fn write_block(&mut self, buf: &[u8]) -> (r: ItemPointer)
        requires
            old(self).out_offset == old(self).written().len(),
            old(self).written().len() + buf@.len() + 4 <= usize::MAX,
        ensures
            final(self).out_offset == final(self).written().len(),
            final(self).written() == old(self).written() + buf@ + coding::le_bytes(
                coding::crc32(buf@) as nat,
                4,
            ),
            final(self).written().len() == old(self).written().len() + buf@.len() + 4,
            r.offset == old(self).written().len(),
            r.length == buf@.len(),
            final(self).options == old(self).options,
            final(self).taken == old(self).taken,
            final(self).block_builder == old(self).block_builder,
            final(self).index_builder == old(self).index_builder,
            final(self).filter_builder == old(self).filter_builder,
            final(self).last_key == old(self).last_key,
            final(self).added == old(self).added,
    {
        let crc = checksum(buf);
        let offset = self.out_offset;
        let length = buf.len();
        self.out.extend_from_slice(buf);
        self.out_offset = self.out_offset + buf.len();
        write_u32_le(&mut self.out, crc);
        self.out_offset = self.out_offset + 4;
        proof {
            coding::lemma_le_bytes_len(crc as nat, 4);
            assert(self.written() =~= old(self).written() + buf@ + coding::le_bytes(
                crc as nat,
                4,
            ));
        }
        ItemPointer { offset: offset as u64, length: length as u64 }
    }

    /// Writes the open block, if it has entries, and adds it to the index.
    #[verifier::rlimit(60)]
    fn flush(&mut self) -> (r: Option<ItemPointer>)
        requires
            old(self).parts_ok(),
        ensures
            final(self).parts_ok(),
            final(self).options == old(self).options,
            final(self).taken == old(self).taken,
            final(self).added == old(self).added,
            final(self).block_builder.entries() == Seq::<(Seq<u8>, Seq<u8>)>::empty(),
            final(self).block_builder.sealed_len() == 8,
            r is Some == (old(self).block_builder.entries().len() > 0),
            final(self).groups() == closed_blocks(
                old(self).groups(),
                old(self).block_builder.entries(),
            ),
            final(self).written().len() + 8 >= old(self).written().len()
                + old(self).block_builder.sealed_len(),
    {
        let ghost t0 = self.written();
        let ghost items0 = self.index_builder.items();
        let ghost block_entries = self.block_builder.entries();
        let ghost groups0 = self.groups();
        if self.block_builder.empty() {
            proof {
                assert(block_entries =~= Seq::<(Seq<u8>, Seq<u8>)>::empty());
            }
            return None;
        }
        proof {
            self.block_builder.lemma_block_len();
            assert(self.added@.last() == block_entries.last());
        }
        let ghost len0 = self.block_builder.sealed_len();
        let buf = self.block_builder.seal();
        self.block_builder.reset();
        let ptr = self.write_block(buf.as_slice());
        match &self.last_key {
            Some(last_key) => {
                let _ = self.index_builder.add_item(last_key.as_slice(), &ptr);
            },
            None => {},
        }
        proof {
            let t1 = self.written();
            let k = self.last_key.unwrap()@;
            assert(t1 =~= t0 + (buf@ + coding::le_bytes(coding::crc32(buf@) as nat, 4)));
            lemma_flushed(t0, t1, items0, buf@, ptr, k);
            assert(block_entries == data_block::block_entries(buf@));
            let items1 = self.index_builder.items();
            lemma_bound_concat(entries_of(t0, items0), block_entries);
            assert(self.block_builder.entries() =~= Seq::empty());
            assert(self.added@ =~= entries_of(t1, items1) + self.block_builder.entries());
            assert(self.index_builder.sealed_len() <= index_bound(entries_of(t1, items1)));
            assert(self.groups() == groups0.push(block_entries));
            assert(groups0.push(block_entries).drop_last() =~= groups0);
        }
        Some(ptr)
    }

    fn write_toc(&mut self, footer: &TableFooter)
        requires
            old(self).out_offset == old(self).written().len(),
            old(self).written().len() + 40 <= usize::MAX,
        ensures
            final(self).written() == old(self).written() + footer_bytes(
                footer.index_ptr,
                match footer.filter_ptr {
                    Some(p) => p,
                    None => ItemPointer { offset: 0, length: 0 },
                },
            ),
            final(self).out_offset == final(self).written().len(),
            final(self).options == old(self).options,
            final(self).taken == old(self).taken,
    {
        let mut toc: Vec<u8> = Vec::new();
        write_u32_le(&mut toc, BLOCK_TABLE_MAGIC_NUMBER);
        write_u64_le(&mut toc, footer.index_ptr.offset);
        write_u64_le(&mut toc, footer.index_ptr.length);
        match footer.filter_ptr {
            Some(filter_ptr) => {
                write_u64_le(&mut toc, filter_ptr.offset);
                write_u64_le(&mut toc, filter_ptr.length);
            },
            None => {
                write_u64_le(&mut toc, 0);
                write_u64_le(&mut toc, 0);
            },
        }
        let ghost fp = match footer.filter_ptr {
            Some(p) => p,
            None => ItemPointer { offset: 0, length: 0 },
        };
        proof {
            assert(toc@ =~= footer_body(footer.index_ptr, fp));
            lemma_footer(footer.index_ptr, fp);
        }
        let crc = checksum(toc.as_slice());
        write_u32_le(&mut toc, crc);
        proof {
            assert(toc@ =~= footer_bytes(footer.index_ptr, fp));
        }
        self.out.extend_from_slice(toc.as_slice());
        self.out_offset = self.out_offset + toc.len();
        proof {
            assert(self.written() =~= old(self).written() + toc@);
        }
    }

    fn add_raw(&mut self, key: &[u8], value: &[u8])
        requires
            old(self).inv(),
            entry_fits(old(self).options.block_size as nat, key@, value@),
            table_fits(old(self).added@.push((key@, value@)), old(self).millibits()),
        ensures
            final(self).inv(),
            final(self).options == old(self).options,
            final(self).taken == old(self).taken,
            final(self).added@ == old(self).added@.push((key@, value@)),
    {
        let ghost e = (key@, value@);
        let ghost added0 = self.added@;
        proof {
            lemma_fits_prefix(added0, e, self.millibits());
            self.block_builder.lemma_block_len();
        }
        if self.need_flush(key, value) {
            let _ = self.flush();
            self.filter_builder.start_block(self.out_offset);
        }
        proof {
            assert(self.filter_builder.hashes().len() == added0.len());
            assert(added0.len() < usize::MAX) by {
                lemma_bound_len(added0.push(e));
            }
        }
        let ghost block0 = self.block_builder.entries();
        let ghost groups0 = self.groups();
        let _ = self.filter_builder.add(key);
        let _ = self.block_builder.add(key, value);
        self.added = Ghost(self.added@.push(e));
        self.last_key = Some(slice_to_vec(key));
        proof {
            assert(key_hashes(added0.push(e)) =~= key_hashes(added0).push(
                filter_policy::xx_hash64(key@),
            ));
            let items = self.index_builder.items();
            assert(self.added@ =~= entries_of(self.written(), items) + block0.push(e));
            assert(self.added@.drop_last() =~= added0);
            assert(self.added@.last() == e);
            assert(self.groups() == groups0);
            assert(self.block_builder.entries() == block0.push(e));
            let (done, open) = grouped(self.options, added0);
            if open.len() == 0 {
                assert(open =~= Seq::<(Seq<u8>, Seq<u8>)>::empty());
            }
            assert((groups0, block0.push(e)) == grouped(self.options, self.added@));
        }
    }
}

proof fn lemma_bound_len(entries: Seq<(Seq<u8>, Seq<u8>)>)
    ensures
        data_bound(entries) >= entries.len() * 64,
    decreases entries.len(),
{
    if entries.len() > 0 {
        lemma_bound_len(entries.drop_last());
    }
}

impl TableBuilder for BlockTableBuilder {
    closed spec fn entries(&self) -> Seq<(Seq<u8>, Seq<u8>)> {
        self.added@
    }

    closed spec fn open(&self) -> bool {
        self.inv()
    }

    open spec fn fits(&self, key: Seq<u8>, value: Seq<u8>) -> bool {
        &&& entry_fits(self.table_options().block_size as nat, key, value)
        &&& table_fits(self.entries().push((key, value)), self.millibits())
    }

    closed spec fn size(&self) -> nat {
        self.written().len() + self.block_builder.sealed_len() + 40
    }

    /// The entries stand in the blocks that they fill, and the filter is that of all keys. A table
    /// without filter bits can be walked over but not searched.
    open spec fn holds(&self, t: Seq<u8>, entries: Seq<(Seq<u8>, Seq<u8>)>) -> bool {
        &&& has_blocks(t)
        &&& table_entries(t) == entries
        &&& table_blocks(t) == blocks_of(self.table_options(), entries)
        &&& filter_of(t, entries, self.millibits())
        &&& self.millibits() > 0 ==> is_table(t)
    }

    closed spec fn output(&self) -> Seq<u8> {
        self.written()
    }

    fn size_hint(&self) -> (r: usize) {
        let mut size = self.out_offset;
        size = size + self.block_builder.full_len();
        size = size + TABLE_FOOTER_LENGTH;
        size
    }

    fn add(&mut self, key: &[u8], value: &[u8]) -> (r: Result<(), Error>)
        ensures
            final(self).table_options() == old(self).table_options(),
            final(self).taken_out() == old(self).taken_out(),
    {
        self.add_raw(key, value);
        Ok(())
    }

    #[verifier::rlimit(60)]
    fn finish(&mut self) -> (r: Result<(), Error>)
        ensures
            final(self).table_options() == old(self).table_options(),
            final(self).taken_out() == old(self).taken_out(),
            final(self).output().len() >= old(self).size(),
    {
        let ghost added = self.added@;
        let _ = self.flush();
        let ghost t1 = self.written();
        let ghost items = self.index_builder.items();
        proof {
            assert(self.block_builder.entries() =~= Seq::empty());
            assert(added =~= entries_of(t1, items));
            assert(self.filter_builder.hashes().len() == added.len());
            assert(self.filter_builder.fits(added.len()));
        }
        let ghost index_len = self.index_builder.sealed_len();
        let filter_block = self.filter_builder.seal();
        proof {
            assert(added.len() > 0 ==> filter_policy::is_bloom_filter(
                filter_block@,
                key_hashes(added),
                self.millibits(),
            ));
            assert(filter_block@.len() <= filter_policy::bits_len(self.millibits(), added.len()) + 1);
            assert(t1.len() + filter_block@.len() + index_len + 56 <= usize::MAX);
        }
        let filter_ptr = self.write_block(filter_block.as_slice());
        let ghost t2 = self.written();
        let index_block = self.index_builder.seal();
        self.index_builder.reset();
        let index_ptr = self.write_block(index_block.as_slice());
        let ghost t3 = self.written();
        let footer = TableFooter::new(index_ptr, Some(filter_ptr));
        self.write_toc(&footer);
        proof {
            lemma_footer(index_ptr, filter_ptr);
            let t = self.written();
            assert(t == t1 + filter_block@ + coding::le_bytes(
                coding::crc32(filter_block@) as nat,
                4,
            ) + index_block@ + coding::le_bytes(coding::crc32(index_block@) as nat, 4)
                + footer_bytes(index_ptr, filter_ptr));
            lemma_finished(
                t,
                t1,
                items,
                filter_block@,
                index_block@,
                filter_ptr,
                index_ptr,
                self.millibits(),
            );
        }
        Ok(())
    }
}

/// Blocks, filter, index and footer, one after the other, are a table of the entries.
proof fn lemma_finished(
    t: Seq<u8>,
    t1: Seq<u8>,
    items: Seq<(Seq<u8>, Seq<u8>)>,
    f: Seq<u8>,
    x: Seq<u8>,
    filter_ptr: ItemPointer,
    index_ptr: ItemPointer,
    millibits: nat,
)
    requires
        forall|i: int| 0 <= i < items.len() ==> item_ok(t1, #[trigger] items[i]),
        offsets_differ(items),
        data_block::well_formed_block(x),
        data_block::block_entries(x) == items,
        entries_of(t1, items).len() > 0 ==> filter_policy::is_bloom_filter(
            f,
            key_hashes(entries_of(t1, items)),
            millibits,
        ),
        entries_of(t1, items).len() == 0 ==> f.len() == 0,
        filter_ptr.offset == t1.len(),
        filter_ptr.length == f.len(),
        index_ptr.offset == t1.len() + f.len() + 4,
        index_ptr.length == x.len(),
        t == t1 + f + coding::le_bytes(coding::crc32(f) as nat, 4) + x + coding::le_bytes(
            coding::crc32(x) as nat,
            4,
        ) + footer_bytes(index_ptr, filter_ptr),
        t.len() <= usize::MAX,
    ensures
        has_blocks(t),
        table_entries(t) == entries_of(t1, items),
        table_blocks(t) == item_groups(t1, items),
        filter_of(t, entries_of(t1, items), millibits),
        millibits > 0 ==> is_table(t),
{
    let fc = coding::le_bytes(coding::crc32(f) as nat, 4);
    let xc = coding::le_bytes(coding::crc32(x) as nat, 4);
    let ft = footer_bytes(index_ptr, filter_ptr);
    let entries = entries_of(t1, items);
    coding::lemma_le_bytes_len(coding::crc32(f) as nat, 4);
    coding::lemma_le_bytes_len(coding::crc32(x) as nat, 4);
    lemma_footer(index_ptr, filter_ptr);
    assert(footer_of(t, t.len()) =~= ft);
    assert(t =~= t1 + f + fc + (x + xc + ft));
    lemma_checked_block(t, t1, f, x + xc + ft, filter_ptr);
    assert(t =~= (t1 + f + fc) + x + xc + ft);
    lemma_checked_block(t, t1 + f + fc, x, ft, index_ptr);
    let u = f + fc + x + xc + ft;
    assert(t =~= t1 + u);
    lemma_items_kept(t1, u, items);
    lemma_groups_kept(t1, u, items);
    if entries.len() > 0 && millibits > 0 {
        let hashes = key_hashes(entries);
        assert forall|i: int| 0 <= i < entries.len() implies filter_policy::filter_matches(
            f,
            filter_policy::xx_hash64(#[trigger] entries[i].0),
        ) by {
            filter_policy::lemma_no_false_negatives(f, hashes, millibits, i);
            assert(hashes[i] == filter_policy::xx_hash64(entries[i].0));
        }
        filter_policy::lemma_no_false_negatives(f, hashes, millibits, 0);
    }
}

/// The bytes of an optional value.
pub open spec fn value_bytes(v: Option<Vec<u8>>) -> Option<Seq<u8>> {
    match v {
        Some(v) => Some(v@),
        None => None,
    }
}

/// Whether an item's block holds consecutive entries of the table.
proof fn lemma_item_entries(t: Seq<u8>, items: Seq<(Seq<u8>, Seq<u8>)>, i: int)
    requires
        0 <= i < items.len(),
    ensures
        entries_of(t, items) == entries_of(t, items.take(i)) + item_entries(t, items[i]) + entries_of(t, items.skip(i + 1)),
{
    lemma_entries_split(t, items, i);
    lemma_entries_first(t, items.skip(i));
    assert(items.skip(i)[0] == items[i]);
    assert(items.skip(i).drop_first() =~= items.skip(i + 1));
    let a = entries_of(t, items.take(i));
    let b = item_entries(t, items[i]);
    let c = entries_of(t, items.skip(i + 1));
    assert(a + (b + c) =~= a + b + c);
}

proof fn lemma_items_valid<O: KeyOrder>(t: Seq<u8>, items: Seq<(Seq<u8>, Seq<u8>)>)
    requires
        forall|i: int| 0 <= i < items.len() ==> item_ok(t, #[trigger] items[i]),
        key::keys_valid::<O>(entries_of(t, items)),
    ensures
        key::keys_valid::<O>(items),
        forall|i: int|
            0 <= i < items.len() ==> key::keys_valid::<O>(
                item_entries(t, #[trigger] items[i]),
            ),
{
    let es = entries_of(t, items);
    assert forall|i: int| 0 <= i < items.len() implies O::valid(#[trigger] items[i].0)
        && key::keys_valid::<O>(item_entries(t, items[i])) by {
        lemma_item_entries(t, items, i);
        assert(item_ok(t, items[i]));
        let a = entries_of(t, items.take(i));
        let b = item_entries(t, items[i]);
        assert forall|j: int| 0 <= j < b.len() implies O::valid(#[trigger] b[j].0) by {
            assert(es[a.len() + j] == b[j]);
        }
        assert(b.last() == b[b.len() - 1]);
    }
}

proof fn lemma_no_items(t: Seq<u8>, items: Seq<(Seq<u8>, Seq<u8>)>)
    requires
        items.len() == 0,
    ensures
        entries_of(t, items) == Seq::<(Seq<u8>, Seq<u8>)>::empty(),
{
    reveal(entries_of);
}

/// The last keys of two blocks stand in the order of the blocks.
proof fn lemma_last_keys<O: KeyOrder>(
    t: Seq<u8>,
    items: Seq<(Seq<u8>, Seq<u8>)>,
    i: int,
    j: int,
)
    requires
        0 <= i < j < items.len(),
        item_ok(t, items[i]),
        item_ok(t, items[j]),
        key::ascending::<O>(entries_of(t, items)),
    ensures
        O::lt(items[i].0, items[j].0),
{
    let es = entries_of(t, items);
    let ai = entries_of(t, items.take(i));
    let bi = item_entries(t, items[i]);
    let aj = entries_of(t, items.take(j));
    let bj = item_entries(t, items[j]);
    lemma_item_entries(t, items, i);
    lemma_item_entries(t, items, j);
    lemma_item_entries(t, items.take(j), i);
    assert(items.take(j).take(i) =~= items.take(i));
    assert(items.take(j)[i] == items[i]);
    let p = ai.len() + bi.len() - 1;
    let q = aj.len() + bj.len() - 1;
    assert(es[p] == bi.last());
    assert(es[q] == bj.last());
    assert(O::lt(es[p].0, es[q].0));
}

proof fn lemma_block_ascending<O: KeyOrder>(t: Seq<u8>, items: Seq<(Seq<u8>, Seq<u8>)>, i: int)
    requires
        0 <= i < items.len(),
        key::ascending::<O>(entries_of(t, items)),
    ensures
        key::ascending::<O>(item_entries(t, items[i])),
{
    let es = entries_of(t, items);
    lemma_item_entries(t, items, i);
    let a = entries_of(t, items.take(i));
    let b = item_entries(t, items[i]);
    assert forall|x: int, y: int| 0 <= x < y < b.len() implies O::lt(
        #[trigger] b[x].0,
        #[trigger] b[y].0,
    ) by {
        assert(es[a.len() + x] == b[x]);
        assert(es[a.len() + y] == b[y]);
        assert(O::lt(es[a.len() + x].0, es[a.len() + y].0));
    }
}

/// Ascending entries give an ascending index.
proof fn lemma_items_ascending<O: KeyOrder>(t: Seq<u8>, items: Seq<(Seq<u8>, Seq<u8>)>)
    requires
        forall|i: int| 0 <= i < items.len() ==> item_ok(t, #[trigger] items[i]),
        key::ascending::<O>(entries_of(t, items)),
    ensures
        key::ascending::<O>(items),
{
    assert forall|i: int, j: int| 0 <= i < j < items.len() implies O::lt(
        #[trigger] items[i].0,
        #[trigger] items[j].0,
    ) by {
        lemma_last_keys::<O>(t, items, i, j);
    }
}

proof fn lemma_lower_bound_facts<O: KeyOrder>(entries: Seq<(Seq<u8>, Seq<u8>)>, k: Seq<u8>)
    ensures
        data_block::lower_bound::<O>(entries, k) <= entries.len(),
        forall|i: int|
            0 <= i < data_block::lower_bound::<O>(entries, k) ==> O::lt(#[trigger] entries[i].0, k),
        data_block::lower_bound::<O>(entries, k) < entries.len() ==> !O::lt(
            entries[data_block::lower_bound::<O>(entries, k) as int].0,
            k,
        ),
    decreases entries.len(),
{
    if entries.len() > 0 && O::lt(entries[0].0, k) {
        let rest = entries.drop_first();
        lemma_lower_bound_facts::<O>(rest, k);
        assert forall|i: int| 0 <= i < data_block::lower_bound::<O>(entries, k) implies O::lt(
            #[trigger] entries[i].0,
            k,
        ) by {
            if i > 0 {
                assert(entries[i] == rest[i - 1]);
            }
        }
    }
}

/// The keys before the block where a search ends are less than the key.
proof fn lemma_before<O: KeyOrder>(t: Seq<u8>, items: Seq<(Seq<u8>, Seq<u8>)>, n: int, k: Seq<u8>)
    requires
        0 < n <= items.len(),
        item_ok(t, items[n - 1]),
        key::keys_valid::<O>(entries_of(t, items)),
        key::ascending::<O>(entries_of(t, items)),
        O::valid(k),
        O::lt(items[n - 1].0, k),
    ensures
        table::lookup(entries_of(t, items.take(n)), k) is None,
{
    let es = entries_of(t, items);
    let first = items.take(n);
    let a = entries_of(t, first);
    let b = item_entries(t, items[n - 1]);
    lemma_entries_split(t, items, n);
    lemma_item_entries(t, first, n - 1);
    assert(first[n - 1] == items[n - 1]);
    lemma_no_items(t, first.skip(n));
    assert(a.last() == b.last());
    let last = a.len() - 1;
    assert(es[last] == a[last]);
    assert(O::valid(es[last].0));
    O::irreflexive(k);
    assert forall|i: int| 0 <= i < a.len() implies (#[trigger] a[i]).0 != k by {
        assert(es[i] == a[i]);
        assert(O::valid(es[i].0));
        if i < last {
            assert(O::lt(es[i].0, es[last].0));
            O::transitive(es[i].0, es[last].0, k);
        }
    }
    table::lemma_lookup_none(a, k);
}

/// What a search finds in the block where it ends.
proof fn lemma_in_block<O: KeyOrder>(b: Seq<(Seq<u8>, Seq<u8>)>, k: Seq<u8>)
    requires
        key::ascending::<O>(b),
        key::keys_valid::<O>(b),
        O::valid(k),
        b.len() > 0,
        !O::lt(b.last().0, k),
    ensures
        ({
            let m = data_block::lower_bound::<O>(b, k);
            &&& m < b.len()
            &&& !O::lt(b[m as int].0, k)
            &&& table::lookup(b, k) == if b[m as int].0 == k {
                Some(b[m as int].1)
            } else {
                None
            }
        }),
{
    lemma_lower_bound_facts::<O>(b, k);
    let m = data_block::lower_bound::<O>(b, k) as int;
    if m == b.len() {
        assert(O::lt(b[b.len() - 1].0, k));
    }
    O::irreflexive(k);
    assert forall|i: int| 0 <= i < m implies (#[trigger] b[i]).0 != k by {
        assert(O::lt(b[i].0, k));
    }
    if b[m].0 == k {
        table::lemma_lookup_at(b, k, m);
    } else {
        assert forall|i: int| 0 <= i < b.len() implies (#[trigger] b[i]).0 != k by {
            if i > m {
                assert(O::lt(b[m].0, b[i].0));
            }
        }
        table::lemma_lookup_none(b, k);
    }
}

/// The keys after the block where a search ends are greater than the key.
proof fn lemma_after<O: KeyOrder>(t: Seq<u8>, items: Seq<(Seq<u8>, Seq<u8>)>, n: int, k: Seq<u8>)
    requires
        0 <= n < items.len(),
        item_ok(t, items[n]),
        key::keys_valid::<O>(entries_of(t, items)),
        key::ascending::<O>(entries_of(t, items)),
        O::valid(k),
        !O::lt(items[n].0, k),
    ensures
        table::lookup(entries_of(t, items.skip(n + 1)), k) is None,
{
    let es = entries_of(t, items);
    let a = entries_of(t, items.take(n));
    let b = item_entries(t, items[n]);
    let c = entries_of(t, items.skip(n + 1));
    lemma_item_entries(t, items, n);
    let last = a.len() + b.len() - 1;
    assert(es[last] == b.last());
    assert forall|i: int| 0 <= i < c.len() implies (#[trigger] c[i]).0 != k by {
        let q = a.len() + b.len() + i;
        assert(es[q] == c[i]);
        assert(O::lt(es[last].0, es[q].0));
    }
    table::lemma_lookup_none(c, k);
}

/// Where the search for a key ends up, and what is found there.
proof fn lemma_search<O: KeyOrder>(t: Seq<u8>, items: Seq<(Seq<u8>, Seq<u8>)>, k: Seq<u8>)
    requires
        forall|i: int| 0 <= i < items.len() ==> item_ok(t, #[trigger] items[i]),
        key::keys_valid::<O>(entries_of(t, items)),
        key::ascending::<O>(entries_of(t, items)),
        findable::<O>(entries_of(t, items), k),
        O::valid(k),
    ensures
        ({
            let n = data_block::lower_bound::<O>(items, k);
            if n < items.len() {
                let b = item_entries(t, items[n as int]);
                let m = data_block::lower_bound::<O>(b, k);
                &&& m < b.len()
                &&& items[n as int].0.len() > 0
                &&& b[m as int].0.len() > 0
                &&& table::lookup(entries_of(t, items), k) == if b[m as int].0 == k {
                    Some(b[m as int].1)
                } else {
                    None
                }
            } else {
                table::lookup(entries_of(t, items), k) is None
            }
        }),
{
    let es = entries_of(t, items);
    let n = data_block::lower_bound::<O>(items, k) as int;
    lemma_items_valid::<O>(t, items);
    lemma_lower_bound_facts::<O>(items, k);
    lemma_entries_split(t, items, n);
    let a = entries_of(t, items.take(n));
    if n == 0 {
        lemma_no_items(t, items.take(n));
    } else {
        assert(item_ok(t, items[n - 1]));
        lemma_before::<O>(t, items, n, k);
    }
    if n == items.len() {
        lemma_no_items(t, items.skip(n));
        table::lemma_lookup_concat(a, entries_of(t, items.skip(n)), k);
    } else {
        assert(item_ok(t, items[n]));
        lemma_item_entries(t, items, n);
        lemma_block_ascending::<O>(t, items, n);
        lemma_after::<O>(t, items, n, k);
        let b = item_entries(t, items[n]);
        let c = entries_of(t, items.skip(n + 1));
        lemma_in_block::<O>(b, k);
        table::lemma_lookup_concat(a + b, c, k);
        table::lemma_lookup_concat(a, b, k);
        let m = data_block::lower_bound::<O>(b, k) as int;
        assert(es[a.len() + m] == b[m]);
        assert(es[a.len() + b.len() - 1] == b.last());
    }
}

/// Whether two states of a cache differ only in entries of one user and in entries that left.
pub open spec fn others_kept(before: BlockCache, after: BlockCache, id: u32) -> bool {
    forall|k: (u32, u64)|
        k.0 != id ==> #[trigger] after.lookup(k) is None || after.lookup(k) == before.lookup(k)
}

/// Whether what a cache holds under an identifier are blocks of the table `t`.
pub open spec fn blocks_ok(id: u32, t: Seq<u8>, cache: BlockCache) -> bool {
    let items = data_block::block_entries(index_of(t));
    forall|off: u64|
        (#[trigger] cache.lookup((id, off))) matches Some(b) ==> exists|i: int|
            0 <= i < items.len() && index::pointer_value((#[trigger] items[i]).1).offset == off
                && b@ == item_block(t, items[i])
}

/// Reads a table.
pub struct BlockTableReader<R> {
    reader: R,
    opts: BlockTableOptions,
    toc: TableFooter,
    index_block: Block,
    filter_reader: Option<FullFilterBlockReader>,
    cache_id: CacheId,
}

impl<R: RandomAccess> BlockTableReader<R> {
    /// The bytes of the table.
    pub closed spec fn bytes(self) -> Seq<u8> {
        self.reader.bytes()
    }

    /// Whether no read fails.
    pub closed spec fn reliable(self) -> bool {
        self.reader.reliable()
    }

    /// What its blocks are cached under.
    pub closed spec fn id(self) -> u32 {
        self.cache_id
    }

    /// The entries of the table.
    pub open spec fn entries(self) -> Seq<(Seq<u8>, Seq<u8>)> {
        table_entries(self.bytes())
    }

    /// The items of the index.
    pub open spec fn items(self) -> Seq<(Seq<u8>, Seq<u8>)> {
        data_block::block_entries(index_of(self.bytes()))
    }

    /// The bytes are a table, and its index and filter are at hand.
    pub closed spec fn wf(self) -> bool {
        &&& has_blocks(self.bytes())
        &&& self.index_block@ == index_of(self.bytes())
        &&& match self.filter_reader {
            Some(fr) => table_filter(self.bytes()) == Some(fr.filter()),
            None => table_filter(self.bytes()) is None,
        }
    }

    /// Whether what the cache holds for this table are its blocks.
    pub open spec fn consistent(self, cache: BlockCache) -> bool {
        blocks_ok(self.id(), self.bytes(), cache)
    }

    /// Opens a table of the given size. Its blocks go to the cache under a new identifier.
    pub fn open(
        opts: BlockTableOptions,
        reader: R,
        reader_size: usize,
        cache: &mut BlockCache,
    ) -> (r: Result<Self, Error>)
        requires
            reader_size >= 40,
        ensures
            match r {
                Ok(table) => {
                    &&& opens(reader.bytes(), reader_size as nat)
                    &&& table.bytes() == reader.bytes()
                    &&& table.reliable() == reader.reliable()
                    &&& table.id() == old(cache).next_cache_id()
                    &&& reader_size == reader.bytes().len() && has_blocks(reader.bytes())
                        ==> table.wf()
                },
                Err(e) => reader.reliable() ==> !opens(reader.bytes(), reader_size as nat)
                    && open_error(reader.bytes(), reader_size as nat, e),
            },
            final(cache).contents() == old(cache).contents(),
            final(cache).room() == old(cache).room(),
            final(cache).next_cache_id() == if old(cache).next_cache_id() == u32::MAX {
                0
            } else {
                old(cache).next_cache_id() + 1
            },
            old(cache).wf() ==> final(cache).wf(),
    {
        let cache_id = cache.get_cache_id();
        let footer = match Self::read_footer(&reader, reader_size) {
            Ok(footer) => footer,
            Err(e) => {
                return Err(e);
            },
        };
        let index_block = match Self::read_block(&reader, footer.index_ptr) {
            Ok(block) => block,
            Err(e) => {
                return Err(e);
            },
        };
        let filter_reader = match footer.filter_ptr {
            Some(filter_ptr) => match Self::read_block(&reader, filter_ptr) {
                Ok(block) => Some(create_filter_block_reader(&opts, block)),
                Err(e) => {
                    return Err(e);
                },
            },
            None => None,
        };
        Ok(
            Self {
                reader,
                opts,
                toc: footer,
                index_block,
                filter_reader,
                cache_id,
            },
        )
    }

    fn read_footer(reader: &R, reader_size: usize) -> (r: Result<TableFooter, Error>)
        requires
            reader_size >= 40,
        ensures
            ({
                let f = footer_of(reader.bytes(), reader_size as nat);
                match r {
                    Ok(footer) => {
                        &&& footer_intact(f)
                        &&& footer_magic(f)
                        &&& footer.index_ptr == footer_index(f)
                        &&& footer.filter_ptr == footer_filter(f)
                    },
                    Err(e) => reader.reliable() ==> {
                        &&& !footer_intact(f) || !footer_magic(f)
                        &&& open_error(reader.bytes(), reader_size as nat, e)
                    },
                }
            }),
    {
        let mut footer_buf: Vec<u8> = vec![0; 40];
        let ghost zeros = footer_buf@;
        let offset = reader_size - TABLE_FOOTER_LENGTH;
        match reader.read_at(&mut footer_buf, offset) {
            Ok(_) => {},
            Err(e) => {
                return Err(e);
            },
        }
        proof {
            assert(footer_buf@ =~= footer_of(reader.bytes(), reader_size as nat));
        }
        let buf = footer_buf.as_slice();
        let footer = slice_subrange(buf, 0, 36);
        let crc_buf = slice_subrange(buf, 36, 40);
        proof {
            assert(crc_buf@.take(4) =~= footer_buf@.subrange(36, 40));
            assert(footer@ =~= footer_buf@.take(36));
        }
        let crc_file = read_u32_le(crc_buf);
        let crc = checksum(footer);
        if crc != crc_file {
            return Err(Error::corrupted("checksum does not match"));
        }
        let magic = read_u32_le(buf);
        if magic != BLOCK_TABLE_MAGIC_NUMBER {
            return Err(Error::corrupted("table magic number does not match"));
        }
        let index_offset = Self::read_field(buf, 4);
        let index_length = Self::read_field(buf, 12);
        let index_ptr = ItemPointer { offset: index_offset, length: index_length };
        let filter_offset = Self::read_field(buf, 20);
        let filter_length = Self::read_field(buf, 28);
        let filter_ptr = if filter_length > 0 {
            Some(ItemPointer { offset: filter_offset, length: filter_length })
        } else {
            None
        };
        Ok(TableFooter::new(index_ptr, filter_ptr))
    }

    fn read_field(buf: &[u8], at: usize) -> (r: u64)
        requires
            at + 8 <= buf@.len(),
        ensures
            r == coding::le_value(buf@.subrange(at as int, at + 8)),
    {
        let len: usize = buf.len();
        assert(at + 8 <= len);
        let field = slice_subrange(buf, at, at + 8);
        proof {
            assert(field@.take(8) =~= buf@.subrange(at as int, at + 8));
        }
        read_u64_le(field)
    }

    fn read_block(reader: &R, block_ptr: ItemPointer) -> (r: Result<Block, Error>)
        ensures
            match r {
                Ok(block) => checked_block(reader.bytes(), block_ptr) == Some(block@),
                Err(e) => reader.reliable() ==> checked_block(reader.bytes(), block_ptr) is None
                    && e.is_corrupted("block checksum does not match"@),
            },
    {
        if block_ptr.offset > usize::MAX as u64 || block_ptr.length > (usize::MAX - 4) as u64 {
            return Err(Error::corrupted("block checksum does not match"));
        }
        let length: usize = block_ptr.length as usize;
        let mut contents: Vec<u8> = vec![0; length + BLOCK_TRAILER_LENGTH];
        match reader.read_at(&mut contents, block_ptr.offset as usize) {
            Ok(_) => {},
            Err(e) => {
                return Err(e);
            },
        }
        proof {
            assert(contents@ =~= read_span(
                reader.bytes(),
                block_ptr.offset as nat,
                block_ptr.length as nat + 4,
            ));
        }
        let trailer = contents.split_off(length);
        proof {
            assert(trailer@.take(4) =~= trailer@);
        }
        let crc_file = read_u32_le(trailer.as_slice());
        let crc = checksum(contents.as_slice());
        if crc != crc_file {
            return Err(Error::corrupted("block checksum does not match"));
        }
        Ok(Block::new(contents))
    }

    /// A data block, from the cache if it is there. Blocks that a compaction reads do not go to
    /// the cache.
    fn get_block(
        &self,
        cache: &mut BlockCache,
        block_ptr: ItemPointer,
        for_compaction: bool,
        Ghost(i): Ghost<int>,
    ) -> (r: Result<Block, Error>)
        requires
            self.wf(),
            old(cache).wf(),
            self.consistent(*old(cache)),
            0 <= i < self.items().len(),
            block_ptr == index::pointer_value(self.items()[i].1),
        ensures
            final(cache).wf(),
            self.consistent(*final(cache)),
            others_kept(*old(cache), *final(cache), self.id()),
            final(cache).next_cache_id() == old(cache).next_cache_id(),
            match r {
                Ok(block) => block@ == item_block(self.bytes(), self.items()[i]),
                Err(_) => !self.reliable(),
            },
    {
        match cache.get(self.cache_id, block_ptr.offset) {
            Some(block) => {
                let block = block.clone();
                return Ok(block);
            },
            None => {},
        }
        let ghost c1 = *cache;
        proof {
            assert(item_ok(self.bytes(), self.items()[i]));
        }
        let block = match Self::read_block(&self.reader, block_ptr) {
            Ok(block) => block,
            Err(e) => {
                return Err(e);
            },
        };
        if !for_compaction {
            cache.insert(self.cache_id, block_ptr.offset, block.clone());
        }
        Ok(block)
    }

    /// The value of a key. An empty key is never found.
    pub fn get<O: KeyOrder>(&self, cache: &mut BlockCache, key: &[u8]) -> (r: Result<
        Option<Vec<u8>>,
        Error,
    >)
        requires
            self.wf(),
            searchable(self.bytes()),
            O::valid(key@),
            key::keys_valid::<O>(self.entries()),
            old(cache).wf(),
            self.consistent(*old(cache)),
        ensures
            final(cache).wf(),
            self.consistent(*final(cache)),
            others_kept(*old(cache), *final(cache), self.id()),
            final(cache).next_cache_id() == old(cache).next_cache_id(),
            match r {
                Ok(v) => {
                    &&& key@.len() == 0 ==> v is None
                    &&& key::ascending::<O>(self.entries()) && findable::<O>(self.entries(), key@)
                        ==> value_bytes(v) == table::lookup(self.entries(), key@)
                },
                Err(_) => !self.reliable(),
            },
    {
        let ghost t = self.bytes();
        let ghost items = self.items();
        let ghost es = self.entries();
        let ghost good = key::ascending::<O>(es) && findable::<O>(es, key@);
        proof {
            if good {
                lemma_search::<O>(t, items, key@);
            }
            lemma_items_valid::<O>(t, items);
        }
        match &self.filter_reader {
            Some(filter_reader) => {
                if !filter_reader.key_may_match(key) {
                    proof {
                        assert forall|i: int| 0 <= i < es.len() implies (#[trigger] es[i]).0
                            != key@ by {
                            assert(filter_policy::filter_matches(
                                filter_reader.filter(),
                                filter_policy::xx_hash64(es[i].0),
                            ));
                        }
                        table::lemma_lookup_none(es, key@);
                    }
                    return Ok(None);
                }
            },
            None => {},
        }
        let index_view = DataBlockView::new(self.index_block.clone());
        let mut index_iter = index_view.iter();
        index_iter.seek::<O>(key);
        proof {
            if good {
                lemma_items_ascending::<O>(t, items);
            }
        }
        let ghost n = data_block::lower_bound::<O>(items, key@) as int;
        let (last_key, ptr_buf) = match index_iter.current() {
            Some(pair) => pair,
            None => {
                return Ok(None);
            },
        };
        if O::less(last_key.as_slice(), key) {
            return Ok(None);
        }
        let ghost i = choose|i: int|
            0 <= i < items.len() && #[trigger] items[i] == (last_key@, ptr_buf@);
        proof {
            assert(items[i] == (last_key@, ptr_buf@));
            assert(item_ok(t, items[i]));
            if good {
                assert(items[n] == (last_key@, ptr_buf@));
                assert(item_ok(t, items[n]));
                lemma_block_ascending::<O>(t, items, n);
            }
            reveal(item_entries);
        }
        let block_ptr = ItemPointer::decode(ptr_buf.as_slice());
        let block = match self.get_block(cache, block_ptr, false, Ghost(i)) {
            Ok(block) => block,
            Err(e) => {
                return Err(e);
            },
        };
        let block_view = DataBlockView::new(block);
        let mut block_iter = block_view.iter();
        proof {
            assert(block_iter.entries() == item_entries(t, items[i]));
            assert(good ==> item_entries(t, items[i]) == item_entries(t, items[n]));
        }
        block_iter.seek::<O>(key);
        proof {
            block_iter.lemma_cursor_key();
        }
        match block_iter.current() {
            Some((key_buf, value_buf)) => {
                if bytes_equal(key_buf.as_slice(), key) {
                    Ok(Some(value_buf))
                } else {
                    Ok(None)
                }
            },
            None => Ok(None),
        }
    }

    /// An iterator over the entries of the table.
    pub fn iter<'a>(&'a self, for_compaction: bool) -> (r: BlockTableIterator<'a, R>)
        requires
            self.wf(),
        ensures
            r.wf(),
            r.table() == *self,
            r.entries() == self.entries(),
            r.remaining() == self.entries(),
            r.reliable() == self.reliable(),
    {
        BlockTableIterator { table: self, cursor: TableCursor::new(self), for_compaction }
    }
}

/// What a cursor needs to go on.
pub enum Step {
    /// The next entry.
    Entry(Vec<u8>, Vec<u8>),
    /// The data block at the pointer.
    Block(ItemPointer),
    /// Nothing, there are no more entries.
    End,
}

/// A position in a table.
pub struct TableCursor {
    block_iter: Option<DataBlockIterator>,
    index_iter: DataBlockIterator,
}

impl TableCursor {
    /// The entries of the open block that are still to come.
    closed spec fn open_entries(self) -> Seq<(Seq<u8>, Seq<u8>)> {
        match self.block_iter {
            Some(it) => it.remaining(),
            None => Seq::empty(),
        }
    }

    /// The items of the index that are still to come.
    closed spec fn coming(self) -> Seq<(Seq<u8>, Seq<u8>)> {
        self.index_iter.remaining()
    }

    /// The entries of the table `t` that are still to come.
    pub closed spec fn remaining(self, t: Seq<u8>) -> Seq<(Seq<u8>, Seq<u8>)> {
        self.open_entries() + entries_of(t, self.coming())
    }

    /// The cursor stands in the table `t`.
    pub closed spec fn wf(self, t: Seq<u8>) -> bool {
        let items = data_block::block_entries(index_of(t));
        &&& has_blocks(t)
        &&& self.index_iter.wf()
        &&& self.index_iter.entries() == items
        &&& self.coming().len() <= items.len()
        &&& self.coming() == items.skip(items.len() - self.coming().len())
        &&& self.block_iter matches Some(it) ==> it.wf()
    }

    fn new<R: RandomAccess>(table: &BlockTableReader<R>) -> (r: Self)
        requires
            table.wf(),
        ensures
            r.wf(table.bytes()),
            r.remaining(table.bytes()) == table.entries(),
    {
        let index_view = DataBlockView::new(table.index_block.clone());
        let r = TableCursor { block_iter: None, index_iter: index_view.iter() };
        proof {
            let t = table.bytes();
            let items = data_block::block_entries(index_of(t));
            assert(items.skip(0) =~= items);
            assert(r.remaining(t) =~= table.entries());
        }
        r
    }

    /// Moves to the next entry, or to the next block.
    fn step(&mut self, Ghost(t): Ghost<Seq<u8>>) -> (r: Step)
        requires
            old(self).wf(t),
        ensures
            final(self).wf(t),
            match r {
                Step::Entry(k, v) => {
                    &&& old(self).remaining(t).len() > 0
                    &&& (k@, v@) == old(self).remaining(t)[0]
                    &&& final(self).remaining(t) == old(self).remaining(t).drop_first()
                },
                Step::Block(ptr) => {
                    let items = data_block::block_entries(index_of(t));
                    let i = items.len() - old(self).coming().len();
                    &&& 0 <= i < items.len()
                    &&& ptr == index::pointer_value(items[i].1)
                    &&& old(self).remaining(t) == item_entries(t, items[i]) + final(self).remaining(
                        t,
                    )
                    &&& final(self).block_iter is None
                    &&& final(self).coming().len() == old(self).coming().len() - 1
                },
                Step::End => {
                    &&& old(self).remaining(t).len() == 0
                    &&& final(self).remaining(t) == table_entries(t)
                },
            },
    {
        let ghost items = data_block::block_entries(index_of(t));
        let ghost rem0 = self.remaining(t);
        let ghost coming0 = self.coming();
        match self.block_iter.take() {
            Some(it) => {
                let mut block_iter = it;
                let ghost open0 = block_iter.remaining();
                match block_iter.next() {
                    Some((k, v)) => {
                        self.block_iter = Some(block_iter);
                        proof {
                            assert(rem0[0] == open0[0]);
                            assert(self.remaining(t) =~= rem0.drop_first());
                        }
                        return Step::Entry(k, v);
                    },
                    None => {
                        proof {
                            assert(rem0 =~= entries_of(t, coming0));
                        }
                    },
                }
            },
            None => {
                proof {
                    assert(rem0 =~= entries_of(t, coming0));
                }
            },
        }
        match self.index_iter.next() {
            Some((last_key, ptr_buf)) => {
                proof {
                    let i = items.len() - coming0.len();
                    assert(coming0[0] == items[i]);
                    assert(item_ok(t, items[i]));
                    lemma_entries_first(t, coming0);
                    assert(items.skip(i).drop_first() =~= items.skip(i + 1));
                    assert(self.remaining(t) =~= entries_of(t, self.coming()));
                }
                Step::Block(ItemPointer::decode(ptr_buf.as_slice()))
            },
            None => {
                proof {
                    lemma_no_items(t, coming0);
                    assert(items.skip(0) =~= items);
                    assert(self.remaining(t) =~= table_entries(t));
                }
                Step::End
            },
        }
    }

    /// Opens a block that was read.
    fn supply(&mut self, block: Block, Ghost(t): Ghost<Seq<u8>>, Ghost(i): Ghost<int>)
        requires
            old(self).wf(t),
            old(self).block_iter is None,
            0 <= i < data_block::block_entries(index_of(t)).len(),
            block@ == item_block(t, data_block::block_entries(index_of(t))[i]),
        ensures
            final(self).wf(t),
            final(self).remaining(t) == item_entries(
                t,
                data_block::block_entries(index_of(t))[i],
            ) + old(self).remaining(t),
            final(self).coming() == old(self).coming(),
    {
        proof {
            assert(item_ok(t, data_block::block_entries(index_of(t))[i]));
            reveal(item_entries);
        }
        let block_view = DataBlockView::new(block);
        self.block_iter = Some(block_view.iter());
        proof {
            let b = item_entries(t, data_block::block_entries(index_of(t))[i]);
            assert(self.remaining(t) =~= b + old(self).remaining(t));
        }
    }

    /// The next entry of the table, whose blocks are read as they are needed.
    fn next_of<R: RandomAccess>(&mut self, table: &BlockTableReader<R>) -> (r: Result<
        Option<(Vec<u8>, Vec<u8>)>,
        Error,
    >)
        requires
            table.wf(),
            old(self).wf(table.bytes()),
        ensures
            final(self).wf(table.bytes()),
            match r {
                Ok(Some((k, v))) => {
                    &&& old(self).remaining(table.bytes()).len() > 0
                    &&& (k@, v@) == old(self).remaining(table.bytes())[0]
                    &&& final(self).remaining(table.bytes()) == old(self).remaining(
                        table.bytes(),
                    ).drop_first()
                },
                Ok(None) => {
                    &&& old(self).remaining(table.bytes()).len() == 0
                    &&& final(self).remaining(table.bytes()) == table.entries()
                },
                Err(_) => {
                    let before = old(self).remaining(table.bytes());
                    let after = final(self).remaining(table.bytes());
                    &&& !table.reliable()
                    &&& after.len() <= before.len()
                    &&& after == before.skip(before.len() - after.len())
                },
            },
    {
        let ghost t = table.bytes();
        let ghost items = data_block::block_entries(index_of(t));
        loop
            invariant
                table.wf(),
                t == table.bytes(),
                items == data_block::block_entries(index_of(t)),
                self.wf(t),
                self.remaining(t) == old(self).remaining(t),
            decreases self.coming().len(),
        {
            let ghost i = items.len() - self.coming().len();
            match self.step(Ghost(t)) {
                Step::Entry(k, v) => {
                    return Ok(Some((k, v)));
                },
                Step::Block(ptr) => {
                    proof {
                        assert(item_ok(t, items[i]));
                    }
                    match BlockTableReader::<R>::read_block(&table.reader, ptr) {
                        Ok(block) => {
                            self.supply(block, Ghost(t), Ghost(i));
                        },
                        Err(e) => {
                            proof {
                                let b = item_entries(t, items[i]);
                                let after = self.remaining(t);
                                assert(after =~= (b + after).skip(b.len() as int));
                            }
                            return Err(e);
                        },
                    }
                },
                Step::End => {
                    return Ok(None);
                },
            }
        }
    }
}

/// An iterator over the entries of a table.
pub struct BlockTableIterator<'a, R> {
    table: &'a BlockTableReader<R>,
    cursor: TableCursor,
    for_compaction: bool,
}

impl<'a, R: RandomAccess> BlockTableIterator<'a, R> {
    /// The table.
    pub closed spec fn table(self) -> BlockTableReader<R> {
        *self.table
    }

    /// The next entry. Blocks are looked for in the cache, and put there unless they are read for
    /// a compaction.
    pub fn next_cached(&mut self, cache: &mut BlockCache) -> (r: Result<
        Option<(Vec<u8>, Vec<u8>)>,
        Error,
    >)
        requires
            old(self).wf(),
            old(cache).wf(),
            old(self).table().consistent(*old(cache)),
        ensures
            final(self).wf(),
            final(self).table() == old(self).table(),
            final(cache).wf(),
            final(self).table().consistent(*final(cache)),
            others_kept(*old(cache), *final(cache), old(self).table().id()),
            match r {
                Ok(Some((k, v))) => {
                    &&& old(self).remaining().len() > 0
                    &&& (k@, v@) == old(self).remaining()[0]
                    &&& final(self).remaining() == old(self).remaining().drop_first()
                },
                Ok(None) => {
                    &&& old(self).remaining().len() == 0
                    &&& final(self).remaining() == old(self).entries()
                },
                Err(_) => !old(self).reliable(),
            },
    {
        let ghost t = self.table.bytes();
        let ghost items = self.table.items();
        loop
            invariant
                self.table == old(self).table,
                self.table.wf(),
                t == self.table.bytes(),
                items == self.table.items(),
                self.cursor.wf(t),
                self.cursor.remaining(t) == old(self).cursor.remaining(t),
                cache.wf(),
                self.table.consistent(*cache),
                others_kept(*old(cache), *cache, old(self).table.id()),
            decreases self.cursor.coming().len(),
        {
            let ghost i = items.len() - self.cursor.coming().len();
            let ghost c0 = *cache;
            match self.cursor.step(Ghost(t)) {
                Step::Entry(k, v) => {
                    return Ok(Some((k, v)));
                },
                Step::Block(ptr) => {
                    let table = self.table;
                    match table.get_block(cache, ptr, self.for_compaction, Ghost(i)) {
                        Ok(block) => {
                            proof {
                                lemma_others_kept(*old(cache), c0, *cache, table.id());
                            }
                            self.cursor.supply(block, Ghost(t), Ghost(i));
                        },
                        Err(e) => {
                            proof {
                                lemma_others_kept(*old(cache), c0, *cache, table.id());
                            }
                            return Err(e);
                        },
                    }
                },
                Step::End => {
                    return Ok(None);
                },
            }
        }
    }
}

proof fn lemma_others_kept(a: BlockCache, b: BlockCache, c: BlockCache, id: u32)
    requires
        others_kept(a, b, id),
        others_kept(b, c, id),
    ensures
        others_kept(a, c, id),
{
    assert forall|k: (u32, u64)| k.0 != id implies #[trigger] c.lookup(k) is None || c.lookup(k)
        == a.lookup(k) by {
        assert(c.lookup(k) is None || c.lookup(k) == b.lookup(k));
        assert(b.lookup(k) is None || b.lookup(k) == a.lookup(k));
    }
}

impl<'a, R: RandomAccess> TableIterator for BlockTableIterator<'a, R> {
    closed spec fn wf(&self) -> bool {
        self.table.wf() && self.cursor.wf(self.table.bytes())
    }

    closed spec fn entries(&self) -> Seq<(Seq<u8>, Seq<u8>)> {
        self.table.entries()
    }

    closed spec fn remaining(&self) -> Seq<(Seq<u8>, Seq<u8>)> {
        self.cursor.remaining(self.table.bytes())
    }

    closed spec fn reliable(&self) -> bool {
        self.table.reliable()
    }

    /// At the end the iterator moves back before the first entry.
    fn next(&mut self) -> (r: Result<Option<(Vec<u8>, Vec<u8>)>, Error>)
        ensures
            final(self).table() == old(self).table(),
            r matches Ok(None) ==> final(self).remaining() == final(self).entries(),
    {
        let table = self.table;
        self.cursor.next_of(table)
    }

    /// Does nothing.
    fn reset(&mut self)
        ensures
            *final(self) == *old(self),
    {
    }

    /// Does nothing.
    fn seek(&mut self, _key: &[u8])
        ensures
            *final(self) == *old(self),
    {
    }
}

/// An iterator that keeps its table open.
pub struct OwningTableIterator<R> {
    table: Arc<BlockTableReader<R>>,
    cursor: TableCursor,
}

impl<R: RandomAccess> OwningTableIterator<R> {
    pub fn from_table(table: Arc<BlockTableReader<R>>) -> (r: Self)
        requires
            table.wf(),
        ensures
            r.wf(),
            r.entries() == table.entries(),
            r.remaining() == table.entries(),
            r.reliable() == table.reliable(),
    {
        let cursor = TableCursor::new(&table);
        OwningTableIterator { table, cursor }
    }
}

impl<R: RandomAccess> TableIterator for OwningTableIterator<R> {
    closed spec fn wf(&self) -> bool {
        self.table.wf() && self.cursor.wf(self.table.bytes())
    }

    closed spec fn entries(&self) -> Seq<(Seq<u8>, Seq<u8>)> {
        self.table.entries()
    }

    closed spec fn remaining(&self) -> Seq<(Seq<u8>, Seq<u8>)> {
        self.cursor.remaining(self.table.bytes())
    }

    closed spec fn reliable(&self) -> bool {
        self.table.reliable()
    }

    /// At the end the iterator moves back before the first entry. Where a block cannot be read, its
    /// entries are left out.
    fn next(&mut self) -> (r: Result<Option<(Vec<u8>, Vec<u8>)>, Error>)
        ensures
            r matches Ok(None) ==> final(self).remaining() == final(self).entries(),
            r is Err ==> final(self).remaining().len() <= old(self).remaining().len() && final(self).remaining() == old(self).remaining().skip(
                old(self).remaining().len() - final(self).remaining().len(),
            ),
    {
        self.cursor.next_of(&self.table)
    }

    /// Does nothing.
    fn reset(&mut self)
        ensures
            *final(self) == *old(self),
    {
    }

    /// Does nothing.
    fn seek(&mut self, _key: &[u8])
        ensures
            *final(self) == *old(self),
    {
    }
}

/// Makes builders and readers with the same options.
#[derive(Clone, Copy)]
pub struct BlockTableFactory {
    options: BlockTableOptions,
}

impl BlockTableFactory {
    /// The options.
    pub closed spec fn table_options(self) -> BlockTableOptions {
        self.options
    }

    pub fn new(options: BlockTableOptions) -> (r: Self)
        ensures
            r.table_options() == options,
    {
        Self { options }
    }

    pub fn options(&self) -> (r: BlockTableOptions)
        ensures
            r == self.table_options(),
    {
        self.options
    }

    pub fn create_table_builder(&self) -> (r: BlockTableBuilder)
        ensures
            r.open(),
            r.table_options() == self.table_options(),
            r.entries() == Seq::<(Seq<u8>, Seq<u8>)>::empty(),
            r.output() == Seq::<u8>::empty(),
            r.pending() == Seq::<u8>::empty(),
            r.taken_out() == Seq::<u8>::empty(),
    {
        BlockTableBuilder::new(self.options)
    }

    pub fn create_table_reader<R: RandomAccess>(
        &self,
        reader: R,
        reader_size: usize,
        cache: &mut BlockCache,
    ) -> (r: Result<BlockTableReader<R>, Error>)
        requires
            reader_size >= 40,
        ensures
            match r {
                Ok(table) => {
                    &&& opens(reader.bytes(), reader_size as nat)
                    &&& table.bytes() == reader.bytes()
                    &&& table.reliable() == reader.reliable()
                    &&& table.id() == old(cache).next_cache_id()
                    &&& reader_size == reader.bytes().len() && has_blocks(reader.bytes())
                        ==> table.wf()
                },
                Err(e) => reader.reliable() ==> !opens(reader.bytes(), reader_size as nat)
                    && open_error(reader.bytes(), reader_size as nat, e),
            },
            final(cache).contents() == old(cache).contents(),
            final(cache).room() == old(cache).room(),
            final(cache).next_cache_id() == if old(cache).next_cache_id() == u32::MAX {
                0
            } else {
                old(cache).next_cache_id() + 1
            },
            old(cache).wf() ==> final(cache).wf(),
    {
        BlockTableReader::open(self.options, reader, reader_size, cache)
    }
}

/// A factory with the options that a store has unless it is given others.
pub fn default_table_factory() -> (r: BlockTableFactory)
    ensures
        r.table_options().block_size == 4096,
        r.table_options().block_restart_interval == 16,
        r.table_options().filter_policy.millibits_per_key == 10000,
{
    BlockTableFactory::new(BlockTableOptions::default())
}

} // verus!

//! How a table is cut into blocks, and what of its bytes is refused.
use crate::block::data_block;
use crate::block::ItemPointer;
use crate::coding;
use crate::table::block_table;
use crate::table::BlockTableOptions;
use vstd::prelude::*;

verus! {

/// Whether blocks hold entries one after the other: none is empty, and all of them together are
/// the entries.
pub open spec fn cut_into(
    blocks: Seq<Seq<(Seq<u8>, Seq<u8>)>>,
    entries: Seq<(Seq<u8>, Seq<u8>)>,
) -> bool {
    &&& forall|i: int| 0 <= i < blocks.len() ==> (#[trigger] blocks[i]).len() > 0
    &&& blocks.flatten() == entries
}

/// Whether an entry does not fit in a block of the given size any more, behind those that are
/// there.
pub open spec fn too_large(
    options: BlockTableOptions,
    block: Seq<(Seq<u8>, Seq<u8>)>,
    e: (Seq<u8>, Seq<u8>),
) -> bool {
    data_block::block_len(block, options.block_restart_interval) + e.0.len() + e.1.len()
        > options.block_size
}

/// Whether each entry but the first of a block did fit behind those before it.
pub open spec fn filled_in_turn(
    options: BlockTableOptions,
    block: Seq<(Seq<u8>, Seq<u8>)>,
) -> bool {
    forall|n: int| 0 < n < block.len() ==> !too_large(options, block.take(n), #[trigger] block[n])
}

/// The entries of a table are cut into blocks in their order. A new block is started exactly where
/// the next entry did not fit in the one before.
pub proof fn lemma_blocks(options: BlockTableOptions, entries: Seq<(Seq<u8>, Seq<u8>)>)
    ensures
        ({
            let blocks = block_table::blocks_of(options, entries);
            &&& cut_into(blocks, entries)
            &&& forall|i: int|
                0 <= i < blocks.len() ==> filled_in_turn(options, #[trigger] blocks[i])
            &&& forall|i: int|
                0 <= i < blocks.len() - 1 ==> too_large(
                    options,
                    #[trigger] blocks[i],
                    blocks[i + 1][0],
                )
        }),
{
    lemma_grouped_whole(options, entries);
    lemma_grouped_full(options, entries);
    let (done, open) = block_table::grouped(options, entries);
    let blocks = block_table::blocks_of(options, entries);
    if open.len() > 0 {
        lemma_flatten_push(done, open);
        assert(blocks == done.push(open));
        assert forall|i: int| 0 <= i < blocks.len() implies (#[trigger] blocks[i]).len() > 0
            && filled_in_turn(options, blocks[i]) by {
            if i < done.len() {
                assert(blocks[i] == done[i]);
            }
        }
        assert forall|i: int| 0 <= i < blocks.len() - 1 implies too_large(
            options,
            #[trigger] blocks[i],
            blocks[i + 1][0],
        ) by {
            assert(blocks[i] == done[i]);
            if i < done.len() - 1 {
                assert(blocks[i + 1] == done[i + 1]);
            } else {
                assert(done.last() == done[i]);
            }
        }
    } else {
        assert(done.flatten() + open =~= done.flatten());
    }
}

pub proof fn lemma_flatten_push(
    done: Seq<Seq<(Seq<u8>, Seq<u8>)>>,
    open: Seq<(Seq<u8>, Seq<u8>)>,
)
    ensures
        done.push(open).flatten() == done.flatten() + open,
    decreases done.len(),
{
    reveal_with_fuel(Seq::flatten, 3);
    let all = done.push(open);
    if done.len() == 0 {
        assert(all.drop_first() =~= Seq::empty());
        assert(all.flatten() =~= open);
    } else {
        assert(all.drop_first() =~= done.drop_first().push(open));
        lemma_flatten_push(done.drop_first(), open);
        assert(all.flatten() =~= done.flatten() + open);
    }
}

/// The blocks are not empty, and hold the entries in their order.
proof fn lemma_grouped_whole(options: BlockTableOptions, entries: Seq<(Seq<u8>, Seq<u8>)>)
    ensures
        ({
            let (done, open) = block_table::grouped(options, entries);
            &&& forall|i: int| 0 <= i < done.len() ==> (#[trigger] done[i]).len() > 0
            &&& done.flatten() + open == entries
            &&& entries.len() > 0 ==> open.len() > 0
            &&& entries.len() == 0 ==> done.len() == 0
        }),
    decreases entries.len(),
{
    if entries.len() > 0 {
        let init = entries.drop_last();
        let e = entries.last();
        lemma_grouped_whole(options, init);
        let (done0, open0) = block_table::grouped(options, init);
        let (done, open) = block_table::grouped(options, entries);
        assert(init.push(e) =~= entries);
        if open0.len() > 0 && block_table::block_full(options, open0, e) {
            lemma_flatten_push(done0, open0);
            assert(done.flatten() + open =~= init.push(e));
        } else {
            assert(done.flatten() + open =~= (done0.flatten() + open0).push(e));
        }
    } else {
        let (done, open) = block_table::grouped(options, entries);
        assert(done.flatten() =~= Seq::empty()) by {
            reveal(Seq::flatten);
        }
        assert(done.flatten() + open =~= entries);
    }
}

/// Each block was filled in turn, and closed where the next entry did not fit.
proof fn lemma_grouped_full(options: BlockTableOptions, entries: Seq<(Seq<u8>, Seq<u8>)>)
    ensures
        ({
            let (done, open) = block_table::grouped(options, entries);
            &&& forall|i: int|
                0 <= i < done.len() ==> filled_in_turn(options, #[trigger] done[i])
            &&& filled_in_turn(options, open)
            &&& forall|i: int|
                0 <= i < done.len() - 1 ==> too_large(
                    options,
                    #[trigger] done[i],
                    done[i + 1][0],
                )
            &&& done.len() > 0 ==> open.len() > 0 && too_large(options, done.last(), open[0])
        }),
    decreases entries.len(),
{
    if entries.len() > 0 {
        let init = entries.drop_last();
        let e = entries.last();
        lemma_grouped_full(options, init);
        let (done0, open0) = block_table::grouped(options, init);
        let (done, open) = block_table::grouped(options, entries);
        if open0.len() > 0 && block_table::block_full(options, open0, e) {
            assert(open.len() == 1);
            assert forall|i: int| 0 <= i < done.len() implies filled_in_turn(
                options,
                #[trigger] done[i],
            ) by {
                if i < done0.len() {
                    assert(done0[i] == done[i]);
                }
            }
            assert forall|i: int| 0 <= i < done.len() - 1 implies too_large(
                options,
                #[trigger] done[i],
                done[i + 1][0],
            ) by {
                if i < done0.len() - 1 {
                    assert(done0[i] == done[i] && done0[i + 1] == done[i + 1]);
                } else {
                    assert(done0.last() == done[i]);
                    assert(done[i + 1] == open0);
                }
            }
            assert(done.last() == open0);
        } else {
            assert(done == done0);
            lemma_filled_more(options, open0, e);
        }
    }
}

proof fn lemma_filled_more(
    options: BlockTableOptions,
    open: Seq<(Seq<u8>, Seq<u8>)>,
    e: (Seq<u8>, Seq<u8>),
)
    requires
        filled_in_turn(options, open),
        open.len() > 0 ==> !too_large(options, open, e),
    ensures
        filled_in_turn(options, open.push(e)),
{
    let all = open.push(e);
    assert forall|n: int| 0 < n < all.len() implies !too_large(
        options,
        all.take(n),
        #[trigger] all[n],
    ) by {
        if n < open.len() {
            assert(all.take(n) =~= open.take(n));
            assert(all[n] == open[n]);
        } else {
            assert(all.take(n) =~= open);
        }
    }
}

/// A block of a table is the bytes that its pointer gives, if the four bytes behind them are their
/// checksum. Else it is refused.
pub proof fn lemma_block_is_checked(t: Seq<u8>, ptr: ItemPointer)
    requires
        ptr.offset + ptr.length + 4 <= t.len() <= usize::MAX,
    ensures
        ({
            let a = ptr.offset as int;
            let b = ptr.offset + ptr.length;
            block_table::checked_block(t, ptr) == if coding::crc32(t.subrange(a, b))
                == coding::le_value(t.subrange(b, b + 4)) {
                Some(t.subrange(a, b))
            } else {
                None
            }
        }),
{
    let a = ptr.offset as int;
    let b = ptr.offset + ptr.length;
    let raw = block_table::read_span(t, ptr.offset as nat, ptr.length as nat + 4);
    assert(raw =~= t.subrange(a, b + 4));
    assert(raw.take(ptr.length as int) =~= t.subrange(a, b));
    assert(raw.skip(ptr.length as int) =~= t.subrange(b, b + 4));
}

/// The footer of a table is its last forty bytes: a magic number, where the index lies and how
/// long it is, the same of the filter, and the checksum of all that.
pub proof fn lemma_footer_layout(index_ptr: ItemPointer, filter_ptr: ItemPointer)
    ensures
        ({
            let f = block_table::footer_bytes(index_ptr, filter_ptr);
            &&& f.len() == 40
            &&& f.take(4) == seq![0x5eu8, 0xba, 0x0c, 0xb1]
            &&& f.subrange(4, 12) == coding::le_bytes(index_ptr.offset as nat, 8)
            &&& f.subrange(12, 20) == coding::le_bytes(index_ptr.length as nat, 8)
            &&& f.subrange(20, 28) == coding::le_bytes(filter_ptr.offset as nat, 8)
            &&& f.subrange(28, 36) == coding::le_bytes(filter_ptr.length as nat, 8)
            &&& f.subrange(36, 40) == coding::le_bytes(coding::crc32(f.take(36)) as nat, 4)
        }),
{
    let f = block_table::footer_bytes(index_ptr, filter_ptr);
    assert(coding::le_bytes(0xb10cba5e, 4) =~= seq![0x5eu8, 0xba, 0x0c, 0xb1]) by {
        reveal_with_fuel(coding::le_bytes, 5);
    }
    coding::lemma_le_bytes_len(index_ptr.offset as nat, 8);
    coding::lemma_le_bytes_len(index_ptr.length as nat, 8);
    coding::lemma_le_bytes_len(filter_ptr.offset as nat, 8);
    coding::lemma_le_bytes_len(filter_ptr.length as nat, 8);
    coding::lemma_le_bytes_len(
        coding::crc32(block_table::footer_body(index_ptr, filter_ptr)) as nat,
        4,
    );
    assert(f.take(4) =~= seq![0x5eu8, 0xba, 0x0c, 0xb1]);
    assert(f.subrange(4, 12) =~= coding::le_bytes(index_ptr.offset as nat, 8));
    assert(f.subrange(12, 20) =~= coding::le_bytes(index_ptr.length as nat, 8));
    assert(f.subrange(20, 28) =~= coding::le_bytes(filter_ptr.offset as nat, 8));
    assert(f.subrange(28, 36) =~= coding::le_bytes(filter_ptr.length as nat, 8));
    assert(f.take(36) =~= block_table::footer_body(index_ptr, filter_ptr));
    assert(f.subrange(36, 40) =~= coding::le_bytes(coding::crc32(f.take(36)) as nat, 4));
}

/// Bytes are opened as a table only if their last forty are a footer with the right magic number
/// and the right checksum.
pub proof fn lemma_open_is_checked(t: Seq<u8>)
    requires
        t.len() >= 40,
        block_table::opens(t, t.len()),
    ensures
        ({
            let f = t.skip(t.len() - 40);
            &&& coding::le_value(f.take(4)) == 0xb10cba5e
            &&& coding::le_value(f.subrange(36, 40)) == coding::crc32(f.take(36))
        }),
{
    assert(block_table::footer_of(t, t.len()) =~= t.skip(t.len() - 40));
}

/// What a table takes up so far: its closed blocks with the checksums behind them, the open one,
/// and the footer.
pub proof fn lemma_size_grows(
    options: BlockTableOptions,
    entries: Seq<(Seq<u8>, Seq<u8>)>,
    e: (Seq<u8>, Seq<u8>),
)
    ensures
        block_table::built_size(options, Seq::empty()) == 48,
        ({
            let (done, open) = block_table::grouped(options, entries);
            let interval = options.block_restart_interval;
            block_table::built_size(options, entries.push(e)) == if open.len() > 0 && too_large(
                options,
                open,
                e,
            ) {
                block_table::built_size(options, entries) + 4int + data_block::block_len(
                    seq![e],
                    interval,
                )
            } else {
                block_table::built_size(options, entries) + data_block::block_len(
                    open.push(e),
                    interval,
                ) - data_block::block_len(open, interval)
            }
        }),
{
    let (done, open) = block_table::grouped(options, entries);
    assert(entries.push(e).drop_last() =~= entries);
    assert(done.push(open).drop_last() =~= done);
    assert(Seq::empty().push(e) =~= seq![e]);
}

} // verus!

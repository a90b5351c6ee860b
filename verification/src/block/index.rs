//! The index of a table: the last key of each data block and where the block lies.
use crate::block::data_block;
use crate::block::{DataBlockBuilder, DataBlockReader};
use crate::coding;
use crate::coding::{decode_u64_pair, encode_u64_pair};
use crate::error::Error;
use vstd::prelude::*;

verus! {

/// Where a block lies in a table.
#[derive(Clone, Copy, PartialEq, Eq, Structural, Hash, Debug)]
pub struct ItemPointer {
    pub offset: u64,
    pub length: u64,
}

impl Default for ItemPointer {
    fn default() -> (r: Self)
        ensures
            r == (ItemPointer { offset: 0, length: 0 }),
    {
        ItemPointer { offset: 0, length: 0 }
    }
}

/// The bytes of a pointer.
pub open spec fn pointer_bytes(ptr: ItemPointer) -> Seq<u8> {
    coding::le_bytes(ptr.offset as nat, 8) + coding::le_bytes(ptr.length as nat, 8)
}

/// The pointer that the bytes hold.
pub open spec fn pointer_value(s: Seq<u8>) -> ItemPointer {
    ItemPointer {
        offset: coding::le_value(s.take(8)) as u64,
        length: coding::le_value(s.subrange(8, 16)) as u64,
    }
}

/// A pointer is read back as it was written.
pub proof fn lemma_pointer_round_trip(ptr: ItemPointer)
    ensures
        pointer_bytes(ptr).len() == 16,
        pointer_value(pointer_bytes(ptr)) == ptr,
{
    let a = coding::le_bytes(ptr.offset as nat, 8);
    let b = coding::le_bytes(ptr.length as nat, 8);
    coding::lemma_pow256_values();
    coding::lemma_le_bytes_len(ptr.offset as nat, 8);
    coding::lemma_le_bytes_len(ptr.length as nat, 8);
    coding::lemma_le_value_of_le_bytes(ptr.offset as nat, 8);
    coding::lemma_le_value_of_le_bytes(ptr.length as nat, 8);
    assert((a + b).take(8) =~= a);
    assert((a + b).subrange(8, 16) =~= b);
}

impl ItemPointer {
    /// The bytes of the pointer.
    pub fn encode(&self) -> (r: Vec<u8>)
        ensures
            r@ == pointer_bytes(*self),
    {
        encode_u64_pair(self.offset, self.length)
    }

    /// The pointer that the bytes hold.
    pub fn decode(buf: &[u8]) -> (r: ItemPointer)
        requires
            buf@.len() >= 16,
        ensures
            r == pointer_value(buf@),
    {
        let (offset, length) = decode_u64_pair(buf);
        ItemPointer { offset, length }
    }
}

/// Collects the blocks of a table into its index.
pub trait BlockIndexBuilder {
    /// The keys and pointers that were added, the latter as bytes.
    spec fn items(&self) -> Seq<(Seq<u8>, Seq<u8>)>;

    /// Whether more can be added.
    spec fn open(&self) -> bool;

    /// Whether `data` is the index of the added items.
    spec fn is_index(&self, data: Seq<u8>) -> bool;

    /// Adds the last key of a block and the place of the block.
    fn add_item(&mut self, key: &[u8], ptr: &ItemPointer) -> (r: Result<(), Error>)
        requires
            old(self).open(),
        ensures
            r is Ok,
            final(self).open(),
            final(self).items() == old(self).items().push((key@, pointer_bytes(*ptr))),
    ;

    /// Takes the index out of the builder, which has to be reset before it is used again.
    fn seal(&mut self) -> (r: Vec<u8>)
        requires
            old(self).open(),
        ensures
            old(self).is_index(r@),
    ;

    /// Forgets everything that was added.
    fn reset(&mut self)
        ensures
            final(self).open(),
            final(self).items() == Seq::<(Seq<u8>, Seq<u8>)>::empty(),
    ;
}

/// An index that is searched like a data block.
pub struct BinarySearchIndexBuilder {
    block_builder: DataBlockBuilder,
}

impl BinarySearchIndexBuilder {
    /// The number of bytes that the index would take.
    pub closed spec fn sealed_len(self) -> nat {
        self.block_builder.sealed_len()
    }

    pub fn new(restart_interval: usize) -> (r: Self)
        ensures
            r.open(),
            r.items() == Seq::<(Seq<u8>, Seq<u8>)>::empty(),
            r.sealed_len() == 8,
    {
        Self { block_builder: DataBlockBuilder::new(restart_interval) }
    }
}

impl BlockIndexBuilder for BinarySearchIndexBuilder {
    closed spec fn items(&self) -> Seq<(Seq<u8>, Seq<u8>)> {
        self.block_builder.entries()
    }

    closed spec fn open(&self) -> bool {
        self.block_builder.wf()
    }

    closed spec fn is_index(&self, data: Seq<u8>) -> bool {
        data == data_block::sealed_block(
            self.block_builder.payload(),
            self.block_builder.restart_points(),
        )
    }

    fn add_item(&mut self, key: &[u8], ptr: &ItemPointer) -> (r: Result<(), Error>)
        ensures
            final(self).sealed_len() <= old(self).sealed_len() + key@.len() + 50,
    {
        proof {
            lemma_pointer_round_trip(*ptr);
        }
        let ptr_buf = ptr.encode();
        self.block_builder.add(key, ptr_buf.as_slice())
    }

    fn seal(&mut self) -> (r: Vec<u8>)
        ensures
            old(self).sealed_len() < 0x1_0000_0000 ==> data_block::well_formed_block(r@)
                && data_block::block_entries(r@) == old(self).items(),
            r@.len() == old(self).sealed_len(),
    {
        self.block_builder.seal()
    }

    fn reset(&mut self) {
        self.block_builder.reset();
    }
}

} // verus!

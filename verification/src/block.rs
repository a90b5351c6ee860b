//! Blocks: the units in which a table is stored.
pub mod block_rules;
pub mod data_block;
pub mod filter;
pub mod filter_policy;
pub mod filter_rules;
pub mod index;

use std::sync::Arc;
use vstd::prelude::*;

pub use crate::block::data_block::{
    DataBlockBuilder, DataBlockIterator, DataBlockReader, DataBlockView,
};
pub use crate::block::filter::{
    create_filter_block_builder, create_filter_block_reader, FilterBlockBuilder,
    FilterBlockReader,
};
pub use crate::block::filter_policy::{
    default_filter_policy, BloomFilterPolicy, FilterBitsBuilder, FilterPolicy,
};
pub use crate::block::index::{BinarySearchIndexBuilder, BlockIndexBuilder, ItemPointer};

verus! {

/// The size that a data block is closed at unless the table options say otherwise.
pub const DEFAULT_BLOCK_SIZE: usize = 4096;

/// The bytes of a block, shared between its readers.
pub struct Block(Arc<Vec<u8>>);

impl View for Block {
    type V = Seq<u8>;

    closed spec fn view(&self) -> Seq<u8> {
        self.0@
    }
}

impl Block {
    /// Makes a block of the given bytes.
    pub fn new(contents: Vec<u8>) -> (r: Self)
        ensures
            r@ == contents@,
    {
        Block(Arc::new(contents))
    }

    /// The bytes of the block.
    pub fn contents(&self) -> (r: &Arc<Vec<u8>>)
        ensures
            r@ == self@,
    {
        &self.0
    }
}

impl Clone for Block {
    fn clone(&self) -> (r: Self)
        ensures
            r@ == self@,
    {
        Block(self.0.clone())
    }
}

} // verus!

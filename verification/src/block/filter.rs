//! Filter blocks: one filter over all keys of a table.
use crate::block::filter_policy;
use crate::block::filter_policy::{
    BloomFilterPolicy, FastLocalBloomBitsBuilder, FilterBitsBuilder, FilterBitsReader,
    FilterPolicy,
};
use crate::block::Block;
use crate::error::Error;
use crate::table::BlockTableOptions;
use vstd::prelude::*;

verus! {

/// Collects the keys of a table into a filter block.
pub trait FilterBlockBuilder: Sized {
    /// The hashes of the keys that were added.
    spec fn hashes(&self) -> Seq<u64>;

    /// Whether the builder counts its keys right.
    spec fn open(&self) -> bool;

    /// Whether the filter of that many keys can be built.
    spec fn fits(&self, entries: nat) -> bool;

    /// Whether `data` is the filter block of the added keys.
    spec fn is_filter_block(&self, data: Seq<u8>) -> bool;

    /// Notes that a new data block starts at the offset.
    fn start_block(&mut self, block_offset: usize)
        ensures
            *final(self) == *old(self),
    ;

    /// Adds a key.
    fn add(&mut self, key: &[u8]) -> (r: Result<(), Error>)
        requires
            old(self).open(),
            old(self).hashes().len() < usize::MAX,
        ensures
            r is Ok,
            final(self).open(),
            final(self).hashes() == old(self).hashes().push(filter_policy::xx_hash64(key@)),
            forall|n: nat| final(self).fits(n) == old(self).fits(n),
    ;

    /// Takes the filter block out of the builder. It is empty where no key was added.
    fn seal(&mut self) -> (r: Vec<u8>)
        requires
            old(self).open(),
            old(self).fits(old(self).hashes().len()),
        ensures
            old(self).is_filter_block(r@),
    ;
}

/// Looks keys up in a filter block.
pub trait FilterBlockReader {
    /// Whether the block can be read.
    spec fn readable(&self) -> bool;

    /// Whether a key with the given hash matches.
    spec fn matches(&self, hash: u64) -> bool;

    /// Whether the table may have the key.
    fn key_may_match(&self, key: &[u8]) -> (r: bool)
        requires
            self.readable(),
        ensures
            r == self.matches(filter_policy::xx_hash64(key@)),
    ;
}

/// A filter over all keys of a table.
pub struct FullFilterBlockBuilder {
    filter_bits_builder: FastLocalBloomBitsBuilder,
    num_added: usize,
}

impl FullFilterBlockBuilder {
    /// The bits per key, in thousandths.
    pub closed spec fn millibits(self) -> nat {
        self.filter_bits_builder.millibits()
    }

    fn new(filter_bits_builder: FastLocalBloomBitsBuilder) -> (r: Self)
        requires
            filter_bits_builder.hashes().len() == 0,
        ensures
            r.open(),
            r.millibits() == filter_bits_builder.millibits(),
            r.hashes() == Seq::<u64>::empty(),
    {
        proof {
            assert(filter_bits_builder.hashes() =~= Seq::<u64>::empty());
        }
        Self { filter_bits_builder, num_added: 0 }
    }
}

impl FilterBlockBuilder for FullFilterBlockBuilder {
    closed spec fn hashes(&self) -> Seq<u64> {
        self.filter_bits_builder.hashes()
    }

    closed spec fn open(&self) -> bool {
        self.num_added == self.filter_bits_builder.hashes().len()
    }

    open spec fn fits(&self, entries: nat) -> bool {
        entries * self.millibits() + 511999 <= usize::MAX
    }

    open spec fn is_filter_block(&self, data: Seq<u8>) -> bool {
        if self.hashes().len() > 0 {
            filter_policy::is_bloom_filter(data, self.hashes(), self.millibits())
        } else {
            data.len() == 0
        }
    }

    fn start_block(&mut self, _block_offset: usize) {
    }

    fn add(&mut self, key: &[u8]) -> (r: Result<(), Error>)
        ensures
            final(self).millibits() == old(self).millibits(),
    {
        self.filter_bits_builder.add_key(key);
        self.num_added = self.num_added + 1;
        Ok(())
    }

    fn seal(&mut self) -> (r: Vec<u8>)
        ensures
            final(self).millibits() == old(self).millibits(),
    {
        if self.num_added > 0 {
            self.filter_bits_builder.seal()
        } else {
            Vec::new()
        }
    }
}

/// Reads a filter over all keys of a table.
pub struct FullFilterBlockReader {
    policy: BloomFilterPolicy,
    block: Block,
}

impl FullFilterBlockReader {
    /// The bytes of the filter.
    pub closed spec fn filter(self) -> Seq<u8> {
        self.block@
    }

    fn new(policy: BloomFilterPolicy, block: Block) -> (r: Self)
        ensures
            r.filter() == block@,
    {
        Self { policy, block }
    }
}

impl FilterBlockReader for FullFilterBlockReader {
    open spec fn readable(&self) -> bool {
        filter_policy::probeable(self.filter())
    }

    open spec fn matches(&self, hash: u64) -> bool {
        filter_policy::filter_matches(self.filter(), hash)
    }

    fn key_may_match(&self, key: &[u8]) -> (r: bool) {
        let filter_bits_reader = self.policy.get_filter_bits_reader(
            self.block.contents().as_slice(),
        );
        filter_bits_reader.may_match(key)
    }
}

/// A builder of the filter block that the options ask for.
pub fn create_filter_block_builder(opts: &BlockTableOptions) -> (r: FullFilterBlockBuilder)
    ensures
        r.open(),
        r.hashes() == Seq::<u64>::empty(),
        r.millibits() == opts.filter_policy.millibits_per_key,
{
    let filter_bits_builder = opts.filter_policy.get_filter_bits_builder();
    FullFilterBlockBuilder::new(filter_bits_builder)
}

/// A reader of a filter block that was built with the options.
pub fn create_filter_block_reader(
    opts: &BlockTableOptions,
    block: Block,
) -> (r: FullFilterBlockReader)
    ensures
        r.filter() == block@,
{
    FullFilterBlockReader::new(opts.filter_policy, block)
}

} // verus!

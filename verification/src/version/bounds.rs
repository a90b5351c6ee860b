//! Tells whether a table of some entries can be built before any of it is written.
use crate::table::block_table;
use crate::table::BlockTableFactory;
use crate::version::outputs;
use vstd::prelude::*;

verus! {

/// Whether the offsets of a block with any of the entries fit in four bytes.
spec fn all_small(block_size: nat, entries: Seq<(Seq<u8>, Seq<u8>)>) -> bool {
    forall|i: int|
        0 <= i < entries.len() ==> block_table::entry_fits(
            block_size,
            (#[trigger] entries[i]).0,
            entries[i].1,
        )
}

proof fn lemma_all_small(
    block_size: nat,
    entries: Seq<(Seq<u8>, Seq<u8>)>,
    e: (Seq<u8>, Seq<u8>),
)
    ensures
        all_small(block_size, entries.push(e)) == (all_small(block_size, entries)
            && block_table::entry_fits(block_size, e.0, e.1)),
{
    let now = entries.push(e);
    assert(now[entries.len() as int] == e);
    assert forall|i: int| 0 <= i < entries.len() implies now[i] == #[trigger] entries[i] by {}
    if all_small(block_size, now) {
        assert forall|i: int| 0 <= i < entries.len() implies block_table::entry_fits(
            block_size,
            (#[trigger] entries[i]).0,
            entries[i].1,
        ) by {
            assert(now[i] == entries[i]);
        }
    }
}

/// Adds up what the entries of a table take.
pub struct TableBounds {
    factory: BlockTableFactory,
    data: u128,
    index: u128,
    count: u128,
    over: bool,
    small: bool,
    entries: Ghost<Seq<(Seq<u8>, Seq<u8>)>>,
}

impl TableBounds {
    /// What the table is to be built with.
    pub closed spec fn made_for(self) -> BlockTableFactory {
        self.factory
    }

    /// The entries so far.
    pub closed spec fn entries(self) -> Seq<(Seq<u8>, Seq<u8>)> {
        self.entries@
    }

    /// The sums are right, unless they are out of range.
    pub closed spec fn wf(self) -> bool {
        &&& self.over ==> block_table::data_bound(self.entries@) > usize::MAX
        &&& !self.over ==> {
            &&& self.data == block_table::data_bound(self.entries@)
            &&& self.data <= usize::MAX
            &&& self.index == block_table::index_bound(self.entries@)
            &&& self.index <= self.data
            &&& self.count == self.entries@.len()
            &&& self.count <= self.data
        }
        &&& self.small == all_small(
            self.factory.table_options().block_size as nat,
            self.entries@,
        )
    }

    pub fn new(factory: BlockTableFactory) -> (r: Self)
        ensures
            r.wf(),
            r.made_for() == factory,
            r.entries() == Seq::<(Seq<u8>, Seq<u8>)>::empty(),
    {
        TableBounds {
            factory,
            data: 8,
            index: 8,
            count: 0,
            over: false,
            small: true,
            entries: Ghost(Seq::empty()),
        }
    }

    /// Adds an entry.
    pub fn add(&mut self, key: &[u8], value: &[u8])
        requires
            old(self).wf(),
        ensures
            final(self).wf(),
            final(self).made_for() == old(self).made_for(),
            final(self).entries() == old(self).entries().push((key@, value@)),
    {
        let ghost before = self.entries@;
        let ghost now = before.push((key@, value@));
        let k = key.len() as u128;
        let v = value.len() as u128;
        let block_size = self.factory.options().block_size as u128;
        proof {
            assert(now.drop_last() =~= before);
            lemma_all_small(
                self.factory.table_options().block_size as nat,
                before,
                (key@, value@),
            );
        }
        self.small = self.small && block_size + k + v + 64 <= u32::MAX as u128;
        if !self.over {
            self.data = self.data + k + v + 64;
            self.index = self.index + k + 64;
            self.count = self.count + 1;
            self.over = self.data > usize::MAX as u128;
        }
        self.entries = Ghost(now);
    }

    /// Whether a table of the entries can be built.
    pub fn fits(&self) -> (r: bool)
        requires
            self.wf(),
        ensures
            r == outputs::buildable(self.made_for(), self.entries()),
    {
        let millibits = self.factory.options().filter_policy.millibits_per_key as u128;
        if self.over || !self.small || millibits == 0 {
            return false;
        }
        proof {
            let n = self.count as int;
            let m = millibits as int;
            assert(0 <= n * m <= 0xffff_ffff_ffff_ffff * 0xffff_ffff_ffff_ffff)
                by (nonlinear_arith)
                requires
                    0 <= n <= 0xffff_ffff_ffff_ffff,
                    0 <= m <= 0xffff_ffff_ffff_ffff,
            ;
        }
        let bits = self.count * millibits + 511999;
        if bits > usize::MAX as u128 || self.index > u32::MAX as u128 {
            return false;
        }
        let filter = if self.count > 0 {
            bits / 512000 * 64
        } else {
            0
        };
        self.data + self.index + filter + 64 <= usize::MAX as u128
    }
}

} // verus!

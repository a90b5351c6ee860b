//! What a store is opened with.
use crate::table::{default_table_factory, BlockTableFactory, TableFileRef};
use crate::wal::segment::WalSyncMethod;
use crate::wal::WalOptions;
use vstd::arithmetic::power::lemma_pow0;
use vstd::arithmetic::power::lemma_pow1;
use vstd::arithmetic::power::lemma_pow_adds;
use vstd::prelude::*;

verus! {

/// The directory of a store that is given none.
pub const DEFAULT_ROOT_PATH: &'static str = "kagidb";

/// The directory of the table files, in that of the store.
pub const STORAGE_PATH: &'static str = "base";

/// The directory of the log, in that of the store.
pub const WAL_PATH: &'static str = "wal";

/// The directory of the transaction statuses, in that of the store.
pub const TRANSACTION_PATH: &'static str = "txn";

/// The file that says where the last checkpoint is, in the directory of the store.
pub const MANIFEST_PATH: &'static str = "kg_manifest";

/// What a store is opened with.
#[derive(Clone, Copy)]
pub struct DbOptions {
    pub wal_options: WalOptions,
    pub background_threads: usize,
    pub max_background_flushes: usize,
    pub max_background_compactions: usize,
    pub write_buffer_size: usize,
    pub gc_freeze_min_age: usize,
    pub num_levels: usize,
    pub max_open_files: usize,
    pub level0_file_num_compaction_trigger: usize,
    pub max_bytes_for_level_base: usize,
    pub max_bytes_for_level_multiplier: usize,
    pub target_file_size_base: usize,
    pub target_file_size_multiplier: usize,
    pub table_factory: BlockTableFactory,
}

impl Default for DbOptions {
    fn default() -> (r: Self)
        ensures
            r.is_default(),
    {
        DbOptions {
            wal_options: WalOptions::new(),
            background_threads: 24,
            max_background_flushes: 20,
            max_background_compactions: 4,
            write_buffer_size: 200000,
            gc_freeze_min_age: 100000,
            num_levels: 6,
            max_open_files: 100,
            level0_file_num_compaction_trigger: 4,
            max_bytes_for_level_base: 0x10000000,
            max_bytes_for_level_multiplier: 10,
            target_file_size_base: 0x10000000,
            target_file_size_multiplier: 1,
            table_factory: default_table_factory(),
        }
    }
}

/// A number to the power of another, where it fits.
fn power(base: usize, exponent: usize) -> (r: usize)
    requires
        vstd::arithmetic::power::pow(base as int, exponent as nat) <= usize::MAX,
        base > 0,
    ensures
        r == vstd::arithmetic::power::pow(base as int, exponent as nat),
{
    let mut r: usize = 1;
    let mut i: usize = 0;
    proof {
        lemma_pow0(base as int);
    }
    while i < exponent
        invariant
            i <= exponent,
            base > 0,
            r == vstd::arithmetic::power::pow(base as int, i as nat),
            vstd::arithmetic::power::pow(base as int, exponent as nat) <= usize::MAX,
        decreases exponent - i,
    {
        proof {
            lemma_pow_adds(base as int, i as nat, 1);
            lemma_pow1(base as int);
            vstd::arithmetic::power::lemma_pow_increases(
                base as nat,
                (i + 1) as nat,
                exponent as nat,
            );
        }
        r = r * base;
        i = i + 1;
    }
    r
}

/// A size that grows with the level: `base` times a power of `multiplier`.
pub open spec fn scaled(base: nat, multiplier: nat, level: nat) -> int {
    base * vstd::arithmetic::power::pow(multiplier as int, level)
}

fn scale(base: usize, multiplier: usize, level: usize) -> (r: usize)
    requires
        vstd::arithmetic::power::pow(multiplier as int, level as nat) <= usize::MAX,
        scaled(base as nat, multiplier as nat, level as nat) <= usize::MAX,
    ensures
        r == scaled(base as nat, multiplier as nat, level as nat),
{
    if multiplier == 0 {
        proof {
            reveal(vstd::arithmetic::power::pow);
            let p = vstd::arithmetic::power::pow(0, level as nat);
            assert(p == if level == 0 {
                1int
            } else {
                0int
            });
            assert(base * p == if level == 0 {
                base as int
            } else {
                0int
            }) by (nonlinear_arith)
                requires
                    p == if level == 0 {
                        1int
                    } else {
                        0int
                    },
            ;
        }
        return if level == 0 {
            base
        } else {
            0
        };
    }
    base * power(multiplier, level)
}

impl DbOptions {
    /// What a store is opened with unless it is told otherwise.
    pub open spec fn is_default(self) -> bool {
        &&& self.wal_options.segment_capacity == 0x100_0000
        &&& self.wal_options.wal_sync_method == WalSyncMethod::SyncData
        &&& self.background_threads == 24
        &&& self.max_background_flushes == 20
        &&& self.max_background_compactions == 4
        &&& self.write_buffer_size == 200000
        &&& self.gc_freeze_min_age == 100000
        &&& self.num_levels == 6
        &&& self.max_open_files == 100
        &&& self.level0_file_num_compaction_trigger == 4
        &&& self.max_bytes_for_level_base == 0x10000000
        &&& self.max_bytes_for_level_multiplier == 10
        &&& self.target_file_size_base == 0x10000000
        &&& self.target_file_size_multiplier == 1
        &&& self.table_factory.table_options().block_size == 4096
        &&& self.table_factory.table_options().block_restart_interval == 16
        &&& self.table_factory.table_options().filter_policy.millibits_per_key == 10000
    }

    pub fn new() -> (r: Self)
        ensures
            r.is_default(),
    {
        DbOptions::default()
    }

    pub fn wal_segment_capacity(self, segment_capacity: usize) -> (r: Self)
        ensures
            r.wal_options.segment_capacity == segment_capacity,
            r.wal_options.wal_sync_method == self.wal_options.wal_sync_method,
            r == (DbOptions { wal_options: r.wal_options, ..self }),
    {
        DbOptions { wal_options: self.wal_options.segment_capacity(segment_capacity), ..self }
    }

    /// Whether the sizes of a level can be told.
    pub open spec fn level_fits(self, level: nat) -> bool {
        &&& vstd::arithmetic::power::pow(self.max_bytes_for_level_multiplier as int, level)
            <= usize::MAX
        &&& vstd::arithmetic::power::pow(self.target_file_size_multiplier as int, level)
            <= usize::MAX
        &&& self.max_bytes(level) <= usize::MAX
        &&& self.max_file_size(level) <= usize::MAX
    }

    /// The size from which a table file of a level is closed.
    pub open spec fn max_file_size(self, level: nat) -> int {
        scaled(
            self.target_file_size_base as nat,
            self.target_file_size_multiplier as nat,
            level,
        )
    }

    /// The size from which a level is compacted.
    pub open spec fn max_bytes(self, level: nat) -> int {
        scaled(
            self.max_bytes_for_level_base as nat,
            self.max_bytes_for_level_multiplier as nat,
            level,
        )
    }

    /// The size from which a table file of a level is closed.
    pub fn max_file_size_for_level(&self, level: usize) -> (r: usize)
        requires
            self.level_fits(level as nat),
        ensures
            r == self.max_file_size(level as nat),
    {
        scale(self.target_file_size_base, self.target_file_size_multiplier, level)
    }

    /// The size from which a level is compacted.
    pub fn max_bytes_for_level(&self, level: usize) -> (r: usize)
        requires
            self.level_fits(level as nat),
        ensures
            r == self.max_bytes(level as nat),
    {
        scale(self.max_bytes_for_level_base, self.max_bytes_for_level_multiplier, level)
    }

    pub fn background_threads(self, to: usize) -> (r: Self)
        ensures
            r == (DbOptions { background_threads: to, ..self }),
    {
        DbOptions { background_threads: to, ..self }
    }

    pub fn max_background_flushes(self, to: usize) -> (r: Self)
        ensures
            r == (DbOptions { max_background_flushes: to, ..self }),
    {
        DbOptions { max_background_flushes: to, ..self }
    }

    pub fn max_background_compactions(self, to: usize) -> (r: Self)
        ensures
            r == (DbOptions { max_background_compactions: to, ..self }),
    {
        DbOptions { max_background_compactions: to, ..self }
    }

    pub fn write_buffer_size(self, to: usize) -> (r: Self)
        ensures
            r == (DbOptions { write_buffer_size: to, ..self }),
    {
        DbOptions { write_buffer_size: to, ..self }
    }

    pub fn gc_freeze_min_age(self, to: usize) -> (r: Self)
        ensures
            r == (DbOptions { gc_freeze_min_age: to, ..self }),
    {
        DbOptions { gc_freeze_min_age: to, ..self }
    }

    pub fn num_levels(self, to: usize) -> (r: Self)
        ensures
            r == (DbOptions { num_levels: to, ..self }),
    {
        DbOptions { num_levels: to, ..self }
    }

    pub fn level0_file_num_compaction_trigger(self, to: usize) -> (r: Self)
        ensures
            r == (DbOptions { level0_file_num_compaction_trigger: to, ..self }),
    {
        DbOptions { level0_file_num_compaction_trigger: to, ..self }
    }

    pub fn max_bytes_for_level_base(self, to: usize) -> (r: Self)
        ensures
            r == (DbOptions { max_bytes_for_level_base: to, ..self }),
    {
        DbOptions { max_bytes_for_level_base: to, ..self }
    }

    pub fn max_bytes_for_level_multiplier(self, to: usize) -> (r: Self)
        ensures
            r == (DbOptions { max_bytes_for_level_multiplier: to, ..self }),
    {
        DbOptions { max_bytes_for_level_multiplier: to, ..self }
    }

    pub fn target_file_size_base(self, to: usize) -> (r: Self)
        ensures
            r == (DbOptions { target_file_size_base: to, ..self }),
    {
        DbOptions { target_file_size_base: to, ..self }
    }

    pub fn target_file_size_multiplier(self, to: usize) -> (r: Self)
        ensures
            r == (DbOptions { target_file_size_multiplier: to, ..self }),
    {
        DbOptions { target_file_size_multiplier: to, ..self }
    }
}

/// The decimal digits of a number, at least one.
pub open spec fn decimal(n: nat) -> Seq<u8>
    decreases n,
{
    if n < 10 {
        seq![(48 + n) as u8]
    } else {
        decimal(n / 10).push((48 + n % 10) as u8)
    }
}

/// A number in decimal, filled up with zeros in front to a width.
pub open spec fn padded(n: nat, width: nat) -> Seq<u8> {
    let digits = decimal(n);
    if digits.len() < width {
        Seq::new((width - digits.len()) as nat, |i: int| 48u8) + digits
    } else {
        digits
    }
}

/// The name of the file of a table, in the directory of the table files.
pub open spec fn table_name(file_ref: TableFileRef) -> Seq<u8> {
    padded(file_ref.0 as nat, 3) + padded(file_ref.1 as nat, 10) + seq![46u8, 115, 115, 116]
}

fn write_decimal(out: &mut Vec<u8>, n: usize, width: usize)
    requires
        width <= 32,
    ensures
        final(out)@ == old(out)@ + padded(n as nat, width as nat),
{
    let mut digits: Vec<u8> = Vec::new();
    let mut rest: usize = n;
    proof {
        assert(digits@.reverse() =~= Seq::<u8>::empty());
        assert(decimal(n as nat) =~= decimal(n as nat) + digits@.reverse());
    }
    while rest >= 10
        invariant
            decimal(n as nat) == decimal(rest as nat) + digits@.reverse(),
        decreases rest,
    {
        let ghost before = digits@;
        let ghost m = rest as nat;
        digits.push((48 + rest % 10) as u8);
        rest = rest / 10;
        proof {
            assert(digits@.reverse() =~= seq![(48 + m % 10) as u8] + before.reverse());
            assert(decimal(m) + before.reverse() =~= decimal(rest as nat) + digits@.reverse());
        }
    }
    let ghost before = digits@;
    digits.push((48 + rest) as u8);
    proof {
        assert(digits@.reverse() =~= decimal(rest as nat) + before.reverse());
    }
    let size: usize = digits.len();
    let ghost start = out@;
    let mut have: usize = size;
    let ghost fill = if size < width {
        Seq::new((width - size) as nat, |i: int| 48u8)
    } else {
        Seq::empty()
    };
    proof {
        assert(out@ =~= start + fill.take(0));
    }
    while have < width
        invariant
            size <= have,
            size < width ==> have <= width,
            size >= width ==> have == size,
            width <= 32,
            fill == if size < width {
                Seq::new((width - size) as nat, |i: int| 48u8)
            } else {
                Seq::empty()
            },
            out@ == start + fill.take(have - size),
        decreases width - have,
    {
        out.push(48);
        proof {
            assert(fill.take(have + 1 - size) =~= fill.take(have - size).push(48u8));
            assert(out@ =~= start + fill.take(have + 1 - size));
        }
        have = have + 1;
    }
    proof {
        assert(fill.take(fill.len() as int) =~= fill);
    }
    let ghost front = out@;
    let ghost all = digits@.reverse();
    let mut i: usize = size;
    proof {
        assert(out@ =~= front + all.take(0));
    }
    while i > 0
        invariant
            i <= size,
            size == digits@.len(),
            all == digits@.reverse(),
            out@ == front + all.take(size - i),
        decreases i,
    {
        i = i - 1;
        out.push(digits[i]);
        proof {
            assert(all[size - i - 1] == digits@[i as int]);
            assert(all.take(size - i) =~= all.take(size - i - 1).push(digits@[i as int]));
            assert(out@ =~= front + all.take(size - i));
        }
    }
    proof {
        assert(all.take(size as int) =~= all);
        assert(decimal(n as nat) =~= all);
        assert(out@ =~= start + padded(n as nat, width as nat));
    }
}

/// The name of the file of a table, in the directory of the table files.
pub fn table_file_name(file_ref: TableFileRef) -> (r: Vec<u8>)
    ensures
        r@ == table_name(file_ref),
{
    let (path_id, seqnum) = file_ref.path_id_seqnum();
    let mut name: Vec<u8> = Vec::new();
    write_decimal(&mut name, path_id, 3);
    write_decimal(&mut name, seqnum, 10);
    name.push(46);
    name.push(115);
    name.push(115);
    name.push(116);
    proof {
        assert(name@ =~= table_name(file_ref));
    }
    name
}

} // verus!

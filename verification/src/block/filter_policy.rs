//! Filter policies: how the keys of a table are condensed into a filter.
//!
//! The bloom filter here is local: all bits of one key lie in one line of 64 bytes, which the low
//! half of the key's hash picks. The high half picks the bits.
use crate::block::data_block::low_u32;
use fasthash::xx;
use vstd::prelude::*;

verus! {

/// The bytes at the end of a filter that are not bits: the number of probes.
pub const FAST_LOCAL_BLOOM_FILTER_METADATA_SIZE: usize = 1;

/// What a hash is multiplied with to get from one probe to the next.
pub const FAST_LOCAL_BLOOM_FILTER_STEP: u32 = 0x9e3779b9;

/// The 64-bit xxHash of a byte string, with seed 0.
pub uninterp spec fn xx_hash64(key: Seq<u8>) -> u64;

/// Calls `fasthash::xx::hash64`, the 64-bit xxHash with seed 0, which depends on the bytes alone.
#[verifier::external_body]
pub(crate) fn hash64(key: &[u8]) -> (r: u64)
    ensures
        r == xx_hash64(key@),
{
    xx::hash64(key)
}

/// Whether bit `p` of `data` is set.
pub open spec fn bit_set(data: Seq<u8>, p: int) -> bool {
    data[p / 8] & (1u8 << ((p % 8) as u8)) != 0
}

/// The offset of the line that a hash picks among `len` bytes.
pub open spec fn line_offset(h1: nat, len: nat) -> nat {
    (h1 * (len / 64) / 0x1_0000_0000) * 64
}

/// The hash after `k` steps.
pub open spec fn stepped(h: nat, k: nat) -> nat
    decreases k,
{
    if k == 0 {
        h
    } else {
        stepped(h * 0x9e3779b9 % 0x1_0000_0000, (k - 1) as nat)
    }
}

/// The bit of its line that the `k`-th probe of a hash looks at.
pub open spec fn probe_bit(h2: nat, k: nat) -> nat {
    stepped(h2, k) / 0x80_0000
}

/// The low half of a hash.
pub open spec fn low_half(hash: u64) -> nat {
    hash as nat % 0x1_0000_0000
}

/// The high half of a hash.
pub open spec fn high_half(hash: u64) -> nat {
    hash as nat / 0x1_0000_0000
}

/// The bit that the `k`-th probe of a hash looks at among `len` bytes.
pub open spec fn hash_bit(hash: u64, len: nat, k: nat) -> int {
    8 * line_offset(low_half(hash), len) + probe_bit(high_half(hash), k) as int
}

/// Whether one of the first `probes` probes of a hash looks at bit `p`.
pub open spec fn hash_touches(hash: u64, len: nat, probes: nat, p: int) -> bool {
    exists|k: nat| k < probes && p == #[trigger] hash_bit(hash, len, k)
}

/// Whether one of the hashes touches bit `p`.
pub open spec fn any_touches(hashes: Seq<u64>, len: nat, probes: nat, p: int) -> bool {
    exists|i: int| 0 <= i < hashes.len() && #[trigger] hash_touches(hashes[i], len, probes, p)
}

/// The number of probes for a number of bits per key, given in thousandths.
pub open spec fn num_probes_for(millibits: nat) -> nat {
    if millibits <= 2080 {
        1
    } else if millibits <= 3580 {
        2
    } else if millibits <= 5100 {
        3
    } else if millibits <= 6640 {
        4
    } else if millibits <= 8300 {
        5
    } else if millibits <= 10070 {
        6
    } else if millibits <= 11720 {
        7
    } else if millibits <= 14001 {
        8
    } else if millibits <= 16050 {
        9
    } else if millibits <= 18300 {
        10
    } else if millibits <= 22001 {
        11
    } else if millibits <= 25501 {
        12
    } else if millibits > 50000 {
        24
    } else {
        ((millibits - 1) / 2000 - 1) as nat
    }
}

/// The number of bytes that hold the bits of `entries` keys.
pub open spec fn bits_len(millibits: nat, entries: nat) -> nat {
    if millibits > 0 && entries > 0 {
        (entries * millibits + 511999) / 512000 * 64
    } else {
        0
    }
}

/// Whether `data` is the filter of the given hashes: exactly the bits that one of them touches are
/// set, and the number of probes follows.
pub open spec fn is_bloom_filter(data: Seq<u8>, hashes: Seq<u64>, millibits: nat) -> bool {
    let len = bits_len(millibits, hashes.len());
    &&& data.len() == len + 1
    &&& data[len as int] == num_probes_for(millibits)
    &&& forall|p: int|
        0 <= p < 8 * len ==> (#[trigger] bit_set(data, p) <==> any_touches(
            hashes,
            len % 0x1_0000_0000,
            num_probes_for(millibits),
            p,
        ))
}

/// Whether every probe of a hash finds its bit set in `bits`.
pub open spec fn bits_match(bits: Seq<u8>, probes: nat, hash: u64) -> bool {
    forall|k: nat|
        k < probes ==> bit_set(
            bits,
            #[trigger] hash_bit(hash, bits.len() % 0x1_0000_0000, k),
        )
}

/// Whether a filter says that a key with the given hash may have been added.
pub open spec fn filter_matches(data: Seq<u8>, hash: u64) -> bool {
    bits_match(data.drop_last(), data.last() as nat, hash)
}

/// Whether a filter can be probed: it has a line of bits, unless there is nothing to probe.
pub open spec fn probeable(data: Seq<u8>) -> bool {
    data.len() >= 1 && (data.last() > 0 ==> data.len() >= 65)
}

proof fn lemma_line_offset(h1: nat, len: nat)
    requires
        h1 < 0x1_0000_0000,
        len >= 64,
    ensures
        line_offset(h1, len) + 64 <= len,
        h1 * (len / 64) / 0x1_0000_0000 < len / 64,
{
    let n = len / 64;
    assert(h1 * n < 0x1_0000_0000 * n) by (nonlinear_arith)
        requires
            h1 < 0x1_0000_0000,
            n >= 1,
    ;
    assert(h1 * n / 0x1_0000_0000 < n);
}

proof fn lemma_line_in_range(h1: nat, len: nat)
    requires
        h1 < 0x1_0000_0000,
        len >= 64,
    ensures
        line_offset(h1, len % 0x1_0000_0000) + 64 <= len,
{
    let len32 = len % 0x1_0000_0000;
    if len32 >= 64 {
        lemma_line_offset(h1, len32);
    } else {
        assert(len32 / 64 == 0);
        assert(h1 * 0 == 0);
    }
}

proof fn lemma_stepped(h: nat, k: nat)
    requires
        h < 0x1_0000_0000,
    ensures
        stepped(h, k) < 0x1_0000_0000,
        probe_bit(h, k) < 512,
        stepped(h, k + 1) == stepped(h, k) * 0x9e3779b9 % 0x1_0000_0000,
    decreases k,
{
    reveal_with_fuel(stepped, 3);
    if k > 0 {
        lemma_stepped(h * 0x9e3779b9 % 0x1_0000_0000, (k - 1) as nat);
    }
}

/// Whether bits are those of another filter with the first `probes` probes of a hash set in the
/// line at an offset.
pub open spec fn line_added(
    before: Seq<u8>,
    after: Seq<u8>,
    h2: nat,
    probes: nat,
    offset: int,
) -> bool {
    &&& after.len() == before.len()
    &&& forall|p: int|
        0 <= p < 8 * before.len() ==> (#[trigger] bit_set(after, p) <==> bit_set(before, p)
            || exists|k: nat| k < probes && p == 8 * offset + #[trigger] probe_bit(h2, k))
}

/// Whether the first `probes` probes of a hash are set in the line at an offset.
pub open spec fn line_matches(data: Seq<u8>, h2: nat, probes: nat, offset: int) -> bool {
    forall|k: nat| k < probes ==> bit_set(data, 8 * offset + #[trigger] probe_bit(h2, k))
}

/// A hash that was added to a line matches it.
pub proof fn lemma_added_matches(
    before: Seq<u8>,
    after: Seq<u8>,
    h2: u32,
    probes: nat,
    offset: int,
)
    requires
        0 <= offset <= before.len() - 64,
        line_added(before, after, h2 as nat, probes, offset),
    ensures
        line_matches(after, h2 as nat, probes, offset),
{
    assert forall|k: nat| k < probes implies bit_set(
        after,
        8 * offset + #[trigger] probe_bit(h2 as nat, k),
    ) by {
        lemma_stepped(h2 as nat, k);
        let p = 8 * offset + probe_bit(h2 as nat, k);
        assert(bit_set(after, p) <==> bit_set(before, p) || exists|j: nat|
            j < probes && p == 8 * offset + #[trigger] probe_bit(h2 as nat, j));
    }
}

/// What matched a line before a hash was added to some line still matches it.
pub proof fn lemma_matches_stay(
    before: Seq<u8>,
    after: Seq<u8>,
    h2: u32,
    probes: nat,
    offset: int,
    other: u32,
    other_probes: nat,
    other_offset: int,
)
    requires
        0 <= other_offset <= before.len() - 64,
        line_added(before, after, h2 as nat, probes, offset),
        line_matches(before, other as nat, other_probes, other_offset),
    ensures
        line_matches(after, other as nat, other_probes, other_offset),
{
    assert forall|k: nat| k < other_probes implies bit_set(
        after,
        8 * other_offset + #[trigger] probe_bit(other as nat, k),
    ) by {
        lemma_stepped(other as nat, k);
        assert(bit_set(before, 8 * other_offset + probe_bit(other as nat, k)));
    }
}

/// A line of zeros is matched by a hash without probes, and by no other.
pub proof fn lemma_empty_line(data: Seq<u8>, h2: u32, probes: nat, offset: int)
    requires
        0 <= offset <= data.len() - 64,
        forall|i: int| offset <= i < offset + 64 ==> #[trigger] data[i] == 0,
    ensures
        line_matches(data, h2 as nat, probes, offset) <==> probes == 0,
{
    if probes > 0 {
        lemma_stepped(h2 as nat, 0);
        let p = 8 * offset + probe_bit(h2 as nat, 0);
        let mask: u8 = 1u8 << ((p % 8) as u8);
        assert(0u8 & mask == 0) by (bit_vector);
        assert(data[p / 8] == 0);
        assert(!bit_set(data, p));
    }
}

/// Every key that was added to a bloom filter matches it.
pub proof fn lemma_no_false_negatives(data: Seq<u8>, hashes: Seq<u64>, millibits: nat, i: int)
    requires
        is_bloom_filter(data, hashes, millibits),
        0 <= i < hashes.len(),
        0 < millibits,
    ensures
        probeable(data),
        filter_matches(data, hashes[i]),
{
    let len = bits_len(millibits, hashes.len());
    let probes = num_probes_for(millibits);
    let bits = data.drop_last();
    assert(hashes.len() * millibits >= 1) by (nonlinear_arith)
        requires
            hashes.len() >= 1,
            millibits >= 1,
    ;
    assert(len >= 64);
    assert forall|k: nat| k < probes implies bit_set(
        bits,
        #[trigger] hash_bit(hashes[i], bits.len() % 0x1_0000_0000, k),
    ) by {
        let len32 = len % 0x1_0000_0000;
        let p = hash_bit(hashes[i], len32, k);
        lemma_line_in_range(low_half(hashes[i]), len);
        lemma_stepped(high_half(hashes[i]), k);
        assert(hash_touches(hashes[i], len32, probes, p));
        assert(any_touches(hashes, len32, probes, p));
        assert(bit_set(data, p));
        assert(data[p / 8] == bits[p / 8]);
    }
}

/// Collects keys into a filter.
pub trait FilterBitsBuilder {
    /// The hashes of the keys that were added.
    spec fn hashes(&self) -> Seq<u64>;

    /// Whether the filter of that many keys can be built.
    spec fn fits(&self, entries: nat) -> bool;

    /// Whether `data` is the filter of the added keys.
    spec fn is_filter(&self, data: Seq<u8>) -> bool;

    /// Adds a key.
    fn add_key(&mut self, key: &[u8])
        ensures
            final(self).hashes() == old(self).hashes().push(xx_hash64(key@)),
            forall|n: nat| final(self).fits(n) == old(self).fits(n),
    ;

    /// Takes the filter of the added keys out of the builder.
    fn seal(&mut self) -> (r: Vec<u8>)
        requires
            old(self).fits(old(self).hashes().len()),
        ensures
            old(self).is_filter(r@),
    ;
}

/// Looks keys up in a filter.
pub trait FilterBitsReader {
    /// Whether the filter can be read.
    spec fn readable(&self) -> bool;

    /// Whether a key with the given hash matches.
    spec fn matches(&self, hash: u64) -> bool;

    /// Whether the key may have been added to the filter.
    fn may_match(&self, key: &[u8]) -> (r: bool)
        requires
            self.readable(),
        ensures
            r == self.matches(xx_hash64(key@)),
    ;
}

/// Makes the builders and readers of one kind of filter.
pub trait FilterPolicy {
    type Builder: FilterBitsBuilder;

    type Reader<'a>: FilterBitsReader;

    /// Whether `data` has the form of a filter.
    spec fn well_formed(&self, data: Seq<u8>) -> bool;

    /// Whether a key with the given hash matches the filter `data`.
    spec fn matches(&self, data: Seq<u8>, hash: u64) -> bool;

    fn get_filter_bits_builder(&self) -> (r: Self::Builder)
        ensures
            r.hashes() == Seq::<u64>::empty(),
    ;

    fn get_filter_bits_reader<'a>(&self, data: &'a [u8]) -> (r: Self::Reader<'a>)
        requires
            self.well_formed(data@),
        ensures
            r.readable(),
            forall|h: u64| #[trigger] r.matches(h) == self.matches(data@, h),
    ;
}

/// Builds a local bloom filter.
pub struct FastLocalBloomBitsBuilder {
    millibits_per_key: usize,
    num_probes: usize,
    hash_entries: Vec<u64>,
}

impl FastLocalBloomBitsBuilder {
    /// The bits per key, in thousandths.
    pub closed spec fn millibits(self) -> nat {
        self.millibits_per_key as nat
    }

    /// The number of probes is the one for the bits per key.
    #[verifier::type_invariant]
    spec fn wf(self) -> bool {
        self.num_probes == num_probes_for(self.millibits_per_key as nat)
    }

    fn new(millibits_per_key: usize) -> (r: Self)
        ensures
            r.millibits() == millibits_per_key,
            r.hashes() == Seq::<u64>::empty(),
    {
        Self {
            millibits_per_key,
            num_probes: Self::choose_num_probes(millibits_per_key),
            hash_entries: Vec::with_capacity(1024),
        }
    }

    fn choose_num_probes(millibits_per_key: usize) -> (r: usize)
        ensures
            r == num_probes_for(millibits_per_key as nat),
            1 <= r <= 24,
    {
        if millibits_per_key <= 2080 {
            1
        } else if millibits_per_key <= 3580 {
            2
        } else if millibits_per_key <= 5100 {
            3
        } else if millibits_per_key <= 6640 {
            4
        } else if millibits_per_key <= 8300 {
            5
        } else if millibits_per_key <= 10070 {
            6
        } else if millibits_per_key <= 11720 {
            7
        } else if millibits_per_key <= 14001 {
            8
        } else if millibits_per_key <= 16050 {
            9
        } else if millibits_per_key <= 18300 {
            10
        } else if millibits_per_key <= 22001 {
            11
        } else if millibits_per_key <= 25501 {
            12
        } else if millibits_per_key > 50000 {
            24
        } else {
            (millibits_per_key - 1) / 2000 - 1
        }
    }

    fn calculate_space(&self, entries: usize) -> (r: usize)
        requires
            entries * self.millibits() + 511999 <= usize::MAX,
        ensures
            r == bits_len(self.millibits(), entries as nat) + 1,
    {
        let cachelines: usize = if self.millibits_per_key > 0 && entries > 0 {
            (entries * self.millibits_per_key + 511999) / 512000
        } else {
            0
        };
        cachelines * 64 + FAST_LOCAL_BLOOM_FILTER_METADATA_SIZE
    }

    fn prepare_hash(h1: u32, len: u32) -> (r: u32)
        ensures
            r == line_offset(h1 as nat, len as nat),
    {
        let n: u32 = len >> 6;
        assert(n == len / 64 && n < 0x400_0000) by (bit_vector)
            requires
                n == len >> 6,
        ;
        assert(h1 * n <= 0xffff_ffff * 0x3ff_ffff) by (nonlinear_arith)
            requires
                h1 <= 0xffff_ffff,
                n <= 0x3ff_ffff,
        ;
        let product: u64 = h1 as u64 * n as u64;
        let top: u64 = product >> 32;
        assert(top == product / 0x1_0000_0000) by (bit_vector)
            requires
                top == product >> 32,
        ;
        let t: u32 = top as u32;
        assert(t < 0x400_0000 ==> t << 6 == t * 64) by (bit_vector);
        t << 6
    }

    /// Sets the bits of the probes of a hash in the line at an offset.
    pub fn add_hash_prepared(h2: u32, num_probes: usize, data: &mut Vec<u8>, offset: usize)
        requires
            offset + 64 <= old(data)@.len(),
        ensures
            final(data)@.len() == old(data)@.len(),
            forall|i: int|
                0 <= i < old(data)@.len() && !(offset <= i < offset + 64) ==> final(data)@[i]
                    == old(data)@[i],
            line_added(
                old(data)@,
                final(data)@,
                h2 as nat,
                num_probes as nat,
                offset as int,
            ),
    {
        let mut h: u32 = h2;
        let mut i: usize = 0;
        let ghost d0 = data@;
        let size: usize = data.len();
        while i < num_probes
            invariant
                i <= num_probes,
                offset + 64 <= d0.len(),
                data@.len() == d0.len(),
                size == d0.len(),
                h == stepped(h2 as nat, i as nat),
                forall|j: int|
                    0 <= j < d0.len() && !(offset <= j < offset + 64) ==> data@[j] == d0[j],
                forall|p: int|
                    0 <= p < 8 * d0.len() ==> (#[trigger] bit_set(data@, p) <==> bit_set(d0, p)
                        || exists|k: nat|
                        k < i && p == 8 * offset + #[trigger] probe_bit(h2 as nat, k)),
            decreases num_probes - i,
        {
            let bitpos: u32 = h >> 23;
            assert(bitpos == h / 0x80_0000 && bitpos < 512) by (bit_vector)
                requires
                    bitpos == h >> 23,
            ;
            let byte: usize = (bitpos >> 3) as usize;
            let bit: u32 = bitpos & 7;
            assert(bitpos >> 3 == bitpos / 8 && bitpos & 7 == bitpos % 8) by (bit_vector);
            let ghost before = data@;
            let old_byte: u8 = data[offset + byte];
            let mask: u8 = 1u8 << bit;
            data.set(offset + byte, old_byte | mask);
            proof {
                lemma_stepped(h2 as nat, i as nat);
                let q = 8 * offset + bitpos;
                assert(q == 8 * offset + probe_bit(h2 as nat, i as nat));
                assert forall|p: int| 0 <= p < 8 * d0.len() implies (#[trigger] bit_set(data@, p)
                    <==> bit_set(d0, p) || exists|k: nat|
                    k < i + 1 && p == 8 * offset + #[trigger] probe_bit(h2 as nat, k)) by {
                    let b = (p % 8) as u8;
                    let c = bit as u8;
                    lemma_or_bit(old_byte, c, b);
                    assert(1u8 << bit == 1u8 << c);
                    assert(bit_set(data@, p) <==> bit_set(before, p) || p == q);
                    if bit_set(before, p) && !bit_set(d0, p) {
                        let k = choose|k: nat|
                            k < i && p == 8 * offset + #[trigger] probe_bit(h2 as nat, k);
                        assert(k < i + 1 && p == 8 * offset + probe_bit(h2 as nat, k));
                    }
                    if p == q {
                        assert(p == 8 * offset + probe_bit(h2 as nat, i as nat));
                    }
                }
            }
            h = h.wrapping_mul(FAST_LOCAL_BLOOM_FILTER_STEP);
            i = i + 1;
        }
    }

    fn add_all_entries(&self, data: &mut Vec<u8>, len: usize)
        requires
            64 <= len,
            len + 1 == old(data)@.len(),
            self.num_probes == num_probes_for(self.millibits()),
            forall|p: int| 0 <= p < 8 * len ==> !#[trigger] bit_set(old(data)@, p),
        ensures
            final(data)@.len() == old(data)@.len(),
            forall|p: int|
                0 <= p < 8 * len ==> (#[trigger] bit_set(final(data)@, p) <==> any_touches(
                    self.hashes(),
                    len as nat % 0x1_0000_0000,
                    self.num_probes as nat,
                    p,
                )),
    {
        let len32: u32 = low_u32(len);
        let mut i: usize = 0;
        while i < self.hash_entries.len()
            invariant
                i <= self.hash_entries@.len(),
                64 <= len,
                len32 == len as nat % 0x1_0000_0000,
                data@.len() == len + 1,
                forall|p: int|
                    0 <= p < 8 * len ==> (#[trigger] bit_set(data@, p) <==> any_touches(
                        self.hash_entries@.take(i as int),
                        len32 as nat,
                        self.num_probes as nat,
                        p,
                    )),
            decreases self.hash_entries@.len() - i,
        {
            let hash: u64 = self.hash_entries[i];
            let (h1, h2) = split_hash(hash);
            let offset: usize = Self::prepare_hash(h1, len32) as usize;
            let ghost before = data@;
            proof {
                lemma_line_in_range(h1 as nat, len as nat);
            }
            Self::add_hash_prepared(h2, self.num_probes, data, offset);
            proof {
                let done = self.hash_entries@.take(i as int);
                let next = self.hash_entries@.take(i + 1);
                let probes = self.num_probes as nat;
                assert(next =~= done.push(hash));
                assert forall|p: int| 0 <= p < 8 * len implies (#[trigger] bit_set(data@, p)
                    <==> any_touches(next, len32 as nat, probes, p)) by {
                    assert(bit_set(before, p) <==> any_touches(done, len32 as nat, probes, p));
                    if any_touches(done, len32 as nat, probes, p) {
                        let j = choose|j: int|
                            0 <= j < done.len() && #[trigger] hash_touches(
                                done[j],
                                len32 as nat,
                                probes,
                                p,
                            );
                        assert(hash_touches(next[j], len32 as nat, probes, p));
                    }
                    if exists|k: nat|
                        k < probes && p == 8 * offset + #[trigger] probe_bit(h2 as nat, k) {
                        let k = choose|k: nat|
                            k < probes && p == 8 * offset + #[trigger] probe_bit(h2 as nat, k);
                        assert(p == hash_bit(hash, len32 as nat, k));
                        assert(hash_touches(next[i as int], len32 as nat, probes, p));
                    }
                    if any_touches(next, len32 as nat, probes, p) {
                        let j = choose|j: int|
                            0 <= j < next.len() && #[trigger] hash_touches(
                                next[j],
                                len32 as nat,
                                probes,
                                p,
                            );
                        if j < i {
                            assert(hash_touches(done[j], len32 as nat, probes, p));
                        } else {
                            let k = choose|k: nat|
                                k < probes && p == #[trigger] hash_bit(next[j], len32 as nat, k);
                            assert(k < probes && p == 8 * offset + probe_bit(h2 as nat, k));
                        }
                    }
                }
            }
            i = i + 1;
        }
        proof {
            assert(self.hash_entries@.take(i as int) =~= self.hash_entries@);
        }
    }
}

proof fn lemma_or_bit(x: u8, i: u8, j: u8)
    requires
        i < 8,
        j < 8,
    ensures
        ((x | (1u8 << i)) & (1u8 << j) != 0) == (x & (1u8 << j) != 0 || i == j),
{
    assert(i < 8 && j < 8 ==> (((x | (1u8 << i)) & (1u8 << j) != 0) == (x & (1u8 << j) != 0 || i
        == j))) by (bit_vector);
}

/// The low and the high half of a hash.
fn split_hash(hash: u64) -> (r: (u32, u32))
    ensures
        r.0 == low_half(hash),
        r.1 == high_half(hash),
{
    assert(hash & 0xffff_ffff == hash % 0x1_0000_0000 && hash >> 32 == hash / 0x1_0000_0000)
        by (bit_vector);
    ((hash & 0xffff_ffff) as u32, (hash >> 32) as u32)
}

impl FilterBitsBuilder for FastLocalBloomBitsBuilder {
    closed spec fn hashes(&self) -> Seq<u64> {
        self.hash_entries@
    }

    open spec fn fits(&self, entries: nat) -> bool {
        entries * self.millibits() + 511999 <= usize::MAX
    }

    open spec fn is_filter(&self, data: Seq<u8>) -> bool {
        is_bloom_filter(data, self.hashes(), self.millibits())
    }

    fn add_key(&mut self, key: &[u8])
        ensures
            final(self).millibits() == old(self).millibits(),
    {
        proof {
            use_type_invariant(&*self);
        }
        let hash = hash64(key);
        let mut entries: Vec<u64> = Vec::new();
        std::mem::swap(&mut entries, &mut self.hash_entries);
        entries.push(hash);
        self.hash_entries = entries;
    }

    fn seal(&mut self) -> (r: Vec<u8>)
        ensures
            final(self).millibits() == old(self).millibits(),
            final(self).hashes() == if bits_len(old(self).millibits(), old(self).hashes().len())
                > 0 {
                Seq::<u64>::empty()
            } else {
                old(self).hashes()
            },
    {
        proof {
            use_type_invariant(&*self);
        }
        let space = self.calculate_space(self.hash_entries.len());
        let mut data: Vec<u8> = vec![0; space];
        let data_len = space - FAST_LOCAL_BLOOM_FILTER_METADATA_SIZE;
        proof {
            assert forall|p: int| 0 <= p < 8 * data_len implies !#[trigger] bit_set(data@, p) by {
                let b = (p % 8) as u8;
                assert(data@[p / 8] == 0);
                assert(0u8 & (1u8 << b) == 0) by (bit_vector);
            }
        }
        let ghost hashes = self.hashes();
        if data_len > 0 {
            self.add_all_entries(&mut data, data_len);
            self.hash_entries = Vec::new();
        }
        let ghost bits = data@;
        let probes: u8 = self.num_probes as u8;
        data.set(data_len, probes);
        proof {
            assert forall|p: int| 0 <= p < 8 * data_len implies (#[trigger] bit_set(data@, p)
                <==> any_touches(
                hashes,
                data_len as nat % 0x1_0000_0000,
                num_probes_for(self.millibits()),
                p,
            )) by {
                assert(data@[p / 8] == bits[p / 8]);
                assert(bit_set(data@, p) == bit_set(bits, p));
            }
        }
        data
    }
}

/// Probes a local bloom filter.
pub struct FastLocalBloomBitsReader<'a> {
    data: &'a [u8],
    num_probes: usize,
}

impl<'a> FastLocalBloomBitsReader<'a> {
    /// The bits of the filter.
    pub closed spec fn bits(self) -> Seq<u8> {
        self.data@
    }

    /// The number of probes of each key.
    pub closed spec fn probes(self) -> nat {
        self.num_probes as nat
    }

    fn new(data: &'a [u8], num_probes: usize) -> (r: Self)
        ensures
            r.bits() == data@,
            r.probes() == num_probes,
    {
        Self { data, num_probes }
    }

    /// Whether the bits of the probes of a hash are set in the line at an offset.
    pub fn hash_may_match_prepared(
        h2: u32,
        num_probes: usize,
        data: &[u8],
        offset: usize,
    ) -> (r: bool)
        requires
            num_probes > 0 ==> offset + 64 <= data@.len(),
        ensures
            r == line_matches(data@, h2 as nat, num_probes as nat, offset as int),
    {
        let mut h: u32 = h2;
        let mut i: usize = 0;
        let size: usize = data.len();
        while i < num_probes
            invariant
                i <= num_probes,
                size == data@.len(),
                num_probes > 0 ==> offset + 64 <= data@.len(),
                h == stepped(h2 as nat, i as nat),
                forall|k: nat|
                    k < i ==> bit_set(data@, 8 * offset + #[trigger] probe_bit(h2 as nat, k)),
            decreases num_probes - i,
        {
            let bitpos: u32 = h >> 23;
            assert(bitpos == h / 0x80_0000 && bitpos < 512) by (bit_vector)
                requires
                    bitpos == h >> 23,
            ;
            let byte: usize = (bitpos >> 3) as usize;
            let bit: u32 = bitpos & 7;
            assert(bitpos >> 3 == bitpos / 8 && bitpos & 7 == bitpos % 8) by (bit_vector);
            proof {
                lemma_stepped(h2 as nat, i as nat);
                let q = 8 * offset + bitpos;
                assert(q == 8 * offset + probe_bit(h2 as nat, i as nat));
                assert(q / 8 == offset + byte);
                assert(q % 8 == bit);
                assert(1u8 << bit == 1u8 << (bit as u8));
            }
            if data[offset + byte] & (1u8 << bit) == 0 {
                assert(!bit_set(data@, 8 * offset + probe_bit(h2 as nat, i as nat)));
                return false;
            }
            h = h.wrapping_mul(FAST_LOCAL_BLOOM_FILTER_STEP);
            i = i + 1;
        }
        true
    }
}

impl<'a> FilterBitsReader for FastLocalBloomBitsReader<'a> {
    open spec fn readable(&self) -> bool {
        self.probes() > 0 ==> self.bits().len() >= 64
    }

    open spec fn matches(&self, hash: u64) -> bool {
        bits_match(self.bits(), self.probes(), hash)
    }

    fn may_match(&self, key: &[u8]) -> (r: bool) {
        let hash = hash64(key);
        let (h1, h2) = split_hash(hash);
        let len32 = low_u32(self.data.len());
        let offset: usize = FastLocalBloomBitsBuilder::prepare_hash(h1, len32) as usize;
        proof {
            if self.data@.len() >= 64 {
                lemma_line_in_range(h1 as nat, self.data@.len());
            }
            assert forall|k: nat|
                #![trigger probe_bit(h2 as nat, k)]
                #![trigger hash_bit(hash, len32 as nat, k)]
                8 * offset + probe_bit(h2 as nat, k) == hash_bit(hash, len32 as nat, k) by {}
        }
        FastLocalBloomBitsReader::hash_may_match_prepared(h2, self.num_probes, self.data, offset)
    }
}

/// Makes local bloom filters with a given number of bits per key.
#[derive(Clone, Copy)]
pub struct BloomFilterPolicy {
    /// The bits per key, in thousandths.
    pub millibits_per_key: usize,
}

impl Default for BloomFilterPolicy {
    /// Ten bits per key.
    fn default() -> (r: Self)
        ensures
            r.millibits_per_key == 10000,
    {
        Self { millibits_per_key: 10000 }
    }
}

impl FilterPolicy for BloomFilterPolicy {
    type Builder = FastLocalBloomBitsBuilder;

    type Reader<'a> = FastLocalBloomBitsReader<'a>;

    open spec fn well_formed(&self, data: Seq<u8>) -> bool {
        probeable(data)
    }

    open spec fn matches(&self, data: Seq<u8>, hash: u64) -> bool {
        filter_matches(data, hash)
    }

    fn get_filter_bits_builder(&self) -> (r: FastLocalBloomBitsBuilder)
        ensures
            r.millibits() == self.millibits_per_key,
    {
        FastLocalBloomBitsBuilder::new(self.millibits_per_key)
    }

    fn get_filter_bits_reader<'a>(&self, data: &'a [u8]) -> (r: FastLocalBloomBitsReader<'a>) {
        let full_len = data.len();
        let data_len = full_len - FAST_LOCAL_BLOOM_FILTER_METADATA_SIZE;
        let num_probes = data[data_len] as usize;
        let bits = vstd::slice::slice_subrange(data, 0, data_len);
        proof {
            assert(bits@ =~= data@.drop_last());
        }
        FastLocalBloomBitsReader::new(bits, num_probes)
    }
}

/// The policy that tables use unless their options say otherwise.
pub fn default_filter_policy() -> (r: BloomFilterPolicy)
    ensures
        r.millibits_per_key == 10000,
{
    BloomFilterPolicy::default()
}

} // verus!

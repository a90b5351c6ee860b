//! How large a filter is, and which bits a key has in it.
use crate::block::filter_policy;
use vstd::arithmetic::div_mod;
use vstd::arithmetic::power;
use vstd::prelude::*;

verus! {

/// A filter has whole lines of 64 bytes, no fewer than it takes to have the given number of bits
/// for each key, and no more. A filter without keys has none.
pub proof fn lemma_filter_size(millibits: nat, entries: nat)
    ensures
        ({
            let len = filter_policy::bits_len(millibits, entries);
            &&& len % 64 == 0
            &&& 8000 * len >= entries * millibits
            &&& len > 0 ==> 8000 * (len - 64) < entries * millibits
        }),
{
    let bits = entries * millibits;
    if millibits > 0 && entries > 0 {
        assert(bits > 0) by (nonlinear_arith)
            requires
                bits == entries * millibits,
                millibits > 0,
                entries > 0,
        ;
        let lines = (bits + 511999) / 512000;
        assert(filter_policy::bits_len(millibits, entries) == lines * 64);
    } else {
        assert(bits == 0) by (nonlinear_arith)
            requires
                bits == entries * millibits,
                millibits == 0 || entries == 0,
        ;
    }
}

/// A key has at least one bit in a filter and at most 24, and between those about six or seven for
/// every ten bits that there are for it.
pub proof fn lemma_number_of_probes(millibits: nat)
    ensures
        ({
            let probes = filter_policy::num_probes_for(millibits);
            &&& 1 <= probes <= 24
            &&& millibits <= 2080 ==> probes == 1
            &&& millibits > 50000 ==> probes == 24
            &&& 2080 < millibits <= 50000 ==> 423 * millibits <= 1000000 * probes <= 962 * millibits
        }),
{
}

/// The line of a key lies within the filter. Lines of the same size go to ranges of hashes, the
/// first one to the lowest: that of a hash is as far into the lines as the hash is into its range.
pub proof fn lemma_line(h: nat, len: nat)
    requires
        h < 0x1_0000_0000,
        len >= 64,
    ensures
        ({
            let line = filter_policy::line_offset(h, len) / 64;
            let lines = len / 64;
            &&& filter_policy::line_offset(h, len) % 64 == 0
            &&& filter_policy::line_offset(h, len) + 64 <= len
            &&& line * 0x1_0000_0000 <= h * lines < (line + 1) * 0x1_0000_0000
        }),
{
    let n = len / 64;
    assert(h * n < 0x1_0000_0000 * n) by (nonlinear_arith)
        requires
            h < 0x1_0000_0000,
            n >= 1,
    ;
    let line = h * n / 0x1_0000_0000;
    assert(filter_policy::line_offset(h, len) == line * 64);
}

/// Each probe takes the hash times a power of a number, and of that the nine upper bits of 32.
pub proof fn lemma_probe(h: nat, k: nat)
    requires
        h < 0x1_0000_0000,
    ensures
        filter_policy::probe_bit(h, k) == (h * power::pow(0x9e3779b9, k)) % 0x1_0000_0000
            / 0x80_0000,
        filter_policy::probe_bit(h, k) < 512,
{
    lemma_stepped_is(h, k);
}

proof fn lemma_stepped_is(h: nat, k: nat)
    requires
        h < 0x1_0000_0000,
    ensures
        filter_policy::stepped(h, k) == (h * power::pow(0x9e3779b9, k)) % 0x1_0000_0000,
    decreases k,
{
    reveal(power::pow);
    let c = 0x9e3779b9int;
    let m = 0x1_0000_0000int;
    if k > 0 {
        let next = (h * c) % m;
        lemma_stepped_is(next as nat, (k - 1) as nat);
        let p = power::pow(c, (k - 1) as nat);
        div_mod::lemma_mul_mod_noop_left(h * c, p, m);
        assert((h * c) * p == h * (c * p)) by (nonlinear_arith);
    }
}

/// A bit is one of the eight of a byte, the least one first.
pub proof fn lemma_bit(data: Seq<u8>, i: int, bit: u8)
    requires
        0 <= i < data.len(),
        bit < 8,
    ensures
        filter_policy::bit_set(data, 8 * i + bit) <==> (data[i] >> bit) % 2 == 1,
{
    let b = data[i];
    assert((8 * i + bit) / 8 == i && (8 * i + bit) % 8 == bit);
    assert(b & (1u8 << bit) != 0 <==> (b >> bit) % 2 == 1) by (bit_vector)
        requires
            bit < 8,
    ;
}

/// A filter says of a key that it may have been added exactly where each of its bits is one of a
/// key that was.
pub proof fn lemma_filter_says(data: Seq<u8>, hashes: Seq<u64>, millibits: nat, hash: u64)
    requires
        filter_policy::is_bloom_filter(data, hashes, millibits),
        hashes.len() > 0,
        millibits > 0,
    ensures
        ({
            let len = filter_policy::bits_len(millibits, hashes.len()) % 0x1_0000_0000;
            let probes = filter_policy::num_probes_for(millibits);
            filter_policy::filter_matches(data, hash) <==> forall|k: nat|
                k < probes ==> filter_policy::any_touches(
                    hashes,
                    len,
                    probes,
                    #[trigger] filter_policy::hash_bit(hash, len, k),
                )
        }),
{
    let full = filter_policy::bits_len(millibits, hashes.len());
    let len = full % 0x1_0000_0000;
    let probes = filter_policy::num_probes_for(millibits);
    let bits = data.drop_last();
    lemma_filter_size(millibits, hashes.len());
    assert(hashes.len() * millibits > 0) by (nonlinear_arith)
        requires
            hashes.len() > 0,
            millibits > 0,
    ;
    assert(full >= 64);
    assert forall|k: nat| k < probes implies filter_policy::bit_set(
        bits,
        #[trigger] filter_policy::hash_bit(hash, len, k),
    ) == filter_policy::any_touches(
        hashes,
        len,
        probes,
        filter_policy::hash_bit(hash, len, k),
    ) by {
        let p = filter_policy::hash_bit(hash, len, k);
        let h1 = filter_policy::low_half(hash);
        lemma_probe(filter_policy::high_half(hash), k);
        assert(filter_policy::line_offset(h1, len) + 64 <= full) by {
            if len >= 64 {
                lemma_line(h1, len);
            } else {
                assert(len / 64 == 0);
                assert(h1 * 0 == 0);
            }
        }
        assert(0 <= p < 8 * full);
        assert(data[p / 8] == bits[p / 8]);
        assert(filter_policy::bit_set(data, p) == filter_policy::bit_set(bits, p));
    }
    assert(bits.len() == full);
    assert(data.last() == data[full as int]);
    assert(data.last() as nat == probes);
    assert(filter_policy::filter_matches(data, hash) == filter_policy::bits_match(
        bits,
        probes,
        hash,
    ));
}

} // verus!

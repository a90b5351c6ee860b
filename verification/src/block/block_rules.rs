//! How the entries of a block are laid out.
use crate::block::data_block;
use crate::coding;
use vstd::prelude::*;

verus! {

/// What two keys share is all up to where they first differ or one of them ends.
pub proof fn lemma_shared(a: Seq<u8>, b: Seq<u8>)
    ensures
        ({
            let n = data_block::common_prefix(a, b) as int;
            &&& n <= a.len()
            &&& n <= b.len()
            &&& a.take(n) == b.take(n)
            &&& n < a.len() && n < b.len() ==> a[n] != b[n]
        }),
    decreases a.len(),
{
    let n = data_block::common_prefix(a, b) as int;
    if a.len() > 0 && b.len() > 0 && a[0] == b[0] {
        let x = a.drop_first();
        let y = b.drop_first();
        lemma_shared(x, y);
        assert forall|i: int| 0 <= i < n implies a[i] == b[i] by {
            if i > 0 {
                assert(x.take(n - 1)[i - 1] == y.take(n - 1)[i - 1]);
                assert(a[i] == x[i - 1] && b[i] == y[i - 1]);
            }
        }
        if n < a.len() && n < b.len() {
            assert(a[n] == x[n - 1] && b[n] == y[n - 1]);
        }
    }
    assert(a.take(n) =~= b.take(n));
}

/// An entry is the lengths of what its key shares with the one before it, of the rest of its key
/// and of its value, and then the rest of the key and the value.
pub proof fn lemma_entry_layout(shared: nat, k: Seq<u8>, v: Seq<u8>)
    requires
        shared <= k.len(),
    ensures
        ({
            let e = data_block::entry_bytes(shared, k, v);
            let a = coding::varint(shared);
            let b = coding::varint((k.len() - shared) as nat);
            let c = coding::varint(v.len());
            let head = (a.len() + b.len() + c.len()) as int;
            let rest = (k.len() - shared) as int;
            &&& e.len() == head + rest + v.len()
            &&& e.take(head) == a + b + c
            &&& e.subrange(head, head + rest) == k.skip(shared as int)
            &&& e.skip(head + rest) == v
        }),
{
    let e = data_block::entry_bytes(shared, k, v);
    let a = coding::varint(shared);
    let b = coding::varint((k.len() - shared) as nat);
    let c = coding::varint(v.len());
    let head = (a.len() + b.len() + c.len()) as int;
    let rest = (k.len() - shared) as int;
    assert(e.take(head) =~= a + b + c);
    assert(e.subrange(head, head + rest) =~= k.skip(shared as int));
    assert(e.skip(head + rest) =~= v);
}

/// A block without entries takes eight bytes. An entry more adds its bytes: at every interval the
/// whole key and four bytes of a restart point, else only what the key does not share with the
/// one before it. Where the interval is zero every entry has a restart point of its own.
pub proof fn lemma_block_grows(
    entries: Seq<(Seq<u8>, Seq<u8>)>,
    interval: usize,
    k: Seq<u8>,
    v: Seq<u8>,
)
    ensures
        data_block::block_len(Seq::empty(), interval) == 8,
        interval == 0 ==> data_block::block_len(entries.push((k, v)), interval)
            == data_block::block_len(entries, interval) + data_block::entry_bytes(0, k, v).len()
            + 4,
        interval > 0 ==> data_block::block_len(entries.push((k, v)), interval)
            == data_block::block_len(entries, interval) + if entries.len() == 0 {
            data_block::entry_bytes(0, k, v).len()
        } else if entries.len() % (interval as nat) == 0 {
            data_block::entry_bytes(0, k, v).len() + 4
        } else {
            data_block::entry_bytes(
                data_block::common_prefix(entries.last().0, k),
                k,
                v,
            ).len()
        },
{
    let all = entries.push((k, v));
    assert(all.drop_last() =~= entries);
    assert(entries.len() == 0 ==> data_block::block_len(entries, interval) == 8);
}

/// A block is its entries, the offsets of its restart points in four bytes each, and their number
/// in four bytes.
pub proof fn lemma_block_layout(entries: Seq<u8>, restarts: Seq<usize>, i: int)
    requires
        restarts.len() <= u32::MAX,
        0 <= i < restarts.len(),
        restarts[i] <= u32::MAX,
    ensures
        ({
            let c = data_block::sealed_block(entries, restarts);
            let n = entries.len() as int;
            &&& c.len() == n + 4 * restarts.len() + 4
            &&& c.take(n) == entries
            &&& coding::le_value(c.subrange(n + 4 * i, n + 4 * i + 4)) == restarts[i]
            &&& coding::le_value(c.skip(c.len() - 4)) == restarts.len()
            &&& data_block::entry_region(c) == entries
            &&& data_block::restart_at(c, i) == restarts[i]
        }),
{
    let c = data_block::sealed_block(entries, restarts);
    let n = entries.len() as int;
    let r = data_block::restart_bytes(restarts);
    data_block::lemma_restart_bytes(restarts);
    coding::lemma_pow256_values();
    coding::lemma_le_bytes_len(restarts.len() % 0x1_0000_0000, 4);
    coding::lemma_le_value_of_le_bytes(restarts.len() % 0x1_0000_0000, 4);
    assert(c.take(n) =~= entries);
    assert(c.skip(c.len() - 4) =~= coding::le_bytes(restarts.len() % 0x1_0000_0000, 4));
    assert(c.subrange(n + 4 * i, n + 4 * i + 4) =~= r.subrange(4 * i, 4 * i + 4));
    assert(data_block::restarts_offset(c) == n);
}

} // verus!

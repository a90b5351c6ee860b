//! What the orders of keys say of the values that the keys stand for.
use crate::coding;
use crate::key;
use crate::key::{Bytewise, KeyOrder, StringKey, U32Key};
use vstd::prelude::*;

verus! {

/// Of two byte strings that first differ at a place, the one comes first that ends there, or has
/// the lesser byte there; one does not come before itself.
pub proof fn lemma_first_difference_decides(a: Seq<u8>, b: Seq<u8>, n: int)
    requires
        0 <= n <= a.len(),
        n <= b.len(),
        forall|i: int| 0 <= i < n ==> a[i] == b[i],
        n < a.len() && n < b.len() ==> a[n] != b[n],
    ensures
        Bytewise::lt(a, b) <==> n < b.len() && (n == a.len() || a[n] < b[n]),
    decreases n,
{
    if n > 0 {
        assert(a[0] == b[0]);
        let x = a.drop_first();
        let y = b.drop_first();
        assert forall|i: int| 0 <= i < n - 1 implies x[i] == y[i] by {
            assert(a[i + 1] == b[i + 1]);
        }
        lemma_first_difference_decides(x, y, n - 1);
    }
}

/// All byte strings are keys, and stand for themselves.
pub proof fn lemma_bytes_are_keys(a: Seq<u8>)
    ensures
        Bytewise::valid(a),
{
}

/// Strings behind their lengths are keys, and come in the order of their bytes.
pub proof fn lemma_strings_are_keys(a: Seq<u8>, b: Seq<u8>)
    ensures
        StringKey::valid(coding::bytes_encoding(a)),
        StringKey::lt(coding::bytes_encoding(a), coding::bytes_encoding(b)) <==> Bytewise::lt(
            a,
            b,
        ),
{
    coding::lemma_le_bytes_len(a.len(), 8);
    coding::lemma_le_bytes_len(b.len(), 8);
    assert(coding::bytes_encoding(a).skip(8) =~= a);
    assert(coding::bytes_encoding(b).skip(8) =~= b);
}

/// Numbers in four bytes are keys, and come in their own order.
pub proof fn lemma_numbers_are_keys(a: u32, b: u32)
    ensures
        U32Key::valid(coding::le_bytes(a as nat, 4)),
        U32Key::lt(coding::le_bytes(a as nat, 4), coding::le_bytes(b as nat, 4)) <==> a < b,
{
    coding::lemma_pow256_values();
    coding::lemma_le_bytes_len(a as nat, 4);
    coding::lemma_le_value_of_le_bytes(a as nat, 4);
    coding::lemma_le_value_of_le_bytes(b as nat, 4);
}

/// The keys of entries ascend and are valid where each is valid and comes before the next one.
pub proof fn lemma_ascending_step<O: KeyOrder>(
    entries: Seq<(Seq<u8>, Seq<u8>)>,
    k: Seq<u8>,
    v: Seq<u8>,
)
    requires
        key::keys_valid::<O>(entries.push((k, v))),
    ensures
        key::ascending::<O>(entries.push((k, v))) <==> key::ascending::<O>(entries) && (
        entries.len() > 0 ==> O::lt(entries.last().0, k)),
{
    let all = entries.push((k, v));
    let n = entries.len() as int;
    if key::ascending::<O>(all) {
        assert forall|i: int, j: int| 0 <= i < j < n implies O::lt(
            #[trigger] entries[i].0,
            #[trigger] entries[j].0,
        ) by {
            assert(O::lt(all[i].0, all[j].0));
        }
        if n > 0 {
            assert(O::lt(all[n - 1].0, all[n].0));
        }
    }
    if key::ascending::<O>(entries) && (n > 0 ==> O::lt(entries.last().0, k)) {
        assert forall|i: int, j: int| 0 <= i < j < all.len() implies O::lt(
            #[trigger] all[i].0,
            #[trigger] all[j].0,
        ) by {
            assert(O::valid(all[i].0) && O::valid(all[j].0));
            if j < n {
                assert(O::lt(entries[i].0, entries[j].0));
            } else if i < n - 1 {
                assert(O::lt(entries[i].0, entries[n - 1].0));
                assert(O::valid(all[n - 1].0));
                O::transitive(entries[i].0, entries[n - 1].0, k);
            }
        }
    }
}

} // verus!

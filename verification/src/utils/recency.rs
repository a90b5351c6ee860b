//! What a cache keeps: the values that were used last.
use crate::coding;
use crate::utils::cache;
use crate::utils::random_access;
use vstd::prelude::*;

verus! {

/// The entries with other keys, in their order.
pub open spec fn without<V>(entries: Seq<((u32, u64), V)>, k: (u32, u64)) -> Seq<((u32, u64), V)> {
    entries.filter(|e: ((u32, u64), V)| e.0 != k)
}

proof fn lemma_without_none<V>(entries: Seq<((u32, u64), V)>, k: (u32, u64))
    requires
        forall|i: int| 0 <= i < entries.len() ==> (#[trigger] entries[i]).0 != k,
    ensures
        without(entries, k) == entries,
    decreases entries.len(),
{
    reveal(Seq::filter);
    if entries.len() > 0 {
        let init = entries.drop_last();
        assert forall|i: int| 0 <= i < init.len() implies (#[trigger] init[i]).0 != k by {
            assert(init[i] == entries[i]);
        }
        lemma_without_none(init, k);
        assert(entries[entries.len() - 1].0 != k);
        assert(init.push(entries.last()) =~= entries);
    }
}

proof fn lemma_without_one<V>(entries: Seq<((u32, u64), V)>, i: int)
    requires
        cache::distinct_keys(entries),
        0 <= i < entries.len(),
    ensures
        without(entries, entries[i].0) == entries.remove(i),
    decreases entries.len(),
{
    reveal(Seq::filter);
    let k = entries[i].0;
    let init = entries.drop_last();
    let last = entries.len() - 1;
    if i == last {
        assert forall|j: int| 0 <= j < init.len() implies (#[trigger] init[j]).0 != k by {
            assert(init[j] == entries[j]);
            assert(entries[j].0 != entries[i].0);
        }
        lemma_without_none(init, k);
        assert(entries.remove(i) =~= init);
    } else {
        assert forall|a: int, b: int| 0 <= a < b < init.len() implies (#[trigger] init[a]).0 != (
        #[trigger] init[b]).0 by {
            assert(entries[a].0 != entries[b].0);
        }
        lemma_without_one(init, i);
        assert(init[i] == entries[i]);
        assert(entries[i].0 != entries[last].0);
        assert(entries.remove(i) =~= init.remove(i).push(entries.last()));
    }
}

/// The place of a key is the first one where it stands, or the end.
pub proof fn lemma_position_is<V>(entries: Seq<((u32, u64), V)>, k: (u32, u64), i: int)
    requires
        0 <= i <= entries.len(),
        i < entries.len() ==> entries[i].0 == k,
        forall|j: int| 0 <= j < i ==> (#[trigger] entries[j]).0 != k,
    ensures
        cache::position(entries, k) == i,
    decreases entries.len(),
{
    if i > 0 {
        assert(entries[0].0 != k);
        let rest = entries.drop_first();
        assert forall|j: int| 0 <= j < i - 1 implies (#[trigger] rest[j]).0 != k by {
            assert(rest[j] == entries[j + 1]);
        }
        lemma_position_is(rest, k, i - 1);
    }
}

/// A key that is given a value stands in front with it. The others stay in their order, as many of
/// them as there is room for: where there is none for all, it is the last that leaves, the one
/// that was used longest ago. A cache without room takes nothing.
pub proof fn lemma_put_keeps_latest<V>(
    entries: Seq<((u32, u64), V)>,
    capacity: nat,
    k: (u32, u64),
    v: V,
)
    requires
        cache::distinct_keys(entries),
        entries.len() <= capacity,
    ensures
        capacity > 0 ==> ({
            let others = without(entries, k);
            cache::put_entries(entries, capacity, k, v) == seq![(k, v)] + others.take(
                if others.len() < capacity {
                    others.len() as int
                } else {
                    capacity - 1
                },
            )
        }),
        capacity == 0 ==> cache::put_entries(entries, capacity, k, v) == entries,
{
    let after = cache::put_entries(entries, capacity, k, v);
    let others = without(entries, k);
    if exists|i: int| 0 <= i < entries.len() && entries[i].0 == k {
        let i = choose|i: int| 0 <= i < entries.len() && entries[i].0 == k;
        assert forall|j: int| 0 <= j < i implies (#[trigger] entries[j]).0 != k by {
            assert(entries[j].0 != entries[i].0);
        }
        lemma_position_is(entries, k, i);
        lemma_without_one(entries, i);
        assert(others.take(others.len() as int) =~= others);
    } else {
        assert forall|i: int| 0 <= i < entries.len() implies (#[trigger] entries[i]).0 != k by {}
        lemma_position_is(entries, k, entries.len() as int);
        lemma_without_none(entries, k);
        if entries.len() < capacity {
            assert(others.take(others.len() as int) =~= others);
        } else if capacity > 0 {
            assert(others.take(capacity - 1) =~= entries.drop_last());
        }
    }
}

/// A value that is used goes to the front, and the others stay in their order.
pub proof fn lemma_use_moves_to_front<V>(entries: Seq<((u32, u64), V)>, i: int)
    requires
        cache::distinct_keys(entries),
        0 <= i < entries.len(),
    ensures
        cache::to_front(entries, i) == seq![entries[i]] + without(entries, entries[i].0),
{
    lemma_without_one(entries, i);
}

/// What is found under a key is the value that stands with it.
pub proof fn lemma_find_is<V>(entries: Seq<((u32, u64), V)>, k: (u32, u64), i: int)
    requires
        cache::distinct_keys(entries),
        0 <= i < entries.len(),
        entries[i].0 == k,
    ensures
        cache::find(entries, k) == Some(entries[i].1),
{
    assert forall|j: int| 0 <= j < i implies (#[trigger] entries[j]).0 != k by {
        assert(entries[j].0 != entries[i].0);
    }
    lemma_position_is(entries, k, i);
}

/// What is under no key is not found.
pub proof fn lemma_find_none<V>(entries: Seq<((u32, u64), V)>, k: (u32, u64))
    requires
        forall|i: int| 0 <= i < entries.len() ==> (#[trigger] entries[i]).0 != k,
    ensures
        cache::find(entries, k) is None,
{
    lemma_position_is(entries, k, entries.len() as int);
}

/// A key goes to one of the shards, the one that the hash of its twelve bytes gives.
pub proof fn lemma_shard(k: (u32, u64), shards: nat)
    requires
        shards > 0,
    ensures
        cache::shard_of(k, shards) < shards,
        forall|bytes: Seq<u8>|
            bytes.len() == 12 && coding::le_value(bytes.take(4)) == k.0 && coding::le_value(
                bytes.skip(4),
            ) == k.1 ==> cache::shard_of(k, shards) == #[trigger] cache::xx_hash32(bytes) as nat
                % shards,
{
    assert forall|bytes: Seq<u8>|
        bytes.len() == 12 && coding::le_value(bytes.take(4)) == k.0 && coding::le_value(
            bytes.skip(4),
        ) == k.1 implies cache::shard_of(k, shards) == #[trigger] cache::xx_hash32(bytes) as nat
        % shards by {
        coding::lemma_le_bytes_of_le_value(bytes.take(4));
        coding::lemma_le_bytes_of_le_value(bytes.skip(4));
        assert(bytes =~= bytes.take(4) + bytes.skip(4));
    }
}

/// A read gives as many bytes as are wanted or as there are behind the offset, whichever is less.
pub proof fn lemma_available(len: nat, want: nat, off: nat)
    ensures
        off + want <= len ==> random_access::available(len, want, off) == want,
        off <= len < off + want ==> random_access::available(len, want, off) == len - off,
        off > len ==> random_access::available(len, want, off) == 0,
{
}

} // verus!

//! Caches that keep what was used last.
use crate::coding;
use crate::coding::{write_u32_le, write_u64_le};
use fasthash::{xx, FastHasher};
use lru::LruCache;
use std::hash::Hasher;
use vstd::prelude::*;

verus! {

/// Tells the users of one cache apart.
pub type CacheId = u32;

/// What a value is found by: its user and the user's own key.
pub type CacheKey = (CacheId, u64);

/// The most entries that a cache is made for. The table that `lru` keeps them in has a power of two
/// of buckets, which are up to an eighth empty and hold two words and a byte each: with more entries
/// its size may not fit in a machine word.
pub const MAX_CACHE_CAPACITY: usize = usize::MAX / 128;

#[verifier::external_type_specification]
#[verifier::external_body]
#[verifier::reject_recursive_types(K)]
#[verifier::reject_recursive_types(V)]
#[verifier::reject_recursive_types(S)]
pub struct ExLruCache<K, V, S>(LruCache<K, V, S>);

#[verifier::external_type_specification]
#[verifier::external_body]
pub struct ExDefaultHasher(lru::DefaultHasher);

/// The keys and slots that an `lru::LruCache` holds, the one that was used last first.
pub uninterp spec fn lru_entries(c: LruCache<(u32, u64), usize>) -> Seq<((u32, u64), usize)>;

/// The number of entries that an `lru::LruCache` holds at most.
pub uninterp spec fn lru_capacity(c: LruCache<(u32, u64), usize>) -> nat;

/// The position of the first entry with the given key, or the length where there is none.
pub open spec fn position<V>(entries: Seq<((u32, u64), V)>, k: (u32, u64)) -> nat
    decreases entries.len(),
{
    if entries.len() == 0 || entries[0].0 == k {
        0
    } else {
        1 + position(entries.drop_first(), k)
    }
}

/// The entries after the one at `i` was used.
pub open spec fn to_front<V>(entries: Seq<((u32, u64), V)>, i: int) -> Seq<((u32, u64), V)> {
    seq![entries[i]] + entries.remove(i)
}

/// The entries after `k` was given the value `v`.
pub open spec fn put_entries<V>(
    entries: Seq<((u32, u64), V)>,
    capacity: nat,
    k: (u32, u64),
    v: V,
) -> Seq<((u32, u64), V)> {
    let i = position(entries, k);
    if i < entries.len() {
        seq![(k, v)] + entries.remove(i as int)
    } else if capacity == 0 {
        entries
    } else if entries.len() < capacity {
        seq![(k, v)] + entries
    } else {
        seq![(k, v)] + entries.drop_last()
    }
}

/// The entry that leaves when `k` is given a value.
pub open spec fn put_leaves<V>(
    entries: Seq<((u32, u64), V)>,
    capacity: nat,
    k: (u32, u64),
) -> Option<((u32, u64), V)> {
    let i = position(entries, k);
    if i < entries.len() {
        Some(entries[i as int])
    } else if capacity == 0 || entries.len() < capacity {
        None
    } else {
        Some(entries.last())
    }
}

/// Calls `lru::LruCache::new`, which makes an empty cache. It reserves its table at once, and panics
/// where the size of the table overflows.
#[verifier::external_body]
fn lru_new(capacity: usize) -> (r: LruCache<(u32, u64), usize>)
    requires
        capacity <= MAX_CACHE_CAPACITY,
    ensures
        lru_entries(r) == Seq::<((u32, u64), usize)>::empty(),
        lru_capacity(r) == capacity,
{
    LruCache::new(capacity)
}

/// Calls `lru::LruCache::push`, which gives a key a value and moves it to the front. Where the key
/// had a value, that entry is handed back; where the cache was full, the one that was used longest
/// ago. A cache without room stays as it is.
#[verifier::external_body]
fn lru_push(
    c: &mut LruCache<(u32, u64), usize>,
    k: (u32, u64),
    v: usize,
) -> (r: Option<((u32, u64), usize)>)
    requires
        lru_entries(*old(c)).len() <= lru_capacity(*old(c)),
    ensures
        lru_entries(*final(c)) == put_entries(
            lru_entries(*old(c)),
            lru_capacity(*old(c)),
            k,
            v,
        ),
        lru_capacity(*final(c)) == lru_capacity(*old(c)),
        r == put_leaves(lru_entries(*old(c)), lru_capacity(*old(c)), k),
{
    c.push(k, v)
}

/// Calls `lru::LruCache::get`, which finds the value of a key and moves the key to the front.
#[verifier::external_body]
fn lru_get(c: &mut LruCache<(u32, u64), usize>, k: (u32, u64)) -> (r: Option<usize>)
    ensures
        lru_capacity(*final(c)) == lru_capacity(*old(c)),
        ({
            let entries = lru_entries(*old(c));
            let i = position(entries, k);
            if i < entries.len() {
                &&& r == Some(entries[i as int].1)
                &&& lru_entries(*final(c)) == to_front(entries, i as int)
            } else {
                &&& r is None
                &&& lru_entries(*final(c)) == entries
            }
        }),
{
    c.get(&k).copied()
}

/// Calls `lru::LruCache::pop`, which takes a key and its value out.
#[verifier::external_body]
fn lru_pop(c: &mut LruCache<(u32, u64), usize>, k: (u32, u64)) -> (r: Option<usize>)
    ensures
        lru_capacity(*final(c)) == lru_capacity(*old(c)),
        ({
            let entries = lru_entries(*old(c));
            let i = position(entries, k);
            if i < entries.len() {
                &&& r == Some(entries[i as int].1)
                &&& lru_entries(*final(c)) == entries.remove(i as int)
            } else {
                &&& r is None
                &&& lru_entries(*final(c)) == entries
            }
        }),
{
    c.pop(&k)
}

/// Calls `lru::LruCache::len`, the number of entries.
#[verifier::external_body]
fn lru_len(c: &LruCache<(u32, u64), usize>) -> (r: usize)
    ensures
        r == lru_entries(*c).len(),
{
    c.len()
}

/// Calls `lru::LruCache::cap`, the number of entries that there is room for.
#[verifier::external_body]
fn lru_cap(c: &LruCache<(u32, u64), usize>) -> (r: usize)
    ensures
        r == lru_capacity(*c),
{
    c.cap()
}

proof fn lemma_position<V>(entries: Seq<((u32, u64), V)>, k: (u32, u64))
    ensures
        position(entries, k) <= entries.len(),
        position(entries, k) < entries.len() ==> entries[position(entries, k) as int].0 == k,
        forall|j: int| 0 <= j < position(entries, k) ==> #[trigger] entries[j].0 != k,
    decreases entries.len(),
{
    if entries.len() > 0 && entries[0].0 != k {
        lemma_position(entries.drop_first(), k);
        assert forall|j: int| 0 <= j < position(entries, k) implies #[trigger] entries[j].0
            != k by {
            if j > 0 {
                assert(entries[j] == entries.drop_first()[j - 1]);
            }
        }
    }
}

proof fn lemma_position_unique<V>(entries: Seq<((u32, u64), V)>, k: (u32, u64), i: int)
    requires
        0 <= i <= entries.len(),
        i < entries.len() ==> entries[i].0 == k,
        forall|j: int| 0 <= j < i ==> #[trigger] entries[j].0 != k,
    ensures
        position(entries, k) == i,
{
    lemma_position(entries, k);
    let p = position(entries, k);
    if p < i {
        assert(entries[p as int].0 != k);
    } else if i < p {
        assert(entries[i].0 != k);
    }
}

/// A cache of values that keeps those that were used last.
pub struct Cache<V> {
    index: LruCache<(u32, u64), usize>,
    slots: Vec<Option<V>>,
    free: Vec<usize>,
    last_id: CacheId,
}

impl<V> Cache<V> {
    /// The keys and values, the one that was used last first.
    pub closed spec fn contents(self) -> Seq<((u32, u64), V)> {
        lru_entries(self.index).map_values(|e: ((u32, u64), usize)| (e.0, self.slots@[e.1 as int].unwrap()))
    }

    /// The number of values that there is room for.
    pub closed spec fn room(self) -> nat {
        lru_capacity(self.index)
    }

    /// The identifier that was given out last.
    pub closed spec fn last_cache_id(self) -> CacheId {
        self.last_id
    }

    /// Each key stands once and owns a slot; the other slots are free.
    pub closed spec fn wf(self) -> bool {
        let es = lru_entries(self.index);
        &&& es.len() <= self.room()
        &&& forall|i: int|
            0 <= i < es.len() ==> (#[trigger] es[i]).1 < self.slots@.len()
                && self.slots@[es[i].1 as int] is Some
        &&& forall|i: int, j: int|
            0 <= i < j < es.len() ==> (#[trigger] es[i]).0 != (#[trigger] es[j]).0 && es[i].1
                != es[j].1
        &&& forall|i: int|
            0 <= i < self.free@.len() ==> #[trigger] self.free@[i] < self.slots@.len()
                && self.slots@[self.free@[i] as int] is None
        &&& forall|i: int, j: int|
            0 <= i < j < self.free@.len() ==> #[trigger] self.free@[i] != #[trigger] self.free@[j]
    }

    pub fn new(capacity: usize) -> (r: Self)
        requires
            0 < capacity <= MAX_CACHE_CAPACITY,
        ensures
            r.wf(),
            r.contents() == Seq::<((u32, u64), V)>::empty(),
            r.room() == capacity,
            r.last_cache_id() == 0,
    {
        Self::with_room(capacity)
    }

    fn with_room(capacity: usize) -> (r: Self)
        requires
            capacity <= MAX_CACHE_CAPACITY,
        ensures
            r.wf(),
            r.contents() == Seq::<((u32, u64), V)>::empty(),
            r.room() == capacity,
            r.last_cache_id() == 0,
    {
        let r = Cache {
            index: lru_new(capacity),
            slots: Vec::new(),
            free: Vec::new(),
            last_id: 0,
        };
        proof {
            assert(r.contents() =~= Seq::<((u32, u64), V)>::empty());
        }
        r
    }

    /// A new identifier for a user of the cache.
    pub fn get_cache_id(&mut self) -> (r: CacheId)
        requires
            old(self).last_cache_id() < u32::MAX,
        ensures
            r == old(self).last_cache_id() + 1,
            final(self).last_cache_id() == r,
            final(self).contents() == old(self).contents(),
            final(self).room() == old(self).room(),
            old(self).wf() ==> final(self).wf(),
    {
        self.last_id = self.last_id + 1;
        self.last_id
    }

    pub fn len(&self) -> (r: usize)
        ensures
            r == self.contents().len(),
    {
        lru_len(&self.index)
    }

    pub fn capacity(&self) -> (r: usize)
        ensures
            r == self.room(),
    {
        lru_cap(&self.index)
    }

    /// Gives a key a value and hands back the value that it had.
    pub fn insert(&mut self, cache_id: CacheId, key: u64, value: V) -> (r: Option<V>)
        requires
            old(self).wf(),
        ensures
            final(self).wf(),
            final(self).contents() == put_entries(
                old(self).contents(),
                old(self).room(),
                (cache_id, key),
                value,
            ),
            final(self).room() == old(self).room(),
            final(self).last_cache_id() == old(self).last_cache_id(),
            ({
                let i = position(old(self).contents(), (cache_id, key));
                r == if i < old(self).contents().len() {
                    Some(old(self).contents()[i as int].1)
                } else {
                    None
                }
            }),
    {
        let ghost es0 = lru_entries(self.index);
        let ghost c0 = self.contents();
        let ghost k = (cache_id, key);
        proof {
            lemma_position(es0, k);
            lemma_position_unique(c0, k, position(es0, k) as int);
        }
        if lru_cap(&self.index) == 0 {
            return None;
        }
        let ghost slots0 = self.slots@;
        let slot: usize = match self.free.pop() {
            Some(s) => {
                self.slots.set(s, Some(value));
                s
            },
            None => {
                let s = self.slots.len();
                self.slots.push(Some(value));
                s
            },
        };
        let ghost slots1 = self.slots@;
        let ghost free1 = self.free@;
        let left = lru_push(&mut self.index, (cache_id, key), slot);
        let ghost i = position(es0, k) as int;
        match left {
            Some((left_key, left_slot)) => {
                let mut old_value: Option<V> = None;
                std::mem::swap(&mut old_value, &mut self.slots[left_slot]);
                self.free.push(left_slot);
                proof {
                    let es1 = lru_entries(self.index);
                    if i < es0.len() {
                        assert(es1 =~= seq![(k, slot)] + es0.remove(i));
                    } else {
                        assert(es1 =~= seq![(k, slot)] + es0.drop_last());
                    }
                    assert(self.contents() =~= put_entries(c0, self.room(), k, value));
                }
                if left_key.0 == cache_id && left_key.1 == key {
                    old_value
                } else {
                    None
                }
            },
            None => {
                proof {
                    let es1 = lru_entries(self.index);
                    assert(es1 =~= seq![(k, slot)] + es0);
                    assert(self.contents() =~= put_entries(c0, self.room(), k, value));
                }
                None
            },
        }
    }

    /// The value of a key, which is now the one that was used last.
    pub fn get(&mut self, cache_id: CacheId, key: u64) -> (r: Option<&V>)
        requires
            old(self).wf(),
        ensures
            final(self).wf(),
            final(self).room() == old(self).room(),
            final(self).last_cache_id() == old(self).last_cache_id(),
            ({
                let contents = old(self).contents();
                let i = position(contents, (cache_id, key));
                if i < contents.len() {
                    &&& r == Some(&contents[i as int].1)
                    &&& final(self).contents() == to_front(contents, i as int)
                } else {
                    &&& r is None
                    &&& final(self).contents() == contents
                }
            }),
    {
        match self.touch(cache_id, key) {
            Some(slot) => Some(self.value_at(slot)),
            None => None,
        }
    }

    /// The value in a slot.
    closed spec fn slot_value(self, slot: usize) -> Option<V> {
        if slot < self.slots@.len() {
            self.slots@[slot as int]
        } else {
            None
        }
    }

    /// Moves a key to the front and finds its slot.
    fn touch(&mut self, cache_id: CacheId, key: u64) -> (r: Option<usize>)
        requires
            old(self).wf(),
        ensures
            final(self).wf(),
            final(self).room() == old(self).room(),
            final(self).last_cache_id() == old(self).last_cache_id(),
            ({
                let contents = old(self).contents();
                let i = position(contents, (cache_id, key));
                if i < contents.len() {
                    &&& r matches Some(slot) && final(self).slot_value(slot) == Some(
                        contents[i as int].1,
                    )
                    &&& final(self).contents() == to_front(contents, i as int)
                } else {
                    &&& r is None
                    &&& final(self).contents() == contents
                }
            }),
    {
        let ghost es0 = lru_entries(self.index);
        let ghost c0 = self.contents();
        let ghost k = (cache_id, key);
        proof {
            lemma_position(es0, k);
            lemma_position_unique(c0, k, position(es0, k) as int);
        }
        match lru_get(&mut self.index, (cache_id, key)) {
            Some(slot) => {
                proof {
                    let i = position(es0, k) as int;
                    let es1 = lru_entries(self.index);
                    assert(es1 =~= seq![es0[i]] + es0.remove(i));
                    assert(self.contents() =~= to_front(c0, i));
                }
                Some(slot)
            },
            None => None,
        }
    }

    fn value_at(&self, slot: usize) -> (r: &V)
        requires
            self.slot_value(slot) is Some,
        ensures
            Some(*r) == self.slot_value(slot),
    {
        self.slots[slot].as_ref().unwrap()
    }

    /// No key stands twice.
    pub proof fn lemma_distinct(self)
        requires
            self.wf(),
        ensures
            distinct_keys(self.contents()),
            self.contents().len() <= self.room(),
    {
        let es = lru_entries(self.index);
        assert forall|i: int, j: int| 0 <= i < j < self.contents().len() implies (
        #[trigger] self.contents()[i]).0 != (#[trigger] self.contents()[j]).0 by {
            assert(es[i].0 != es[j].0);
        }
    }

    /// Takes a key and its value out.
    pub fn remove(&mut self, cache_id: CacheId, key: u64) -> (r: Option<V>)
        requires
            old(self).wf(),
        ensures
            final(self).wf(),
            final(self).room() == old(self).room(),
            final(self).last_cache_id() == old(self).last_cache_id(),
            ({
                let contents = old(self).contents();
                let i = position(contents, (cache_id, key));
                if i < contents.len() {
                    &&& r == Some(contents[i as int].1)
                    &&& final(self).contents() == contents.remove(i as int)
                } else {
                    &&& r is None
                    &&& final(self).contents() == contents
                }
            }),
    {
        let ghost es0 = lru_entries(self.index);
        let ghost c0 = self.contents();
        let ghost k = (cache_id, key);
        proof {
            lemma_position(es0, k);
            lemma_position_unique(c0, k, position(es0, k) as int);
        }
        match lru_pop(&mut self.index, (cache_id, key)) {
            Some(slot) => {
                let mut old_value: Option<V> = None;
                std::mem::swap(&mut old_value, &mut self.slots[slot]);
                self.free.push(slot);
                proof {
                    let i = position(es0, k) as int;
                    let es1 = lru_entries(self.index);
                    assert(es1 =~= es0.remove(i));
                    assert(self.contents() =~= c0.remove(i));
                }
                old_value
            },
            None => None,
        }
    }
}

/// The 32-bit xxHash of a byte string, with seed 0.
pub uninterp spec fn xx_hash32(bytes: Seq<u8>) -> u32;

/// Hashes with `fasthash::xx::Hasher32`, the 32-bit xxHash with seed 0, which depends on the bytes
/// alone.
#[verifier::external_body]
fn hash32(bytes: &[u8]) -> (r: u32)
    ensures
        r == xx_hash32(bytes@),
{
    let mut hasher = xx::Hasher32::new();
    hasher.write(bytes);
    hasher.finish() as u32
}

/// The shard of a key among `num_shards`.
pub open spec fn shard_of(k: (u32, u64), num_shards: nat) -> nat {
    xx_hash32(coding::le_bytes(k.0 as nat, 4) + coding::le_bytes(k.1 as nat, 8)) as nat
        % num_shards
}

/// The value of a key among entries.
pub open spec fn find<V>(entries: Seq<((u32, u64), V)>, k: (u32, u64)) -> Option<V> {
    let i = position(entries, k);
    if i < entries.len() {
        Some(entries[i as int].1)
    } else {
        None
    }
}

/// Whether no key stands twice.
pub open spec fn distinct_keys<V>(entries: Seq<((u32, u64), V)>) -> bool {
    forall|i: int, j: int|
        0 <= i < j < entries.len() ==> (#[trigger] entries[i]).0 != (#[trigger] entries[j]).0
}

/// Using an entry changes what no key finds.
pub proof fn lemma_find_to_front<V>(entries: Seq<((u32, u64), V)>, i: int, k: (u32, u64))
    requires
        distinct_keys(entries),
        0 <= i < entries.len(),
    ensures
        find(to_front(entries, i), k) == find(entries, k),
{
    let es = to_front(entries, i);
    lemma_position(entries, k);
    let p = position(entries, k) as int;
    if p == entries.len() {
        assert forall|j: int| 0 <= j < es.len() implies #[trigger] es[j].0 != k by {
            if j == 0 {
                assert(es[0] == entries[i]);
            } else if j <= i {
                assert(es[j] == entries[j - 1]);
            } else {
                assert(es[j] == entries[j]);
            }
        }
        lemma_position_unique(es, k, es.len() as int);
    } else {
        let q = if p == i {
            0
        } else if p < i {
            p + 1
        } else {
            p
        };
        assert(es[q] == entries[p]);
        assert forall|j: int| 0 <= j < q implies #[trigger] es[j].0 != k by {
            if j == 0 {
                assert(es[0] == entries[i]);
            } else if j <= i {
                assert(es[j] == entries[j - 1]);
            } else {
                assert(es[j] == entries[j]);
            }
        }
        lemma_position_unique(es, k, q);
    }
}

/// Giving a key a value makes the key find it, and another key finds what it found before or
/// nothing.
pub proof fn lemma_find_put<V>(
    entries: Seq<((u32, u64), V)>,
    capacity: nat,
    k: (u32, u64),
    v: V,
    k2: (u32, u64),
)
    requires
        distinct_keys(entries),
        capacity > 0,
    ensures
        find(put_entries(entries, capacity, k, v), k) == Some(v),
        k2 != k ==> find(put_entries(entries, capacity, k, v), k2) is None || find(
            put_entries(entries, capacity, k, v),
            k2,
        ) == find(entries, k2),
{
    let es = put_entries(entries, capacity, k, v);
    assert(es[0] == (k, v));
    lemma_position_unique(es, k, 0);
    if k2 != k {
        lemma_position(es, k2);
        let q = position(es, k2) as int;
        if q < es.len() {
            lemma_position(entries, k);
            let i = position(entries, k) as int;
            let p = if i < entries.len() && q <= i {
                q - 1
            } else if i < entries.len() {
                q
            } else {
                q - 1
            };
            assert(es[q] == entries[p]);
            lemma_position_unique(entries, k2, p);
        }
    }
}

/// Taking an entry out leaves what the other keys find.
pub proof fn lemma_find_remove<V>(entries: Seq<((u32, u64), V)>, i: int, k: (u32, u64))
    requires
        distinct_keys(entries),
        0 <= i < entries.len(),
    ensures
        find(entries.remove(i), k) == if k == entries[i].0 {
            None
        } else {
            find(entries, k)
        },
{
    let es = entries.remove(i);
    lemma_position(entries, k);
    let p = position(entries, k) as int;
    assert forall|j: int| 0 <= j < es.len() implies #[trigger] es[j] == (if j < i {
        entries[j]
    } else {
        entries[j + 1]
    }) by {}
    if k == entries[i].0 {
        lemma_position_unique(entries, k, i);
        lemma_position_unique(es, k, es.len() as int);
    } else if p == entries.len() {
        lemma_position_unique(es, k, es.len() as int);
    } else {
        let q = if p < i {
            p
        } else {
            p - 1
        };
        lemma_position_unique(es, k, q);
    }
}

/// A cache whose entries are spread over several smaller ones by the hash of their keys.
pub struct ShardedCache<V> {
    num_shards: usize,
    shards: Vec<Cache<V>>,
    last_id: CacheId,
}

impl<V> ShardedCache<V> {
    /// The entries of each shard, the one that was used last first.
    pub closed spec fn contents(self) -> Seq<Seq<((u32, u64), V)>> {
        self.shards@.map_values(|c: Cache<V>| c.contents())
    }

    /// The number of entries that each shard has room for.
    pub closed spec fn room(self) -> nat {
        self.shards@[0].room()
    }

    /// The identifier that is given out next.
    pub closed spec fn next_cache_id(self) -> CacheId {
        self.last_id
    }

    /// The value that a key finds.
    pub open spec fn lookup(self, k: (u32, u64)) -> Option<V> {
        find(self.contents()[shard_of(k, self.contents().len()) as int], k)
    }

    /// There is a shard, the shards are well formed and have the same room.
    pub closed spec fn wf(self) -> bool {
        &&& self.num_shards == self.shards@.len()
        &&& self.num_shards > 0
        &&& forall|i: int|
            0 <= i < self.shards@.len() ==> (#[trigger] self.shards@[i]).wf()
                && self.shards@[i].room() == self.room()
    }

    pub fn new(num_shards: usize, capacity: usize) -> (r: Self)
        requires
            num_shards > 0,
            0 < capacity,
            capacity / num_shards <= MAX_CACHE_CAPACITY,
        ensures
            r.wf(),
            r.contents().len() == num_shards,
            r.room() == capacity / num_shards,
            r.next_cache_id() == 1,
            forall|k: (u32, u64)| #[trigger] r.lookup(k) is None,
    {
        let mut shards: Vec<Cache<V>> = Vec::new();
        let mut i: usize = 0;
        let room: usize = capacity / num_shards;
        while i < num_shards
            invariant
                i <= num_shards,
                shards@.len() == i,
                room <= MAX_CACHE_CAPACITY,
                forall|j: int|
                    0 <= j < i ==> (#[trigger] shards@[j]).wf() && shards@[j].room() == room
                        && shards@[j].contents().len() == 0,
            decreases num_shards - i,
        {
            shards.push(Cache::with_room(room));
            i = i + 1;
        }
        Self { num_shards, shards, last_id: 1 }
    }

    /// The identifier that is given out next.
    pub fn peek_cache_id(&self) -> (r: CacheId)
        ensures
            r == self.next_cache_id(),
    {
        self.last_id
    }

    /// A new identifier for a user of the cache.
    pub fn get_cache_id(&mut self) -> (r: CacheId)
        ensures
            r == old(self).next_cache_id(),
            final(self).next_cache_id() == if r == u32::MAX {
                0
            } else {
                r + 1
            },
            final(self).contents() == old(self).contents(),
            final(self).room() == old(self).room(),
            old(self).wf() ==> final(self).wf(),
    {
        let id = self.last_id;
        self.last_id = self.last_id.wrapping_add(1);
        id
    }

    fn get_shard(&self, cache_id: CacheId, key: u64) -> (r: usize)
        requires
            self.wf(),
        ensures
            r == shard_of((cache_id, key), self.contents().len()),
            r < self.contents().len(),
    {
        let mut bytes: Vec<u8> = Vec::new();
        write_u32_le(&mut bytes, cache_id);
        write_u64_le(&mut bytes, key);
        proof {
            assert(bytes@ =~= coding::le_bytes(cache_id as nat, 4) + coding::le_bytes(
                key as nat,
                8,
            ));
        }
        let hash = hash32(bytes.as_slice());
        hash as usize % self.num_shards
    }

    /// Gives a key a value and hands back the value that it had.
    pub fn insert(&mut self, cache_id: CacheId, key: u64, value: V) -> (r: Option<V>)
        requires
            old(self).wf(),
        ensures
            final(self).wf(),
            final(self).room() == old(self).room(),
            final(self).next_cache_id() == old(self).next_cache_id(),
            r == old(self).lookup((cache_id, key)),
            ({
                let s = shard_of((cache_id, key), old(self).contents().len()) as int;
                final(self).contents() == old(self).contents().update(
                    s,
                    put_entries(
                        old(self).contents()[s],
                        old(self).room(),
                        (cache_id, key),
                        value,
                    ),
                )
            }),
            old(self).room() > 0 ==> final(self).lookup((cache_id, key)) == Some(value),
            forall|k: (u32, u64)|
                k != (cache_id, key) ==> #[trigger] final(self).lookup(k) is None || final(self).lookup(k) == old(self).lookup(k),
            old(self).room() == 0 ==> forall|k: (u32, u64)| #[trigger]
                final(self).lookup(k) == old(self).lookup(k),
    {
        let shard = self.get_shard(cache_id, key);
        let ghost c0 = self.contents();
        let r = self.shards[shard].insert(cache_id, key, value);
        proof {
            let s = shard as int;
            let k0 = (cache_id, key);
            assert(self.contents() =~= c0.update(
                s,
                put_entries(c0[s], old(self).room(), k0, value),
            ));
            old(self).shards@[s].lemma_distinct();
            lemma_position(c0[s], k0);
            assert forall|k: (u32, u64)|
                (k != k0 ==> #[trigger] self.lookup(k) is None || self.lookup(k) == old(self).lookup(k)) && (old(self).room() > 0 && k == k0 ==> self.lookup(k) == Some(value))
                && (old(self).room() == 0 ==> self.lookup(k) == old(self).lookup(k)) by {
                if old(self).room() > 0 {
                    lemma_find_put(c0[s], old(self).room(), k0, value, k);
                }
            }
            assert(old(self).room() > 0 ==> self.lookup(k0) == Some(value));
        }
        r
    }

    /// The value of a key, which is now the one of its shard that was used last.
    pub fn get(&mut self, cache_id: CacheId, key: u64) -> (r: Option<&V>)
        requires
            old(self).wf(),
        ensures
            final(self).wf(),
            final(self).room() == old(self).room(),
            final(self).next_cache_id() == old(self).next_cache_id(),
            match r {
                Some(v) => old(self).lookup((cache_id, key)) == Some(*v),
                None => old(self).lookup((cache_id, key)) is None,
            },
            ({
                let s = shard_of((cache_id, key), old(self).contents().len()) as int;
                let i = position(old(self).contents()[s], (cache_id, key)) as int;
                final(self).contents() == if i < old(self).contents()[s].len() {
                    old(self).contents().update(s, to_front(old(self).contents()[s], i))
                } else {
                    old(self).contents()
                }
            }),
            forall|k: (u32, u64)| #[trigger] final(self).lookup(k) == old(self).lookup(k),
    {
        let shard = self.get_shard(cache_id, key);
        let ghost c0 = self.contents();
        let slot = self.shards[shard].touch(cache_id, key);
        proof {
            let s = shard as int;
            let k0 = (cache_id, key);
            let i = position(c0[s], k0) as int;
            old(self).shards@[s].lemma_distinct();
            lemma_position(c0[s], k0);
            assert(self.contents() =~= if i < c0[s].len() {
                c0.update(s, to_front(c0[s], i))
            } else {
                c0
            });
            assert forall|k: (u32, u64)| #[trigger] self.lookup(k) == old(self).lookup(k) by {
                if i < c0[s].len() {
                    lemma_find_to_front(c0[s], i, k);
                }
            }
        }
        match slot {
            Some(slot) => Some(self.shards[shard].value_at(slot)),
            None => None,
        }
    }

    /// Takes a key and its value out.
    pub fn remove(&mut self, cache_id: CacheId, key: u64) -> (r: Option<V>)
        requires
            old(self).wf(),
        ensures
            final(self).wf(),
            final(self).room() == old(self).room(),
            final(self).next_cache_id() == old(self).next_cache_id(),
            r == old(self).lookup((cache_id, key)),
            ({
                let s = shard_of((cache_id, key), old(self).contents().len()) as int;
                let i = position(old(self).contents()[s], (cache_id, key)) as int;
                final(self).contents() == if i < old(self).contents()[s].len() {
                    old(self).contents().update(s, old(self).contents()[s].remove(i))
                } else {
                    old(self).contents()
                }
            }),
            forall|k: (u32, u64)| #[trigger]
                final(self).lookup(k) == if k == (cache_id, key) {
                    None
                } else {
                    old(self).lookup(k)
                },
    {
        let shard = self.get_shard(cache_id, key);
        let ghost c0 = self.contents();
        let r = self.shards[shard].remove(cache_id, key);
        proof {
            let s = shard as int;
            let k0 = (cache_id, key);
            let i = position(c0[s], k0) as int;
            old(self).shards@[s].lemma_distinct();
            lemma_position(c0[s], k0);
            assert(self.contents() =~= if i < c0[s].len() {
                c0.update(s, c0[s].remove(i))
            } else {
                c0
            });
            assert forall|k: (u32, u64)| #[trigger]
                self.lookup(k) == (if k == k0 {
                    None
                } else {
                    old(self).lookup(k)
                }) by {
                if i < c0[s].len() {
                    lemma_find_remove(c0[s], i, k);
                }
            }
        }
        r
    }
}

} // verus!

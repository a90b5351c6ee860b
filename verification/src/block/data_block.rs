//! Data blocks: sorted runs of key-value pairs with shared key prefixes left out.
//!
//! An entry stores how many bytes its key shares with the key before it, the rest of the key and
//! the value. At restart points the whole key is stored; their offsets follow the entries, so
//! that a search can start from any of them. The number of restart points ends the block.
use crate::block::Block;
use crate::coding;
use crate::coding::{decode_varint, read_u32_le, write_u32_le, write_varint};
use crate::error::Error;
use crate::key;
use crate::key::KeyOrder;
use vstd::prelude::*;
use vstd::slice::{slice_subrange, slice_to_vec};

verus! {

/// The lengths at the head of an entry: bytes shared with the key before, further bytes of the
/// key, bytes of the value, and bytes of the head itself.
pub open spec fn entry_header(s: Seq<u8>) -> Option<(nat, nat, nat, nat)> {
    if !coding::has_varint(s) {
        None
    } else {
        let (shared, a) = coding::read_varint(s).unwrap();
        if !coding::has_varint(s.skip(a as int)) {
            None
        } else {
            let (rest, b) = coding::read_varint(s.skip(a as int)).unwrap();
            if !coding::has_varint(s.skip((a + b) as int)) {
                None
            } else {
                let (value, c) = coding::read_varint(s.skip((a + b) as int)).unwrap();
                Some((shared, rest, value, a + b + c))
            }
        }
    }
}

/// The entry that `s` starts with, read after the key `prev`: its key, its value and the bytes
/// that it takes.
pub open spec fn parse_entry(s: Seq<u8>, prev: Seq<u8>) -> Option<(Seq<u8>, Seq<u8>, nat)> {
    match entry_header(s) {
        None => None,
        Some((shared, rest, value, head)) => if shared > prev.len() || head + rest + value
            > s.len() {
            None
        } else {
            Some(
                (
                    prev.take(shared as int) + s.subrange(head as int, (head + rest) as int),
                    s.subrange((head + rest) as int, (head + rest + value) as int),
                    head + rest + value,
                ),
            )
        },
    }
}

/// All entries of `s`, the first of which is read after the key `prev`.
pub open spec fn parse_entries(s: Seq<u8>, prev: Seq<u8>) -> Option<Seq<(Seq<u8>, Seq<u8>)>>
    decreases s.len(),
{
    if s.len() == 0 {
        Some(Seq::empty())
    } else {
        match parse_entry(s, prev) {
            None => None,
            Some((k, v, n)) => if n == 0 || n > s.len() {
                None
            } else {
                match parse_entries(s.skip(n as int), k) {
                    None => None,
                    Some(rest) => Some(seq![(k, v)] + rest),
                }
            },
        }
    }
}

/// The bytes of an entry whose key shares `shared` bytes with the key before it.
pub open spec fn entry_bytes(shared: nat, k: Seq<u8>, v: Seq<u8>) -> Seq<u8> {
    coding::varint(shared) + coding::varint((k.len() - shared) as nat) + coding::varint(v.len())
        + k.skip(shared as int) + v
}

/// The number of bytes that two keys share at their beginning.
pub open spec fn common_prefix(a: Seq<u8>, b: Seq<u8>) -> nat
    decreases a.len(),
{
    if a.len() > 0 && b.len() > 0 && a[0] == b[0] {
        1 + common_prefix(a.drop_first(), b.drop_first())
    } else {
        0
    }
}

proof fn lemma_common_prefix(a: Seq<u8>, b: Seq<u8>, n: nat)
    requires
        n <= a.len(),
        n <= b.len(),
        forall|i: int| 0 <= i < n ==> a[i] == b[i],
        n < a.len() && n < b.len() ==> a[n as int] != b[n as int],
    ensures
        common_prefix(a, b) == n,
    decreases n,
{
    if n > 0 {
        lemma_common_prefix(a.drop_first(), b.drop_first(), (n - 1) as nat);
    }
}

/// The number of restart points of a block.
pub open spec fn num_restarts(c: Seq<u8>) -> nat {
    coding::le_value(c.skip(c.len() - 4))
}

/// Where the entries of a block end and its restart points begin.
pub open spec fn restarts_offset(c: Seq<u8>) -> int {
    c.len() - 4 - 4 * num_restarts(c)
}

/// The offset that the `i`-th restart point of a block gives.
pub open spec fn restart_at(c: Seq<u8>, i: int) -> nat {
    coding::le_value(
        c.subrange(restarts_offset(c) + 4 * i, restarts_offset(c) + 4 * i + 4),
    )
}

/// The bytes of a block that hold its entries.
pub open spec fn entry_region(c: Seq<u8>) -> Seq<u8> {
    c.take(restarts_offset(c))
}

/// The key-value pairs of a block, in the order in which they are stored.
pub open spec fn block_entries(c: Seq<u8>) -> Seq<(Seq<u8>, Seq<u8>)> {
    parse_entries(entry_region(c), Seq::empty()).unwrap()
}

/// Whether reading `region` from `off` on, with no key before, gives its entries from the `j`-th
/// on.
pub open spec fn restarts_entry(region: Seq<u8>, off: int, j: int) -> bool {
    let entries = parse_entries(region, Seq::empty()).unwrap();
    &&& 0 <= off < region.len()
    &&& 0 <= j < entries.len()
    &&& parse_entries(region.skip(off), Seq::empty()) == Some(entries.skip(j))
}

/// Whether an entry that needs no key before it starts at `off`.
pub open spec fn restart_ok(region: Seq<u8>, off: int) -> bool {
    exists|j: int| restarts_entry(region, off, j)
}

/// Whether `c` has the form of a data block.
pub open spec fn well_formed_block(c: Seq<u8>) -> bool {
    &&& c.len() >= 4
    &&& restarts_offset(c) >= 0
    &&& parse_entries(entry_region(c), Seq::empty()) is Some
    &&& restart_at(c, 0) == 0
    &&& forall|i: int|
        1 <= i < num_restarts(c) ==> restart_ok(
            entry_region(c),
            #[trigger] restart_at(c, i) as int,
        )
}

/// The number of entries before the first one whose key is not less than `key`.
pub open spec fn lower_bound<O: KeyOrder>(
    entries: Seq<(Seq<u8>, Seq<u8>)>,
    key: Seq<u8>,
) -> nat
    decreases entries.len(),
{
    if entries.len() > 0 && O::lt(entries[0].0, key) {
        1 + lower_bound::<O>(entries.drop_first(), key)
    } else {
        0
    }
}

pub proof fn lemma_lower_bound<O: KeyOrder>(
    entries: Seq<(Seq<u8>, Seq<u8>)>,
    key: Seq<u8>,
    n: nat,
)
    requires
        n <= entries.len(),
        forall|i: int| 0 <= i < n ==> O::lt(#[trigger] entries[i].0, key),
        n < entries.len() ==> !O::lt(entries[n as int].0, key),
    ensures
        lower_bound::<O>(entries, key) == n,
    decreases n,
{
    if n > 0 {
        assert(O::lt(entries[0].0, key));
        let rest = entries.drop_first();
        assert forall|i: int| 0 <= i < n - 1 implies O::lt(#[trigger] rest[i].0, key) by {
            assert(rest[i] == entries[i + 1]);
        }
        lemma_lower_bound::<O>(rest, key, (n - 1) as nat);
    }
}

proof fn lemma_header_prefix(s: Seq<u8>, t: Seq<u8>)
    requires
        entry_header(s) is Some,
    ensures
        entry_header(s + t) == entry_header(s),
        3 <= entry_header(s).unwrap().3 <= s.len(),
{
    let (shared, a) = coding::read_varint(s).unwrap();
    coding::lemma_read_varint_prefix(s, t);
    let s1 = s.skip(a as int);
    assert((s + t).skip(a as int) =~= s1 + t);
    let (rest, b) = coding::read_varint(s1).unwrap();
    coding::lemma_read_varint_prefix(s1, t);
    let s2 = s.skip((a + b) as int);
    assert((s + t).skip((a + b) as int) =~= s2 + t);
    coding::lemma_read_varint_prefix(s2, t);
}

proof fn lemma_entry_prefix(s: Seq<u8>, prev: Seq<u8>, t: Seq<u8>)
    requires
        parse_entry(s, prev) is Some,
    ensures
        parse_entry(s + t, prev) == parse_entry(s, prev),
        3 <= parse_entry(s, prev).unwrap().2 <= s.len(),
{
    lemma_header_prefix(s, t);
    let (shared, rest, value, head) = entry_header(s).unwrap();
    assert((s + t).subrange(head as int, (head + rest) as int) =~= s.subrange(
        head as int,
        (head + rest) as int,
    ));
    assert((s + t).subrange((head + rest) as int, (head + rest + value) as int) =~= s.subrange(
        (head + rest) as int,
        (head + rest + value) as int,
    ));
}

proof fn lemma_entry_of_bytes(shared: nat, k: Seq<u8>, v: Seq<u8>, prev: Seq<u8>)
    requires
        shared <= prev.len(),
        shared <= k.len(),
        k.take(shared as int) == prev.take(shared as int),
        k.len() <= usize::MAX,
        v.len() <= usize::MAX,
    ensures
        parse_entry(entry_bytes(shared, k, v), prev) == Some(
            (k, v, entry_bytes(shared, k, v).len()),
        ),
        entry_bytes(shared, k, v).len() >= 3,
{
    let ns = (k.len() - shared) as nat;
    let s = entry_bytes(shared, k, v);
    let tail = k.skip(shared as int) + v;
    let va = coding::varint(shared);
    let vb = coding::varint(ns);
    let vc = coding::varint(v.len());
    coding::lemma_varint_len_u64(shared);
    coding::lemma_varint_len_u64(ns);
    coding::lemma_varint_len_u64(v.len());
    coding::lemma_read_varint_of_varint(shared, vb + vc + tail);
    assert(s =~= va + (vb + vc + tail));
    coding::lemma_read_varint_of_varint(ns, vc + tail);
    assert(s.skip(va.len() as int) =~= vb + (vc + tail));
    coding::lemma_read_varint_of_varint(v.len(), tail);
    assert(s.skip((va.len() + vb.len()) as int) =~= vc + tail);
    let head = va.len() + vb.len() + vc.len();
    assert(entry_header(s) == Some((shared, ns, v.len(), head)));
    assert(s.subrange(head as int, (head + ns) as int) =~= k.skip(shared as int));
    assert(s.subrange((head + ns) as int, (head + ns + v.len()) as int) =~= v);
    assert(prev.take(shared as int) + k.skip(shared as int) =~= k);
}

proof fn lemma_entry_bytes_len(shared: nat, k: Seq<u8>, v: Seq<u8>)
    requires
        shared <= k.len(),
        k.len() <= usize::MAX,
        v.len() <= usize::MAX,
    ensures
        v.len() + 3 <= entry_bytes(shared, k, v).len() <= k.len() + v.len() + 30,
{
    coding::lemma_varint_len_u64(shared);
    coding::lemma_varint_len_u64((k.len() - shared) as nat);
    coding::lemma_varint_len_u64(v.len());
}

/// Appending an entry to the bytes of a run of entries appends its key-value pair to the run.
proof fn lemma_append_entry(
    s: Seq<u8>,
    prev: Seq<u8>,
    shared: nat,
    k: Seq<u8>,
    v: Seq<u8>,
)
    requires
        parse_entries(s, prev) is Some,
        shared <= k.len(),
        k.len() <= usize::MAX,
        v.len() <= usize::MAX,
        ({
            let es = parse_entries(s, prev).unwrap();
            let last = if es.len() == 0 {
                prev
            } else {
                es.last().0
            };
            shared <= last.len() && k.take(shared as int) == last.take(shared as int)
        }),
    ensures
        parse_entries(s + entry_bytes(shared, k, v), prev) == Some(
            parse_entries(s, prev).unwrap().push((k, v)),
        ),
    decreases s.len(),
{
    let e = entry_bytes(shared, k, v);
    let es = parse_entries(s, prev).unwrap();
    if s.len() == 0 {
        lemma_entry_of_bytes(shared, k, v, prev);
        assert(s + e =~= e);
        assert(e.skip(e.len() as int).len() == 0);
        assert(parse_entries(e.skip(e.len() as int), k) == Some(
            Seq::<(Seq<u8>, Seq<u8>)>::empty(),
        ));
        assert(seq![(k, v)] + Seq::<(Seq<u8>, Seq<u8>)>::empty() =~= es.push((k, v)));
    } else {
        lemma_entry_prefix(s, prev, e);
        let (k1, v1, n) = parse_entry(s, prev).unwrap();
        let tail = parse_entries(s.skip(n as int), k1).unwrap();
        assert(es =~= seq![(k1, v1)] + tail);
        if tail.len() > 0 {
            assert(es.last() == tail.last());
        } else {
            assert(es.last() == (k1, v1));
        }
        lemma_append_entry(s.skip(n as int), k1, shared, k, v);
        assert((s + e).skip(n as int) =~= s.skip(n as int) + e);
        assert(seq![(k1, v1)] + tail.push((k, v)) =~= es.push((k, v)));
    }
}

/// A restart point stays one when an entry is appended.
proof fn lemma_restart_kept(s: Seq<u8>, off: int, shared: nat, k: Seq<u8>, v: Seq<u8>)
    requires
        parse_entries(s, Seq::empty()) is Some,
        parse_entries(s, Seq::empty()).unwrap().len() > 0 ==> ({
            let last = parse_entries(s, Seq::empty()).unwrap().last().0;
            shared <= last.len() && k.take(shared as int) == last.take(shared as int)
        }),
        restart_ok(s, off),
        shared <= k.len(),
        k.len() <= usize::MAX,
        v.len() <= usize::MAX,
    ensures
        restart_ok(s + entry_bytes(shared, k, v), off),
{
    let e = entry_bytes(shared, k, v);
    let es = parse_entries(s, Seq::empty()).unwrap();
    let j = choose|j: int| restarts_entry(s, off, j);
    assert(es.skip(j).last() == es.last());
    lemma_append_entry(s, Seq::empty(), shared, k, v);
    lemma_append_entry(s.skip(off), Seq::empty(), shared, k, v);
    assert((s + e).skip(off) =~= s.skip(off) + e);
    assert(es.push((k, v)).skip(j) =~= es.skip(j).push((k, v)));
    assert(restarts_entry(s + e, off, j));
}

/// An entry that shares nothing with the key before it starts a restart point.
proof fn lemma_restart_added(s: Seq<u8>, k: Seq<u8>, v: Seq<u8>)
    requires
        parse_entries(s, Seq::empty()) is Some,
        k.len() <= usize::MAX,
        v.len() <= usize::MAX,
    ensures
        restart_ok(s + entry_bytes(0, k, v), s.len() as int),
{
    let e = entry_bytes(0, k, v);
    let none = Seq::<u8>::empty();
    let es = parse_entries(s, none).unwrap();
    let last = if es.len() == 0 {
        none
    } else {
        es.last().0
    };
    assert(k.take(0) =~= last.take(0));
    assert(k.take(0) =~= none.take(0));
    lemma_entry_of_bytes(0, k, v, none);
    lemma_append_entry(s, none, 0, k, v);
    lemma_append_entry(none, none, 0, k, v);
    assert(none + e =~= e);
    assert((s + e).skip(s.len() as int) =~= e);
    assert(es.push((k, v)).skip(es.len() as int) =~= seq![(k, v)]);
    assert(parse_entries(none, none).unwrap().push((k, v)) =~= seq![(k, v)]);
    assert(restarts_entry(s + e, s.len() as int, es.len() as int));
}

/// Entries that can be read with no key before them read the same after any key.
proof fn lemma_any_prev(s: Seq<u8>, prev: Seq<u8>)
    requires
        parse_entries(s, Seq::empty()) is Some,
    ensures
        parse_entries(s, prev) == parse_entries(s, Seq::empty()),
{
    if s.len() > 0 {
        let (shared, rest, value, head) = entry_header(s).unwrap();
        assert(shared == 0);
        assert(prev.take(0) =~= Seq::<u8>::empty().take(0));
    }
}

/// What holds the entries of a data block.
pub trait DataBlockReader {
    /// The bytes of the entries.
    spec fn payload(&self) -> Seq<u8>;

    /// The bytes of the entries.
    fn get_data_block_payload(&self) -> (r: &[u8])
        ensures
            r@ == self.payload(),
    ;

    /// The number of those bytes.
    fn len(&self) -> (r: usize)
        ensures
            r == self.payload().len(),
    ;
}

/// A data block that is read.
pub struct DataBlockView(Block);

impl DataBlockView {
    pub closed spec fn block(self) -> Block {
        self.0
    }

    pub fn new(block: Block) -> (r: Self)
        ensures
            r.block() == block,
            r.payload() == block@,
    {
        Self(block)
    }

    /// An iterator that stands before the first entry.
    pub fn iter(self) -> (r: DataBlockIterator)
        requires
            well_formed_block(self.block()@),
        ensures
            r.wf(),
            r.entries() == block_entries(self.block()@),
            r.remaining() == r.entries(),
            r.cursor() is None,
    {
        DataBlockIterator::new(self.0)
    }
}

impl DataBlockReader for DataBlockView {
    closed spec fn payload(&self) -> Seq<u8> {
        self.0@
    }

    fn get_data_block_payload(&self) -> (r: &[u8]) {
        self.0.contents().as_slice()
    }

    fn len(&self) -> (r: usize) {
        self.get_data_block_payload().len()
    }
}

/// A position in a data block, which moves from entry to entry.
pub struct DataBlockIterator {
    block: Block,
    offset: usize,
    value_offset: usize,
    restarts_offset: usize,
    restart_key: Vec<u8>,
}

impl DataBlockIterator {
    closed spec fn region(self) -> Seq<u8> {
        entry_region(self.block@)
    }

    /// The bytes of the block.
    pub closed spec fn bytes(self) -> Seq<u8> {
        self.block@
    }

    /// All entries of the block.
    pub closed spec fn entries(self) -> Seq<(Seq<u8>, Seq<u8>)> {
        block_entries(self.block@)
    }

    /// The entries that are still to come.
    pub closed spec fn remaining(self) -> Seq<(Seq<u8>, Seq<u8>)> {
        parse_entries(self.region().skip(self.offset as int), self.restart_key@).unwrap()
    }

    /// The entry that the iterator stands at: the last one that was read, unless its key is
    /// empty.
    pub closed spec fn cursor(self) -> Option<(Seq<u8>, Seq<u8>)> {
        if self.restart_key@.len() > 0 && self.value_offset > 0 {
            Some(
                (
                    self.restart_key@,
                    self.block@.subrange(self.value_offset as int, self.offset as int),
                ),
            )
        } else {
            None
        }
    }

    closed spec fn base(self) -> bool {
        &&& well_formed_block(self.block@)
        &&& self.restarts_offset == restarts_offset(self.block@)
        &&& self.value_offset <= self.offset <= self.restarts_offset
    }

    /// The block is well formed and the iterator stands between two of its entries.
    pub closed spec fn wf(self) -> bool {
        &&& self.base()
        &&& parse_entries(self.region().skip(self.offset as int), self.restart_key@) is Some
        &&& self.remaining().len() <= self.entries().len()
        &&& self.remaining() == self.entries().skip(
            self.entries().len() - self.remaining().len(),
        )
    }

    /// An iterator stands at no entry with an empty key.
    pub proof fn lemma_cursor_key(self)
        ensures
            self.cursor() matches Some(e) ==> e.0.len() > 0,
    {
    }

    /// The entries that are still to come are the last ones of the block.
    pub proof fn lemma_remaining(self)
        requires
            self.wf(),
        ensures
            self.remaining().len() <= self.entries().len(),
            self.remaining() == self.entries().skip(
                self.entries().len() - self.remaining().len(),
            ),
    {
    }

    /// In a block without empty keys an iterator stands at every entry that it reads: no key that
    /// is still to come is empty.
    pub proof fn lemma_reads_are_valid(self, i: int)
        requires
            self.wf(),
            forall|j: int| 0 <= j < self.entries().len() ==> (#[trigger] self.entries()[j]).0.len() > 0,
            0 <= i < self.remaining().len(),
        ensures
            self.remaining()[i].0.len() > 0,
    {
        let p = self.entries().len() - self.remaining().len();
        assert(self.remaining()[i] == self.entries()[p + i]);
    }

    /// Makes an iterator that stands before the first entry of a block.
    pub fn new(block: Block) -> (r: Self)
        requires
            well_formed_block(block@),
        ensures
            r.wf(),
            r.bytes() == block@,
            r.entries() == block_entries(block@),
            r.remaining() == r.entries(),
            r.cursor() is None,
    {
        let mut iter = Self {
            block,
            offset: 0,
            value_offset: 0,
            restarts_offset: 0,
            restart_key: Vec::new(),
        };
        let n = iter.num_restarts();
        iter.restarts_offset = iter.block.contents().len() - n * 4 - 4;
        proof {
            assert(iter.region().skip(0) =~= iter.region());
            assert(iter.restart_key@ =~= Seq::<u8>::empty());
            assert(iter.entries().skip(0) =~= iter.entries());
        }
        iter
    }

    fn num_restarts(&self) -> (r: usize)
        requires
            self.block@.len() >= 4,
        ensures
            r == num_restarts(self.block@),
    {
        let contents = self.block.contents().as_slice();
        let tail = slice_subrange(contents, contents.len() - 4, contents.len());
        proof {
            assert(tail@.take(4) =~= self.block@.skip(self.block@.len() - 4));
        }
        read_u32_le(tail) as usize
    }

    fn get_restart_offset(&self, index: usize) -> (r: usize)
        requires
            self.base(),
            index < num_restarts(self.block@) || index == 0,
        ensures
            r == restart_at(self.block@, index as int),
    {
        let contents = self.block.contents().as_slice();
        let end: usize = contents.len();
        proof {
            assert(self.restarts_offset + 4 * index + 4 <= end);
        }
        let restart = self.restarts_offset + 4 * index;
        let cell = slice_subrange(contents, restart, restart + 4);
        proof {
            assert(cell@.take(4) =~= cell@);
        }
        read_u32_le(cell) as usize
    }

    /// Reads the head of the entry at the offset and moves past the entry.
    fn next_entry(&mut self) -> (r: (usize, usize, usize, usize))
        requires
            old(self).base(),
            entry_header(old(self).region().skip(old(self).offset as int)) is Some,
            ({
                let s = old(self).region().skip(old(self).offset as int);
                let (shared, rest, value, head) = entry_header(s).unwrap();
                head + rest + value <= s.len()
            }),
        ensures
            final(self).base(),
            final(self).block == old(self).block,
            final(self).restart_key == old(self).restart_key,
            entry_header(old(self).region().skip(old(self).offset as int)) == Some(
                (r.0 as nat, r.1 as nat, r.2 as nat, r.3 as nat),
            ),
            r.3 >= 3,
            final(self).value_offset == old(self).offset + r.3 + r.1,
            final(self).offset == final(self).value_offset + r.2,
    {
        let contents = self.block.contents().as_slice();
        let ghost s = self.region().skip(self.offset as int);
        let end = self.restarts_offset;
        let at = self.offset;
        let s0 = slice_subrange(contents, at, end);
        proof {
            assert(s0@ =~= s);
            lemma_header_prefix(s, Seq::empty());
        }
        let (shared, shared_len) = decode_varint(s0);
        let s1 = slice_subrange(s0, shared_len, s0.len());
        proof {
            assert(s1@ =~= s.skip(shared_len as int));
        }
        let (non_shared, non_shared_len) = decode_varint(s1);
        let header_len = shared_len + non_shared_len;
        let s2 = slice_subrange(s0, header_len, s0.len());
        proof {
            assert(s2@ =~= s.skip(header_len as int));
        }
        let (value_len, value_len_len) = decode_varint(s2);
        let header_len = header_len + value_len_len;
        self.value_offset = self.offset + header_len + non_shared;
        self.offset = self.value_offset + value_len;
        (shared, non_shared, value_len, header_len)
    }

    fn assemble_key(&mut self, key_offset: usize, shared: usize, non_shared: usize)
        requires
            old(self).base(),
            shared <= old(self).restart_key@.len(),
            key_offset + non_shared <= old(self).restarts_offset,
        ensures
            final(self).base(),
            final(self).block == old(self).block,
            final(self).offset == old(self).offset,
            final(self).value_offset == old(self).value_offset,
            final(self).restart_key@ == old(self).restart_key@.take(shared as int)
                + old(self).block@.subrange(key_offset as int, key_offset + non_shared),
    {
        self.restart_key.truncate(shared);
        self.restart_key.extend_from_slice(
            slice_subrange(
                self.block.contents().as_slice(),
                key_offset,
                key_offset + non_shared,
            ),
        );
        proof {
            assert(self.restart_key@ =~= old(self).restart_key@.take(shared as int) + old(self).block@.subrange(key_offset as int, key_offset + non_shared));
        }
    }

    /// Moves before the first entry.
    pub fn reset(&mut self)
        requires
            old(self).wf(),
        ensures
            final(self).wf(),
            final(self).bytes() == old(self).bytes(),
            final(self).entries() == old(self).entries(),
            final(self).remaining() == final(self).entries(),
            final(self).cursor() is None,
    {
        self.reset_position();
    }

    fn reset_position(&mut self)
        requires
            old(self).base(),
        ensures
            final(self).wf(),
            final(self).block == old(self).block,
            final(self).remaining() == final(self).entries(),
            final(self).cursor() is None,
    {
        self.offset = 0;
        self.value_offset = 0;
        self.restart_key.clear();
        proof {
            assert(self.region().skip(0) =~= self.region());
            assert(self.restart_key@ =~= Seq::<u8>::empty());
            assert(self.entries().skip(0) =~= self.entries());
        }
    }

    /// Moves past the entry at a restart point and holds its key.
    fn seek_to_restart(&mut self, index: usize)
        requires
            old(self).base(),
            1 <= index < num_restarts(old(self).block@),
        ensures
            final(self).base(),
            final(self).block == old(self).block,
            exists|j: int|
                restarts_entry(
                    final(self).region(),
                    restart_at(final(self).block@, index as int) as int,
                    j,
                ) && #[trigger] final(self).entries()[j].0 == final(self).restart_key@,
    {
        let offset = self.get_restart_offset(index);
        let ghost region = self.region();
        let ghost j = choose|j: int| restarts_entry(region, offset as int, j);
        proof {
            assert(restarts_entry(region, restart_at(self.block@, index as int) as int, j));
            let s = region.skip(offset as int);
            let es = parse_entries(region, Seq::empty()).unwrap();
            let (k, v, n) = parse_entry(s, Seq::empty()).unwrap();
            let tail = parse_entries(s.skip(n as int), k).unwrap();
            assert((seq![(k, v)] + tail)[0] == (k, v));
            assert(es.skip(j)[0] == es[j]);
            lemma_header_prefix(s, Seq::empty());
        }
        self.value_offset = 0;
        self.offset = offset;
        let (shared, non_shared, _, header_len) = self.next_entry();
        proof {
            let s = region.skip(offset as int);
            assert(s.subrange(header_len as int, header_len + non_shared)
                =~= self.block@.subrange(
                offset + header_len,
                offset + header_len + non_shared,
            ));
        }
        self.assemble_key(offset + header_len, shared, non_shared);
        proof {
            assert(self.restart_key@ =~= self.entries()[j].0);
        }
    }

    /// Moves past the first entry whose key is not less than `key`, or before the first entry if
    /// there is none.
    pub fn seek<O: KeyOrder>(&mut self, key: &[u8])
        requires
            old(self).wf(),
            O::valid(key@),
            key::keys_valid::<O>(old(self).entries()),
        ensures
            final(self).wf(),
            final(self).bytes() == old(self).bytes(),
            final(self).entries() == old(self).entries(),
            final(self).cursor() matches Some(e) ==> !O::lt(e.0, key@) && exists|i: int|
                0 <= i < old(self).entries().len() && #[trigger] old(self).entries()[i] == e,
            key::ascending::<O>(old(self).entries()) ==> ({
                let es = old(self).entries();
                let n = lower_bound::<O>(es, key@);
                if n < es.len() {
                    &&& final(self).remaining() == es.skip((n + 1) as int)
                    &&& final(self).cursor() == if es[n as int].0.len() > 0 {
                        Some(es[n as int])
                    } else {
                        None
                    }
                } else {
                    final(self).remaining() == es && final(self).cursor() is None
                }
            }),
    {
        self.reset();
        let ghost es = self.entries();
        let ghost region = self.region();
        let mut low: usize = 0;
        let mut high: usize = if self.num_restarts() > 0 {
            self.num_restarts() - 1
        } else {
            0
        };
        while low < high
            invariant
                self.base(),
                self.block@ == old(self).block@,
                self.entries() == es,
                self.region() == region,
                key::keys_valid::<O>(es),
                O::valid(key@),
                low <= high,
                high < num_restarts(self.block@) || high == 0,
                low > 0 ==> exists|j: int|
                    restarts_entry(region, restart_at(self.block@, low as int) as int, j)
                        && O::lt(#[trigger] es[j].0, key@),
            decreases high - low,
        {
            let mid: usize = high - (high - low) / 2;
            self.seek_to_restart(mid);
            let ghost j = choose|j: int|
                restarts_entry(region, restart_at(self.block@, mid as int) as int, j)
                    && #[trigger] es[j].0 == self.restart_key@;
            if O::less(self.restart_key.as_slice(), key) {
                low = mid;
            } else {
                high = mid - 1;
            }
        }
        let ghost j0: int = if low == 0 {
            0
        } else {
            choose|j: int|
                restarts_entry(region, restart_at(self.block@, low as int) as int, j) && O::lt(
                    #[trigger] es[j].0,
                    key@,
                )
        };
        let start = self.get_restart_offset(low);
        proof {
            if low == 0 {
                assert(region.skip(0) =~= region);
                assert(es.skip(0) =~= es);
            }
        }
        self.value_offset = 0;
        self.offset = start;
        proof {
            lemma_any_prev(region.skip(start as int), self.restart_key@);
            assert(self.remaining() == es.skip(j0));
            assert(es.len() - self.remaining().len() == j0);
            if key::ascending::<O>(es) {
                assert forall|i: int| 0 <= i < j0 implies O::lt(#[trigger] es[i].0, key@) by {
                    O::transitive(es[i].0, es[j0].0, key@);
                }
            }
        }
        loop
            invariant
                self.wf(),
                self.block@ == old(self).block@,
                self.entries() == es,
                O::valid(key@),
                key::keys_valid::<O>(es),
                key::ascending::<O>(es) ==> forall|i: int|
                    0 <= i < es.len() - self.remaining().len() ==> O::lt(#[trigger] es[i].0, key@),
            decreases self.remaining().len(),
        {
            let ghost before = self.remaining();
            let ghost p = es.len() - before.len();
            match self.next() {
                Some((k, v)) => {
                    proof {
                        assert(before[0] == es[p]);
                        assert(es[p].0 == k@);
                        assert(old(self).entries()[p] == (k@, v@));
                        assert(before.drop_first() =~= es.skip(p + 1));
                    }
                    if !O::less(k.as_slice(), key) {
                        proof {
                            if key::ascending::<O>(es) {
                                lemma_lower_bound::<O>(es, key@, p as nat);
                            }
                        }
                        return ;
                    }
                },
                None => {
                    proof {
                        if key::ascending::<O>(es) {
                            lemma_lower_bound::<O>(es, key@, es.len());
                        }
                    }
                    return ;
                },
            }
        }
    }

    /// Whether the iterator stands at an entry.
    pub fn valid(&self) -> (r: bool)
        requires
            self.wf(),
        ensures
            r == (self.cursor() is Some),
    {
        self.restart_key.len() > 0 && self.value_offset > 0 && self.value_offset
            <= self.restarts_offset
    }

    /// The entry that the iterator stands at.
    pub fn current(&self) -> (r: Option<(Vec<u8>, Vec<u8>)>)
        requires
            self.wf(),
        ensures
            match r {
                Some((k, v)) => self.cursor() == Some((k@, v@)),
                None => self.cursor() is None,
            },
    {
        if self.valid() {
            Some(
                (
                    slice_to_vec(self.restart_key.as_slice()),
                    slice_to_vec(
                        slice_subrange(
                            self.block.contents().as_slice(),
                            self.value_offset,
                            self.offset,
                        ),
                    ),
                ),
            )
        } else {
            None
        }
    }

    /// Reads the next entry. At the end the iterator moves back before the first entry.
    pub fn next(&mut self) -> (r: Option<(Vec<u8>, Vec<u8>)>)
        requires
            old(self).wf(),
        ensures
            final(self).wf(),
            final(self).bytes() == old(self).bytes(),
            final(self).entries() == old(self).entries(),
            match r {
                Some((k, v)) => {
                    &&& old(self).remaining().len() > 0
                    &&& (k@, v@) == old(self).remaining()[0]
                    &&& final(self).remaining() == old(self).remaining().drop_first()
                    &&& final(self).cursor() == if k@.len() > 0 {
                        Some((k@, v@))
                    } else {
                        None
                    }
                },
                None => {
                    &&& old(self).remaining().len() == 0
                    &&& final(self).remaining() == final(self).entries()
                    &&& final(self).cursor() is None
                },
            },
    {
        let ghost s = self.region().skip(self.offset as int);
        let ghost prev = self.restart_key@;
        let ghost rem = self.remaining();
        if self.offset >= self.restarts_offset {
            self.reset();
            return None;
        }
        let current_offset = self.offset;
        proof {
            lemma_entry_prefix(s, prev, Seq::empty());
        }
        let ghost (k1, v1, n) = parse_entry(s, prev).unwrap();
        let ghost tail = parse_entries(s.skip(n as int), k1).unwrap();
        let (shared, non_shared, value_len, header_len) = self.next_entry();
        proof {
            assert(s.subrange(header_len as int, header_len + non_shared)
                =~= self.block@.subrange(
                current_offset + header_len,
                current_offset + header_len + non_shared,
            ));
            assert(s.subrange(header_len + non_shared, header_len + non_shared + value_len)
                =~= self.block@.subrange(self.value_offset as int, self.offset as int));
        }
        self.assemble_key(current_offset + header_len, shared, non_shared);
        let value = slice_to_vec(
            slice_subrange(
                self.block.contents().as_slice(),
                self.value_offset,
                self.value_offset + value_len,
            ),
        );
        proof {
            assert(self.restart_key@ == k1);
            assert(value@ == v1);
            assert(s.skip(n as int) =~= self.region().skip(self.offset as int));
            assert(rem == seq![(k1, v1)] + tail);
            assert(rem[0] == (k1, v1));
            assert(rem.drop_first() =~= tail);
            let es = self.entries();
            let p = es.len() - rem.len();
            assert(es.skip(p).drop_first() =~= es.skip(p + 1));
        }
        Some((slice_to_vec(self.restart_key.as_slice()), value))
    }
}

/// Collects key-value pairs into a data block.
pub struct DataBlockBuilder {
    buffer: Vec<u8>,
    restarts: Vec<usize>,
    restart_interval: usize,
    last_key: Option<Vec<u8>>,
    restart_counter: usize,
}

/// The offsets of restart points, four bytes each.
pub open spec fn restart_bytes(restarts: Seq<usize>) -> Seq<u8>
    decreases restarts.len(),
{
    if restarts.len() == 0 {
        Seq::empty()
    } else {
        restart_bytes(restarts.drop_last()) + coding::le_bytes(
            restarts.last() as nat % 0x1_0000_0000,
            4,
        )
    }
}

/// The bytes of the block with the given entries and restart points.
pub open spec fn sealed_block(entries: Seq<u8>, restarts: Seq<usize>) -> Seq<u8> {
    entries + restart_bytes(restarts) + coding::le_bytes(restarts.len() % 0x1_0000_0000, 4)
}

pub proof fn lemma_restart_bytes(restarts: Seq<usize>)
    ensures
        restart_bytes(restarts).len() == 4 * restarts.len(),
        forall|i: int|
            0 <= i < restarts.len() && restarts[i] < 0x1_0000_0000 ==> coding::le_value(
                restart_bytes(restarts).subrange(4 * i, 4 * i + 4),
            ) == #[trigger] restarts[i],
    decreases restarts.len(),
{
    if restarts.len() > 0 {
        let init = restarts.drop_last();
        let last = coding::le_bytes(restarts.last() as nat % 0x1_0000_0000, 4);
        lemma_restart_bytes(init);
        coding::lemma_pow256_values();
        coding::lemma_le_value_of_le_bytes(restarts.last() as nat % 0x1_0000_0000, 4);
        let all = restart_bytes(restarts);
        assert forall|i: int|
            0 <= i < restarts.len() && restarts[i] < 0x1_0000_0000 implies coding::le_value(
            all.subrange(4 * i, 4 * i + 4),
        ) == #[trigger] restarts[i] by {
            if i < init.len() {
                assert(init[i] == restarts[i]);
                assert(all.subrange(4 * i, 4 * i + 4) =~= restart_bytes(init).subrange(
                    4 * i,
                    4 * i + 4,
                ));
            } else {
                assert(all.subrange(4 * i, 4 * i + 4) =~= last);
            }
        }
    }
}

/// Whether the entry after the first `n` ones of a block is a restart point that is added for it.
/// The first entry has one from the start.
pub open spec fn starts_anew(n: nat, interval: usize) -> bool {
    interval == 0 || (n > 0 && n % (interval as nat) == 0)
}

/// The number of entries since the last restart point, after `n` of them.
pub open spec fn entries_since(n: nat, interval: usize) -> nat {
    if n == 0 || interval == 0 {
        0
    } else {
        ((n - 1) as nat) % (interval as nat) + 1
    }
}

/// The number of bytes of a block that holds the entries and has a restart point at every
/// `interval`-th of them.
pub open spec fn block_len(entries: Seq<(Seq<u8>, Seq<u8>)>, interval: usize) -> nat
    decreases entries.len(),
{
    if entries.len() == 0 {
        8
    } else {
        let init = entries.drop_last();
        let (k, v) = entries.last();
        let anew = starts_anew(init.len(), interval);
        let shared = if anew || init.len() == 0 {
            0
        } else {
            common_prefix(init.last().0, k)
        };
        block_len(init, interval) + entry_bytes(shared, k, v).len() + if anew {
            4nat
        } else {
            0
        }
    }
}

proof fn lemma_entries_since(n: nat, interval: usize)
    ensures
        entries_since(n, interval) >= interval <==> starts_anew(n, interval),
        entries_since(n + 1, interval) == if interval == 0 {
            0
        } else if starts_anew(n, interval) {
            1
        } else {
            entries_since(n, interval) + 1
        },
        entries_since(n, interval) <= interval,
{
    if interval > 0 {
        let i = interval as int;
        let m = n as int;
        if m == 0 {
            assert(0int % i == 0) by (nonlinear_arith)
                requires
                    i > 0,
            ;
        } else {
            let r = (m - 1) % i;
            let q = (m - 1) / i;
            vstd::arithmetic::div_mod::lemma_fundamental_div_mod(m - 1, i);
            assert(0 <= r < i) by (nonlinear_arith)
                requires
                    i > 0,
                    r == (m - 1) % i,
            ;
            if r + 1 == i {
                assert(m == (q + 1) * i + 0) by (nonlinear_arith)
                    requires
                        m - 1 == i * q + r,
                        r + 1 == i,
                ;
                vstd::arithmetic::div_mod::lemma_fundamental_div_mod_converse(m, i, q + 1, 0);
            } else {
                assert(m == q * i + (r + 1)) by (nonlinear_arith)
                    requires
                        m - 1 == i * q + r,
                ;
                vstd::arithmetic::div_mod::lemma_fundamental_div_mod_converse(m, i, q, r + 1);
            }
        }
    }
}

/// A block is as long as its entries, four bytes for each restart point and four for their number.
pub proof fn lemma_sealed_len(entries: Seq<u8>, restarts: Seq<usize>)
    ensures
        sealed_block(entries, restarts).len() == entries.len() + 4 * restarts.len() + 4,
{
    lemma_restart_bytes(restarts);
    coding::lemma_le_bytes_len(restarts.len() % 0x1_0000_0000, 4);
}

proof fn lemma_sealed_block(entries: Seq<u8>, restarts: Seq<usize>)
    requires
        parse_entries(entries, Seq::empty()) is Some,
        restarts.len() >= 1,
        restarts[0] == 0,
        entries.len() < 0x1_0000_0000,
        restarts.len() < 0x1_0000_0000,
        forall|i: int|
            1 <= i < restarts.len() ==> restart_ok(entries, #[trigger] restarts[i] as int),
    ensures
        well_formed_block(sealed_block(entries, restarts)),
        entry_region(sealed_block(entries, restarts)) == entries,
        block_entries(sealed_block(entries, restarts)) == parse_entries(
            entries,
            Seq::empty(),
        ).unwrap(),
{
    let c = sealed_block(entries, restarts);
    let rb = restart_bytes(restarts);
    lemma_restart_bytes(restarts);
    coding::lemma_pow256_values();
    coding::lemma_le_value_of_le_bytes(restarts.len(), 4);
    assert(c.skip(c.len() - 4) =~= coding::le_bytes(restarts.len() % 0x1_0000_0000, 4));
    assert(restarts_offset(c) == entries.len());
    assert(entry_region(c) =~= entries);
    assert forall|i: int| 0 <= i < restarts.len() implies restart_at(c, i) == (if restarts[i]
        < 0x1_0000_0000 {
        restarts[i] as nat
    } else {
        restart_at(c, i)
    }) by {
        assert(c.subrange(
            restarts_offset(c) + 4 * i,
            restarts_offset(c) + 4 * i + 4,
        ) =~= rb.subrange(4 * i, 4 * i + 4));
    }
    assert(restart_at(c, 0) == restarts[0]);
    assert forall|i: int| 1 <= i < num_restarts(c) implies restart_ok(
        entry_region(c),
        #[trigger] restart_at(c, i) as int,
    ) by {
        assert(restart_ok(entries, restarts[i] as int));
        assert(restart_at(c, i) == restarts[i]);
    }
}

impl DataBlockReader for DataBlockBuilder {
    closed spec fn payload(&self) -> Seq<u8> {
        self.buffer@
    }

    fn get_data_block_payload(&self) -> (r: &[u8]) {
        self.buffer.as_slice()
    }

    fn len(&self) -> (r: usize) {
        self.get_data_block_payload().len()
    }
}

impl DataBlockBuilder {
    /// The key-value pairs that were added, in order.
    pub closed spec fn entries(self) -> Seq<(Seq<u8>, Seq<u8>)> {
        parse_entries(self.buffer@, Seq::empty()).unwrap()
    }

    /// The offsets of the restart points.
    pub closed spec fn restart_points(self) -> Seq<usize> {
        self.restarts@
    }

    /// The key that was added last and that the next one is stored after.
    pub closed spec fn last_added(self) -> Option<Seq<u8>> {
        match self.last_key {
            Some(k) => Some(k@),
            None => None,
        }
    }

    /// The number of pairs since the last restart point.
    pub closed spec fn since_restart(self) -> nat {
        self.restart_counter as nat
    }

    /// The number of bytes that the block would take.
    pub open spec fn sealed_len(self) -> nat {
        self.payload().len() + 4 * self.restart_points().len() + 4
    }

    /// The number of pairs after which a key is stored in full again.
    pub closed spec fn interval(self) -> usize {
        self.restart_interval
    }

    /// The buffer holds the entries and each restart point is the offset of one of them. So it is
    /// but for a builder whose block was taken out and that was not reset.
    pub closed spec fn wf(self) -> bool {
        &&& parse_entries(self.buffer@, Seq::empty()) is Some
        &&& self.restarts@.len() >= 1
        &&& self.restarts@[0] == 0
        &&& self.restart_counter == entries_since(self.entries().len(), self.restart_interval)
        &&& self.sealed_len() == block_len(self.entries(), self.restart_interval)
        &&& forall|i: int|
            1 <= i < self.restarts@.len() ==> restart_ok(
                self.buffer@,
                #[trigger] self.restarts@[i] as int,
            )
        &&& match self.last_key {
            Some(k) => self.entries().len() > 0 && self.entries().last().0 == k@,
            None => self.buffer@.len() == 0,
        }
    }

    /// The number of bytes of the block depends on the pairs and the interval alone.
    pub proof fn lemma_block_len(self)
        requires
            self.wf(),
        ensures
            self.sealed_len() == block_len(self.entries(), self.interval()),
    {
    }

    /// The key that was added last is that of the last pair.
    pub proof fn lemma_last_added(self)
        requires
            self.wf(),
        ensures
            self.last_added() == if self.entries().len() == 0 {
                None
            } else {
                Some(self.entries().last().0)
            },
    {
    }

    /// Makes an empty builder.
    pub fn new(restart_interval: usize) -> (r: Self)
        ensures
            r.wf(),
            r.entries() == Seq::<(Seq<u8>, Seq<u8>)>::empty(),
            r.last_added() is None,
            r.sealed_len() == 8,
            r.interval() == restart_interval,
            r.payload() == Seq::<u8>::empty(),
            r.restart_points() == seq![0usize],
            r.since_restart() == 0,
    {
        let mut restarts: Vec<usize> = Vec::new();
        restarts.push(0);
        let r = Self {
            buffer: Vec::new(),
            restarts,
            restart_interval,
            last_key: None,
            restart_counter: 0,
        };
        assert(r.restarts@ =~= seq![0usize]);
        r
    }

    /// Whether nothing was added since the builder was made or reset, or its block taken out.
    pub fn empty(&self) -> (r: bool)
        ensures
            r == (self.payload().len() == 0),
            self.wf() ==> r == (self.entries().len() == 0),
            self.wf() && r ==> self.sealed_len() == 8,
    {
        proof {
            if self.wf() && self.buffer@.len() == 0 && self.restarts@.len() > 1 {
                assert(restart_ok(self.buffer@, self.restarts@[1] as int));
            }
            if self.wf() && self.buffer@.len() > 0 {
                let (k, v, n) = parse_entry(self.buffer@, Seq::empty()).unwrap();
                let tail = parse_entries(self.buffer@.skip(n as int), k).unwrap();
                assert((seq![(k, v)] + tail).len() > 0);
            }
        }
        self.len() == 0
    }

    /// The number of bytes that the block would take.
    pub fn full_len(&self) -> (r: usize)
        requires
            self.sealed_len() <= usize::MAX,
        ensures
            r == self.sealed_len(),
    {
        self.len() + self.restarts.len() * 4 + 4
    }

    /// Forgets everything that was added.
    pub fn reset(&mut self)
        ensures
            final(self).wf(),
            final(self).entries() == Seq::<(Seq<u8>, Seq<u8>)>::empty(),
            final(self).last_added() is None,
            final(self).interval() == old(self).interval(),
            final(self).payload() == Seq::<u8>::empty(),
            final(self).restart_points() == seq![0usize],
            final(self).since_restart() == 0,
    {
        self.buffer.clear();
        let mut restarts: Vec<usize> = Vec::new();
        restarts.push(0);
        self.restarts = restarts;
        self.restart_counter = 0;
        self.last_key = None;
        proof {
            assert(self.buffer@ =~= Seq::<u8>::empty());
            assert(self.restarts@ =~= seq![0usize]);
        }
    }

    /// Adds a key-value pair.
    pub fn add(&mut self, key: &[u8], value: &[u8]) -> (r: Result<(), Error>)
        ensures
            r is Ok,
            old(self).wf() ==> final(self).wf() && final(self).entries()
                == old(self).entries().push((key@, value@)),
            final(self).last_added() == Some(key@),
            final(self).payload().len() > 0,
            final(self).interval() == old(self).interval(),
            old(self).sealed_len() + value@.len() + 3 <= final(self).sealed_len(),
            final(self).sealed_len() <= old(self).sealed_len() + key@.len() + value@.len() + 34,
            ({
                let restart = old(self).since_restart() >= old(self).interval();
                let shared = match old(self).last_added() {
                    Some(last) if !restart => common_prefix(last, key@),
                    _ => 0,
                };
                let since: nat = if restart {
                    0
                } else {
                    old(self).since_restart()
                };
                &&& final(self).payload() == old(self).payload() + entry_bytes(
                    shared,
                    key@,
                    value@,
                )
                &&& final(self).restart_points() == if restart {
                    old(self).restart_points().push(old(self).payload().len() as usize)
                } else {
                    old(self).restart_points()
                }
                &&& final(self).since_restart() == if since < old(self).interval() {
                    since + 1
                } else {
                    since
                }
            }),
    {
        let ghost buf0 = self.buffer@;
        let ghost es0 = self.entries();
        let shared: usize = if self.restart_counter < self.restart_interval {
            match &self.last_key {
                Some(last_key) => shared_prefix(last_key.as_slice(), key),
                None => 0,
            }
        } else {
            self.restarts.push(self.buffer.len());
            self.last_key = None;
            self.restart_counter = 0;
            0
        };
        write_entry(&mut self.buffer, shared, key, value);
        proof {
            lemma_entry_bytes_len(shared as nat, key@, value@);
            if old(self).wf() {
                let last = if es0.len() == 0 {
                    Seq::<u8>::empty()
                } else {
                    es0.last().0
                };
                if shared == 0 {
                    assert(key@.take(0) =~= last.take(0));
                }
                lemma_append_entry(buf0, Seq::empty(), shared as nat, key@, value@);
                lemma_entries_since(es0.len(), self.restart_interval);
                assert(self.entries() == es0.push((key@, value@)));
                assert(self.entries().drop_last() =~= es0);
                assert forall|i: int| 1 <= i < self.restarts@.len() implies restart_ok(
                    self.buffer@,
                    #[trigger] self.restarts@[i] as int,
                ) by {
                    let r = self.restarts@[i] as int;
                    if i < old(self).restarts@.len() {
                        assert(r == old(self).restarts@[i]);
                        lemma_restart_kept(buf0, r, shared as nat, key@, value@);
                    } else {
                        assert(r == buf0.len());
                        lemma_restart_added(buf0, key@, value@);
                    }
                }
            }
        }
        self.remember(shared, key);
        if self.restart_counter < self.restart_interval {
            self.restart_counter = self.restart_counter + 1;
        }
        Ok(())
    }

    fn remember(&mut self, shared: usize, key: &[u8])
        requires
            shared <= key@.len(),
            old(self).last_key matches Some(k) ==> shared <= k@.len() && k@.take(shared as int)
                == key@.take(shared as int),
        ensures
            final(self).buffer == old(self).buffer,
            final(self).restarts == old(self).restarts,
            final(self).restart_interval == old(self).restart_interval,
            final(self).restart_counter == old(self).restart_counter,
            final(self).last_key matches Some(k) && k@ == key@,
    {
        match self.last_key.take() {
            Some(k) => {
                let mut last_key = k;
                let ghost k0 = last_key@;
                last_key.truncate(shared);
                last_key.extend_from_slice(slice_subrange(key, shared, key.len()));
                proof {
                    assert(key@ =~= key@.take(shared as int) + key@.skip(shared as int));
                    assert(last_key@ =~= key@);
                }
                self.last_key = Some(last_key);
            },
            None => {
                self.last_key = Some(slice_to_vec(key));
            },
        }
    }

    /// Takes the bytes of the block out of the builder, which has to be reset before another block
    /// is built with it: the key that was added last is kept.
    pub fn seal(&mut self) -> (r: Vec<u8>)
        ensures
            r@ == sealed_block(old(self).payload(), old(self).restart_points()),
            r@.len() == old(self).sealed_len(),
            old(self).wf() && old(self).sealed_len() < 0x1_0000_0000 ==> well_formed_block(r@)
                && block_entries(r@) == old(self).entries(),
            final(self).interval() == old(self).interval(),
            final(self).payload() == Seq::<u8>::empty(),
            final(self).restart_points() == Seq::<usize>::empty(),
            final(self).last_added() == old(self).last_added(),
            final(self).since_restart() == old(self).since_restart(),
    {
        let num_restarts = self.restarts.len();
        let mut i: usize = 0;
        let ghost buf0 = self.buffer@;
        let ghost rs = self.restarts@;
        while i < num_restarts
            invariant
                i <= num_restarts,
                num_restarts == rs.len(),
                self.restarts@ == rs,
                self.restart_interval == old(self).restart_interval,
                self.last_key == old(self).last_key,
                self.restart_counter == old(self).restart_counter,
                self.buffer@ == buf0 + restart_bytes(rs.take(i as int)),
            decreases num_restarts - i,
        {
            let r: u32 = low_u32(self.restarts[i]);
            write_u32_le(&mut self.buffer, r);
            proof {
                assert(rs.take(i + 1).drop_last() =~= rs.take(i as int));
                assert(self.buffer@ =~= buf0 + restart_bytes(rs.take(i + 1)));
            }
            i = i + 1;
        }
        self.restarts.clear();
        let n: u32 = low_u32(num_restarts);
        write_u32_le(&mut self.buffer, n);
        proof {
            assert(rs.take(rs.len() as int) =~= rs);
            assert(self.buffer@ =~= sealed_block(buf0, rs));
            lemma_sealed_len(buf0, rs);
            if old(self).wf() && old(self).sealed_len() < 0x1_0000_0000 {
                lemma_sealed_block(buf0, rs);
            }
        }
        let mut out: Vec<u8> = Vec::new();
        std::mem::swap(&mut out, &mut self.buffer);
        proof {
            assert(self.restarts@ =~= Seq::<usize>::empty());
            assert(self.buffer@ =~= Seq::<u8>::empty());
        }
        out
    }
}

/// The number of bytes that two keys share at their beginning.
fn shared_prefix(a: &[u8], b: &[u8]) -> (r: usize)
    ensures
        r <= a@.len(),
        r <= b@.len(),
        a@.take(r as int) == b@.take(r as int),
        r == common_prefix(a@, b@),
{
    let min_len: usize = if a.len() < b.len() {
        a.len()
    } else {
        b.len()
    };
    let mut shared: usize = 0;
    while shared < min_len && a[shared] == b[shared]
        invariant
            shared <= min_len,
            min_len <= a@.len(),
            min_len <= b@.len(),
            forall|i: int| 0 <= i < shared ==> a@[i] == b@[i],
        decreases min_len - shared,
    {
        shared = shared + 1;
    }
    proof {
        assert(a@.take(shared as int) =~= b@.take(shared as int));
        lemma_common_prefix(a@, b@, shared as nat);
    }
    shared
}

fn write_entry(buffer: &mut Vec<u8>, shared: usize, key: &[u8], value: &[u8])
    requires
        shared <= key@.len(),
    ensures
        final(buffer)@ == old(buffer)@ + entry_bytes(shared as nat, key@, value@),
        key@.len() <= usize::MAX,
        value@.len() <= usize::MAX,
{
    write_varint(buffer, shared);
    write_varint(buffer, key.len() - shared);
    write_varint(buffer, value.len());
    let rest = slice_subrange(key, shared, key.len());
    buffer.extend_from_slice(rest);
    buffer.extend_from_slice(value);
    proof {
        assert(rest@ =~= key@.skip(shared as int));
        assert(buffer@ =~= old(buffer)@ + entry_bytes(shared as nat, key@, value@));
    }
}

/// The low 32 bits of a machine word.
pub fn low_u32(n: usize) -> (r: u32)
    ensures
        r == n as nat % 0x1_0000_0000,
{
    let m: u64 = n as u64 % 0x1_0000_0000;
    m as u32
}

} // verus!

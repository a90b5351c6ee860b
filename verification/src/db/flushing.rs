//! What a flush takes out of the memory table, in terms of the numbers of transactions.
use crate::db::flush;
use crate::db::DbView;
use crate::key::KeyOrder;
use crate::memtable;
use crate::memtable::rules;
use crate::storage::RedoView;
use crate::table::TableStore;
use crate::transaction::transaction_manager::TransactionManager;
use crate::transaction::Timestamp;
use vstd::prelude::*;

verus! {

/// Whether a version is older than what transactions in progress need, by its mark: it was
/// committed before the oldest of them, or carries a start that is older than that one by more
/// than an age. The upper two bits of a mark tell which it is.
pub open spec fn is_old(ts: Timestamp, oldest: nat, age: nat) -> bool {
    let c = ts.0 as nat % 0x4000_0000_0000_0000;
    let kind = ts.0 as nat / 0x4000_0000_0000_0000;
    ||| kind == 0 && c < oldest
    ||| (kind == 1 || kind == 2) && c + age < oldest
}

/// Whether the last of the `n` first versions of a chain is old and was taken by no flush, and
/// none behind it is old.
pub open spec fn old_versions(chain: Seq<RedoView>, oldest: nat, age: nat, n: int) -> bool {
    &&& 0 <= n <= chain.len()
    &&& n > 0 ==> is_old(chain[n - 1].timestamp, oldest, age) && chain[n - 1].collected.0 == 0
    &&& forall|i: int|
        n <= i < chain.len() ==> !is_old((#[trigger] chain[i]).timestamp, oldest, age)
}

/// Whether the number of a mark is in the first half of its range, and stays there with an age
/// added.
pub open spec fn in_first_half(ts: Timestamp, age: nat) -> bool {
    let c = ts.0 as nat % 0x4000_0000_0000_0000;
    0 < c < 0x2000_0000_0000_0000 && c + age <= 0x2000_0000_0000_0000
}

/// What can leave the memory table is what is old.
proof fn lemma_old_is_safe(ts: Timestamp, xip: Timestamp, age: usize)
    requires
        in_first_half(ts, age as nat),
        0 < xip.0 < 0x2000_0000_0000_0000,
    ensures
        memtable::safe_for_gc(ts, xip, age) <==> is_old(ts, xip.0 as nat, age as nat),
{
    let c = ts.0 as nat % 0x4000_0000_0000_0000;
    rules::lemma_leave_rule(ts, xip, age, c);
    let kind = ts.0 as nat / 0x4000_0000_0000_0000;
    assert(ts.0 == kind * 0x4000_0000_0000_0000 + c && kind < 4);
    if kind == 1 || kind == 2 {
        assert(rules::start_marks(c).contains(ts.0));
    }
}

/// A flush takes of each key the last value that is older than what transactions in progress need,
/// or that it was deleted. Once the memory table was cleared, only the versions behind that one
/// are left, and where there are none the key is gone. Of a key that has no such value nothing is
/// taken, and its versions stay.
pub proof fn lemma_flush_takes_old_versions<S: TableStore>(
    before: DbView<S>,
    after: DbView<S>,
    entries: Seq<(Seq<u8>, Option<Seq<u8>>)>,
    k: Seq<u8>,
    n: int,
    v: Option<Seq<u8>>,
)
    requires
        before.txnmgr.wf(),
        before.takes(entries),
        flush::cleared(
            before.marked_memory(),
            after.memory,
            before.flush_xip(),
            before.options.gc_freeze_min_age,
        ),
        before.txnmgr.oldest() < 0x2000_0000_0000_0000,
        old_versions(
            before.chain(k),
            before.txnmgr.oldest(),
            before.options.gc_freeze_min_age as nat,
            n,
        ),
        forall|i: int|
            0 <= i < before.chain(k).len() ==> (#[trigger] before.chain(k)[i]).collected.0
                != before.txnmgr.oldest() && in_first_half(
                before.chain(k)[i].timestamp,
                before.options.gc_freeze_min_age as nat,
            ),
    ensures
        entries.contains((k, v)) <==> n > 0 && v == before.chain(k)[n - 1].value,
        before.taken_keys().contains(k) <==> n > 0,
        after.chain(k) == before.chain(k).skip(n),
        n == before.chain(k).len() && n > 0 ==> !after.memory.contains_key(k),
{
    let xip = before.flush_xip();
    let age = before.options.gc_freeze_min_age;
    let chain = before.chain(k);
    before.txnmgr.lemma_oldest();
    assert(xip.0 == before.txnmgr.oldest());
    assert forall|i: int| n <= i < chain.len() implies !memtable::safe_for_gc(
        (#[trigger] chain[i]).timestamp,
        xip,
        age,
    ) by {
        lemma_old_is_safe(chain[i].timestamp, xip, age);
    }
    if n > 0 {
        lemma_old_is_safe(chain[n - 1].timestamp, xip, age);
    }
    rules::lemma_collection_rule(chain, xip, age, n);
    rules::lemma_taken_place(chain, xip, age, n);
    let rest = memtable::after_flush(chain, xip, age);
    if n == 0 {
        assert(chain.skip(0) =~= chain);
    }
    assert(rest == chain.skip(n));
    if before.memory.contains_key(k) {
        let marked = memtable::after_snapshot(chain, xip, age);
        assert(before.marked_memory()[k] == marked);
        assert(before.marked_memory().contains_key(k));
        assert(after.chain(k) =~= rest);
        if n == chain.len() && n > 0 {
            assert(memtable::chain_leaves(marked, xip, age)) by {
                assert(marked.last().collected == xip);
                assert(marked.last().timestamp == chain[n - 1].timestamp);
            }
        }
    } else {
        assert(!before.marked_memory().contains_key(k));
        assert(chain.len() == 0);
        assert(after.chain(k) =~= rest);
    }
}

/// The entries of a flush that are written to its table are those that are no deletions, in their
/// order.
pub proof fn lemma_live(entries: Seq<(Seq<u8>, Option<Seq<u8>>)>, k: Seq<u8>, v: Seq<u8>)
    ensures
        flush::live(entries).contains((k, v)) <==> entries.contains((k, Some(v))),
        flush::live(entries) == entries.filter(
            |e: (Seq<u8>, Option<Seq<u8>>)| e.1 is Some,
        ).map_values(|e: (Seq<u8>, Option<Seq<u8>>)| (e.0, e.1->0)),
    decreases entries.len(),
{
    reveal(Seq::filter);
    let some = |e: (Seq<u8>, Option<Seq<u8>>)| e.1 is Some;
    let pair = |e: (Seq<u8>, Option<Seq<u8>>)| (e.0, e.1->0);
    if entries.len() > 0 {
        let init = entries.drop_last();
        lemma_live(init, k, v);
        let last = entries.last();
        let out = flush::live(entries);
        let part = flush::live(init);
        assert(out =~= entries.filter(some).map_values(pair));
        if out.contains((k, v)) {
            let i = choose|i: int| 0 <= i < out.len() && out[i] == (k, v);
            if i < part.len() {
                assert(part[i] == (k, v));
                assert(init.contains((k, Some(v))));
                let j = choose|j: int| 0 <= j < init.len() && init[j] == (k, Some(v));
                assert(entries[j] == (k, Some(v)));
            } else {
                assert(entries[entries.len() - 1] == (k, Some(v)));
            }
        }
        if entries.contains((k, Some(v))) {
            let j = choose|j: int| 0 <= j < entries.len() && entries[j] == (k, Some(v));
            if j < init.len() {
                assert(init[j] == (k, Some(v)));
                assert(part.contains((k, v)));
                let i = choose|i: int| 0 <= i < part.len() && part[i] == (k, v);
                assert(out[i] == (k, v));
            } else {
                assert(out[out.len() - 1] == (k, v));
            }
        }
    } else {
        assert(flush::live(entries) =~= entries.filter(some).map_values(pair));
    }
}

/// Looking up the oldest transaction in progress changes nothing that is in progress. Where none
/// is, the number that is given out next is the one, and that one and the next are used up for it.
pub proof fn lemma_look_up(before: TransactionManager, after: TransactionManager)
    requires
        flush::looked_up(after, before),
        before.wf(),
    ensures
        after.active() == before.active(),
        before.active().len() > 0 ==> after.cached() == before.active()[0] && after.counter()
            == before.counter(),
        before.active().len() == 0 ==> after.cached().0 == before.counter() && after.counter()
            == before.counter() + 2,
{
    before.lemma_oldest();
}

/// The file of a flush has the keys and values that are no deletions, goes from the first key to
/// the last, and is as old as the flush.
pub proof fn lemma_flushed_file<O: KeyOrder>(
    files: Map<crate::table::TableFileRef, Seq<u8>>,
    meta: crate::table::FileMeta,
    min_xip: Timestamp,
    entries: Seq<(Seq<u8>, Option<Seq<u8>>)>,
    k: Seq<u8>,
    v: Seq<u8>,
)
    requires
        flush::flushed_file(files, meta, min_xip, entries),
    ensures
        crate::version::contents::entries_in(files, meta).contains((k, v)) <==> entries.contains(
            (k, Some(v)),
        ),
        meta.infimum == entries[0].0,
        meta.supremum == entries[entries.len() - 1].0,
        meta.min_xip == min_xip,
        meta.size == files[meta.file_ref].len(),
        !meta.being_compacted,
{
    lemma_live(entries, k, v);
}

} // verus!

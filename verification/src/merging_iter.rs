//! Merges sorted tables.
pub mod precedence;

use crate::error::Error;
use crate::key;
use crate::key::{bytes_equal, KeyOrder};
use crate::table;
use crate::table::{OwningTableIterator, TableIterator};
use crate::transaction::Timestamp;
use crate::utils::random_access::RandomAccess;
use std::marker::PhantomData;
use vstd::prelude::*;

verus! {

/// An entry with the age of the table that it comes from.
pub struct Dated {
    pub timestamp: Timestamp,
    pub key: Seq<u8>,
    pub value: Seq<u8>,
}

/// The number of entries that are left in several tables.
pub open spec fn total(rests: Seq<Seq<(Seq<u8>, Seq<u8>)>>) -> nat
    decreases rests.len(),
{
    if rests.len() == 0 {
        0
    } else {
        total(rests.drop_last()) + rests.last().len()
    }
}

/// Which of the first `n` tables has the smallest next key; the first of them where several have
/// it.
pub open spec fn smallest<O: KeyOrder>(rests: Seq<Seq<(Seq<u8>, Seq<u8>)>>, n: nat) -> Option<int>
    decreases n,
{
    if n == 0 {
        None
    } else {
        let best = smallest::<O>(rests, (n - 1) as nat);
        if rests[n - 1].len() == 0 {
            best
        } else {
            match best {
                None => Some(n - 1),
                Some(j) => if O::lt(rests[n - 1][0].0, rests[j][0].0) {
                    Some(n - 1)
                } else {
                    best
                },
            }
        }
    }
}

/// What is left after the next entry of a table was taken.
pub open spec fn taken(
    rests: Seq<Seq<(Seq<u8>, Seq<u8>)>>,
    i: int,
) -> Seq<Seq<(Seq<u8>, Seq<u8>)>> {
    rests.update(i, rests[i].drop_first())
}

/// The next entry of a table.
pub open spec fn head(
    ages: Seq<Timestamp>,
    rests: Seq<Seq<(Seq<u8>, Seq<u8>)>>,
    i: int,
) -> Dated {
    Dated { timestamp: ages[i], key: rests[i][0].0, value: rests[i][0].1 }
}

/// Whether an entry is to be replaced by one with the same key from a later table: the later table
/// has an age, and is the younger one.
pub open spec fn replaces(old_age: Timestamp, new_age: Timestamp) -> bool {
    !new_age.invalid() && old_age.before(new_age)
}

/// The entries that come out of a merge of what is left in several tables, after an entry that was
/// taken already.
pub open spec fn merged<O: KeyOrder>(
    current: Option<Dated>,
    ages: Seq<Timestamp>,
    rests: Seq<Seq<(Seq<u8>, Seq<u8>)>>,
) -> Seq<(Seq<u8>, Seq<u8>)>
    decreases total(rests),
{
    match smallest::<O>(rests, rests.len()) {
        None => match current {
            None => Seq::empty(),
            Some(c) => seq![(c.key, c.value)],
        },
        Some(i) => {
            let next = head(ages, rests, i);
            let rest = taken(rests, i);
            proof {
                lemma_smallest::<O>(rests, rests.len());
                lemma_total_taken(rests, i);
            }
            match current {
                None => merged::<O>(Some(next), ages, rest),
                Some(c) => if next.key == c.key {
                    if replaces(c.timestamp, next.timestamp) {
                        merged::<O>(Some(next), ages, rest)
                    } else {
                        merged::<O>(Some(c), ages, rest)
                    }
                } else {
                    seq![(c.key, c.value)] + merged::<O>(Some(next), ages, rest)
                },
            }
        },
    }
}

/// Taking an entry leaves one fewer.
pub proof fn lemma_total_taken(rests: Seq<Seq<(Seq<u8>, Seq<u8>)>>, i: int)
    requires
        0 <= i < rests.len(),
        rests[i].len() > 0,
    ensures
        total(taken(rests, i)) == total(rests) - 1,
    decreases rests.len(),
{
    let after = taken(rests, i);
    if i == rests.len() - 1 {
        assert(after.drop_last() =~= rests.drop_last());
    } else {
        assert(after.drop_last() =~= taken(rests.drop_last(), i));
        assert(after.last() == rests.last());
        lemma_total_taken(rests.drop_last(), i);
    }
}

/// There is a smallest next key unless all tables are at their end.
pub proof fn lemma_smallest<O: KeyOrder>(rests: Seq<Seq<(Seq<u8>, Seq<u8>)>>, n: nat)
    requires
        n <= rests.len(),
    ensures
        match smallest::<O>(rests, n) {
            None => forall|j: int| 0 <= j < n ==> (#[trigger] rests[j]).len() == 0,
            Some(i) => 0 <= i < n && rests[i].len() > 0,
        },
    decreases n,
{
    if n > 0 {
        lemma_smallest::<O>(rests, (n - 1) as nat);
    }
}

/// The keys of each table are valid and in ascending order.
pub open spec fn tables_sorted<O: KeyOrder>(rests: Seq<Seq<(Seq<u8>, Seq<u8>)>>) -> bool {
    forall|i: int|
        0 <= i < rests.len() ==> key::ascending::<O>(#[trigger] rests[i]) && key::keys_valid::<O>(
            rests[i],
        )
}

proof fn lemma_smallest_is_least<O: KeyOrder>(rests: Seq<Seq<(Seq<u8>, Seq<u8>)>>, n: nat)
    requires
        n <= rests.len(),
        tables_sorted::<O>(rests),
    ensures
        match smallest::<O>(rests, n) {
            None => forall|j: int| 0 <= j < n ==> (#[trigger] rests[j]).len() == 0,
            Some(i) => {
                &&& 0 <= i < n
                &&& rests[i].len() > 0
                &&& forall|j: int|
                    0 <= j < n && (#[trigger] rests[j]).len() > 0 ==> !O::lt(
                        rests[j][0].0,
                        rests[i][0].0,
                    )
                &&& forall|j: int|
                    0 <= j < i && (#[trigger] rests[j]).len() > 0 ==> O::lt(
                        rests[i][0].0,
                        rests[j][0].0,
                    )
            },
        },
    decreases n,
{
    if n > 0 {
        lemma_smallest_is_least::<O>(rests, (n - 1) as nat);
        let last = n - 1;
        if rests[last].len() > 0 {
            assert(key::keys_valid::<O>(rests[last]));
            let k = rests[last][0].0;
            O::irreflexive(k);
            match smallest::<O>(rests, (n - 1) as nat) {
                None => {},
                Some(i) => {
                    assert(key::keys_valid::<O>(rests[i]));
                    let m = rests[i][0].0;
                    if O::lt(k, m) {
                        assert forall|j: int| 0 <= j < last && (#[trigger] rests[j]).len() > 0 implies O::lt(
                            k,
                            rests[j][0].0,
                        ) by {
                            assert(key::keys_valid::<O>(rests[j]));
                            let h = rests[j][0].0;
                            if h != m {
                                O::total(h, m);
                                O::transitive(k, m, h);
                            }
                        }
                        assert forall|j: int| 0 <= j < n && (#[trigger] rests[j]).len() > 0 implies !O::lt(
                            rests[j][0].0,
                            k,
                        ) by {
                            if j < last && O::lt(rests[j][0].0, k) {
                                assert(key::keys_valid::<O>(rests[j]));
                                assert(O::lt(k, rests[j][0].0));
                                O::transitive(k, rests[j][0].0, k);
                            }
                        }
                    }
                },
            }
        }
    }
}

/// The better of an entry's value and the one under the same key in a later table.
pub open spec fn combined(
    best: Option<(Timestamp, Seq<u8>)>,
    age: Timestamp,
    value: Option<Seq<u8>>,
) -> Option<(Timestamp, Seq<u8>)> {
    match value {
        None => best,
        Some(v) => match best {
            None => Some((age, v)),
            Some((t, w)) => if replaces(t, age) {
                Some((age, v))
            } else {
                best
            },
        },
    }
}

/// The value of a key that counts: going through the first `n` tables in turn, the first one that
/// has the key, unless a later one is younger.
pub open spec fn winner(
    best: Option<(Timestamp, Seq<u8>)>,
    ages: Seq<Timestamp>,
    rests: Seq<Seq<(Seq<u8>, Seq<u8>)>>,
    k: Seq<u8>,
    n: nat,
) -> Option<(Timestamp, Seq<u8>)>
    decreases n,
{
    if n == 0 {
        best
    } else {
        combined(
            winner(best, ages, rests, k, (n - 1) as nat),
            ages[n - 1],
            table::lookup(rests[n - 1], k),
        )
    }
}

/// An entry that was taken already, as far as it has the given key.
pub open spec fn taken_value(current: Option<Dated>, k: Seq<u8>) -> Option<(Timestamp, Seq<u8>)> {
    match current {
        Some(c) => if c.key == k {
            Some((c.timestamp, c.value))
        } else {
            None
        },
        None => None,
    }
}

proof fn lemma_winner_same(
    best: Option<(Timestamp, Seq<u8>)>,
    ages: Seq<Timestamp>,
    a: Seq<Seq<(Seq<u8>, Seq<u8>)>>,
    b: Seq<Seq<(Seq<u8>, Seq<u8>)>>,
    k: Seq<u8>,
    n: nat,
)
    requires
        n <= a.len(),
        a.len() == b.len(),
        forall|j: int|
            0 <= j < n ==> table::lookup(#[trigger] a[j], k) == table::lookup(b[j], k),
    ensures
        winner(best, ages, a, k, n) == winner(best, ages, b, k, n),
    decreases n,
{
    if n > 0 {
        lemma_winner_same(best, ages, a, b, k, (n - 1) as nat);
        assert(table::lookup(a[n - 1], k) == table::lookup(b[n - 1], k));
    }
}

proof fn lemma_winner_none(
    best: Option<(Timestamp, Seq<u8>)>,
    ages: Seq<Timestamp>,
    a: Seq<Seq<(Seq<u8>, Seq<u8>)>>,
    k: Seq<u8>,
    n: nat,
)
    requires
        n <= a.len(),
        forall|j: int| 0 <= j < n ==> table::lookup(#[trigger] a[j], k) is None,
    ensures
        winner(best, ages, a, k, n) == best,
    decreases n,
{
    if n > 0 {
        lemma_winner_none(best, ages, a, k, (n - 1) as nat);
        assert(table::lookup(a[n - 1], k) is None);
    }
}

/// Taking the entry of the key from the first table that has it.
proof fn lemma_winner_taken(
    best: Option<(Timestamp, Seq<u8>)>,
    ages: Seq<Timestamp>,
    a: Seq<Seq<(Seq<u8>, Seq<u8>)>>,
    i: int,
    v: Seq<u8>,
    k: Seq<u8>,
    n: nat,
)
    requires
        0 <= i < n <= a.len(),
        forall|j: int| 0 <= j < i ==> table::lookup(#[trigger] a[j], k) is None,
        table::lookup(a[i], k) == Some(v),
        a[i].len() > 0,
        table::lookup(a[i].drop_first(), k) is None,
    ensures
        winner(best, ages, a, k, n) == winner(
            combined(best, ages[i], Some(v)),
            ages,
            taken(a, i),
            k,
            n,
        ),
    decreases n,
{
    let b = taken(a, i);
    let next = combined(best, ages[i], Some(v));
    if n == i + 1 {
        lemma_winner_none(best, ages, a, k, i as nat);
        assert forall|j: int| 0 <= j < n implies table::lookup(#[trigger] b[j], k) is None by {
            if j < i {
                assert(b[j] == a[j]);
                assert(table::lookup(a[j], k) is None);
            }
        }
        lemma_winner_none(next, ages, b, k, n);
    } else {
        lemma_winner_taken(best, ages, a, i, v, k, (n - 1) as nat);
        assert(b[n - 1] == a[n - 1]);
    }
}

/// No key of a sorted table is smaller than its first one.
proof fn lemma_lookup_smaller<O: KeyOrder>(entries: Seq<(Seq<u8>, Seq<u8>)>, k: Seq<u8>)
    requires
        key::ascending::<O>(entries),
        key::keys_valid::<O>(entries),
        O::valid(k),
        entries.len() > 0 ==> O::lt(k, entries[0].0),
    ensures
        table::lookup(entries, k) is None,
{
    assert forall|i: int| 0 <= i < entries.len() implies (#[trigger] entries[i]).0 != k by {
        O::irreflexive(k);
        assert(O::valid(entries[i].0));
        assert(O::valid(entries[0].0));
        if i > 0 {
            assert(O::lt(entries[0].0, entries[i].0));
            O::transitive(k, entries[0].0, entries[i].0);
        }
    }
    table::lemma_lookup_none(entries, k);
}

proof fn lemma_sorted_rest<O: KeyOrder>(entries: Seq<(Seq<u8>, Seq<u8>)>)
    requires
        entries.len() > 0,
        key::ascending::<O>(entries),
        key::keys_valid::<O>(entries),
    ensures
        key::ascending::<O>(entries.drop_first()),
        key::keys_valid::<O>(entries.drop_first()),
        table::lookup(entries.drop_first(), entries[0].0) is None,
        entries.len() > 1 ==> O::lt(entries[0].0, entries.drop_first()[0].0),
{
    let rest = entries.drop_first();
    assert forall|i: int| 0 <= i < rest.len() implies O::valid(#[trigger] rest[i].0) by {
        assert(rest[i] == entries[i + 1]);
    }
    assert forall|i: int, j: int| 0 <= i < j < rest.len() implies O::lt(
        #[trigger] rest[i].0,
        #[trigger] rest[j].0,
    ) by {
        assert(rest[i] == entries[i + 1] && rest[j] == entries[j + 1]);
    }
    assert(O::valid(entries[0].0));
    if rest.len() > 0 {
        assert(rest[0] == entries[1]);
        assert(O::lt(entries[0].0, entries[1].0));
    }
    lemma_lookup_smaller::<O>(rest, entries[0].0);
}

proof fn lemma_sorted_suffix<O: KeyOrder>(entries: Seq<(Seq<u8>, Seq<u8>)>, n: int)
    requires
        0 <= n <= entries.len(),
        key::ascending::<O>(entries),
        key::keys_valid::<O>(entries),
    ensures
        key::ascending::<O>(entries.skip(n)),
        key::keys_valid::<O>(entries.skip(n)),
{
    let rest = entries.skip(n);
    assert forall|i: int| 0 <= i < rest.len() implies O::valid(#[trigger] rest[i].0) by {
        assert(rest[i] == entries[i + n]);
    }
    assert forall|i: int, j: int| 0 <= i < j < rest.len() implies O::lt(
        #[trigger] rest[i].0,
        #[trigger] rest[j].0,
    ) by {
        assert(rest[i] == entries[i + n] && rest[j] == entries[j + n]);
    }
}

/// Whether an entry that was taken comes before or with everything that is left.
pub open spec fn comes_first<O: KeyOrder>(
    current: Option<Dated>,
    rests: Seq<Seq<(Seq<u8>, Seq<u8>)>>,
) -> bool {
    match current {
        None => true,
        Some(c) => {
            &&& O::valid(c.key)
            &&& forall|j: int|
                0 <= j < rests.len() && (#[trigger] rests[j]).len() > 0 ==> !O::lt(
                    rests[j][0].0,
                    c.key,
                )
        },
    }
}

proof fn lemma_taken_sorted<O: KeyOrder>(rests: Seq<Seq<(Seq<u8>, Seq<u8>)>>, i: int)
    requires
        tables_sorted::<O>(rests),
        smallest::<O>(rests, rests.len()) == Some(i),
    ensures
        0 <= i < rests.len(),
        rests[i].len() > 0,
        O::valid(rests[i][0].0),
        tables_sorted::<O>(taken(rests, i)),
        forall|j: int|
            0 <= j < rests.len() && (#[trigger] taken(rests, i)[j]).len() > 0 ==> !O::lt(
                taken(rests, i)[j][0].0,
                rests[i][0].0,
            ),
        forall|j: int|
            0 <= j < i ==> table::lookup(#[trigger] rests[j], rests[i][0].0) is None,
        table::lookup(rests[i].drop_first(), rests[i][0].0) is None,
{
    lemma_smallest_is_least::<O>(rests, rests.len());
    assert(key::keys_valid::<O>(rests[i]));
    assert(O::valid(rests[i][0].0));
    lemma_sorted_rest::<O>(rests[i]);
    let after = taken(rests, i);
    let m = rests[i][0].0;
    O::irreflexive(m);
    assert forall|j: int| 0 <= j < after.len() implies key::ascending::<O>(#[trigger] after[j])
        && key::keys_valid::<O>(after[j]) by {
        if j != i {
            assert(after[j] == rests[j]);
        }
    }
    assert forall|j: int| 0 <= j < rests.len() && (#[trigger] after[j]).len() > 0 implies !O::lt(
        after[j][0].0,
        m,
    ) by {
        if j == i {
            assert(after[j] == rests[i].drop_first());
            assert(O::valid(after[j][0].0));
            if O::lt(after[j][0].0, m) {
                O::transitive(m, after[j][0].0, m);
            }
        } else {
            assert(after[j] == rests[j]);
        }
    }
    assert forall|j: int| 0 <= j < i implies table::lookup(#[trigger] rests[j], m) is None by {
        assert(key::ascending::<O>(rests[j]));
        lemma_lookup_smaller::<O>(rests[j], m);
    }
}

proof fn lemma_merged_step<O: KeyOrder>(
    current: Option<Dated>,
    ages: Seq<Timestamp>,
    rests: Seq<Seq<(Seq<u8>, Seq<u8>)>>,
    i: int,
    k: Seq<u8>,
)
    requires
        tables_sorted::<O>(rests),
        smallest::<O>(rests, rests.len()) == Some(i),
        ages.len() == rests.len(),
    ensures
        k == rests[i][0].0 ==> winner(taken_value(current, k), ages, rests, k, rests.len())
            == winner(
            combined(taken_value(current, k), ages[i], Some(rests[i][0].1)),
            ages,
            taken(rests, i),
            k,
            rests.len(),
        ),
        k != rests[i][0].0 ==> winner(taken_value(current, k), ages, rests, k, rests.len())
            == winner(taken_value(current, k), ages, taken(rests, i), k, rests.len()),
{
    lemma_taken_sorted::<O>(rests, i);
    let after = taken(rests, i);
    if k == rests[i][0].0 {
        lemma_winner_taken(
            taken_value(current, k),
            ages,
            rests,
            i,
            rests[i][0].1,
            k,
            rests.len(),
        );
    } else {
        assert forall|j: int| 0 <= j < rests.len() implies table::lookup(#[trigger] rests[j], k)
            == table::lookup(after[j], k) by {}
        lemma_winner_same(taken_value(current, k), ages, rests, after, k, rests.len());
    }
}

/// A merge of sorted tables gives each of their keys once, in ascending order, with the value that
/// counts: the one from the first table that has the key, unless a later table is younger.
pub proof fn lemma_merged<O: KeyOrder>(
    current: Option<Dated>,
    ages: Seq<Timestamp>,
    rests: Seq<Seq<(Seq<u8>, Seq<u8>)>>,
)
    requires
        tables_sorted::<O>(rests),
        ages.len() == rests.len(),
        comes_first::<O>(current, rests),
    ensures
        key::ascending::<O>(merged::<O>(current, ages, rests)),
        key::keys_valid::<O>(merged::<O>(current, ages, rests)),
        current matches Some(c) ==> merged::<O>(current, ages, rests).len() > 0 && merged::<O>(
            current,
            ages,
            rests,
        )[0].0 == c.key,
        forall|k: Seq<u8>| #[trigger]
            table::lookup(merged::<O>(current, ages, rests), k) == match winner(
                taken_value(current, k),
                ages,
                rests,
                k,
                rests.len(),
            ) {
                Some((_, v)) => Some(v),
                None => None,
            },
    decreases total(rests),
{
    let out = merged::<O>(current, ages, rests);
    match smallest::<O>(rests, rests.len()) {
        None => {
            lemma_smallest::<O>(rests, rests.len());
            assert forall|k: Seq<u8>| #[trigger] table::lookup(out, k) == match winner(
                taken_value(current, k),
                ages,
                rests,
                k,
                rests.len(),
            ) {
                Some((_, v)) => Some(v),
                None => None,
            } by {
                lemma_winner_none(taken_value(current, k), ages, rests, k, rests.len());
                match current {
                    Some(c) => {
                        assert(out.drop_first() =~= Seq::<(Seq<u8>, Seq<u8>)>::empty());
                        assert(table::lookup(out.drop_first(), k) is None);
                    },
                    None => {},
                }
            }
        },
        Some(i) => {
            lemma_taken_sorted::<O>(rests, i);
            lemma_smallest_is_least::<O>(rests, rests.len());
            lemma_total_taken(rests, i);
            let next = head(ages, rests, i);
            let rest = taken(rests, i);
            match current {
                None => {
                    lemma_merged::<O>(Some(next), ages, rest);
                    assert forall|k: Seq<u8>| #[trigger] table::lookup(out, k) == match winner(
                        taken_value(current, k),
                        ages,
                        rests,
                        k,
                        rests.len(),
                    ) {
                        Some((_, v)) => Some(v),
                        None => None,
                    } by {
                        lemma_merged_step::<O>(current, ages, rests, i, k);
                    }
                },
                Some(c) => {
                    if next.key == c.key {
                        assert(comes_first::<O>(Some(c), rest));
                        assert(comes_first::<O>(Some(next), rest));
                        lemma_merged::<O>(Some(next), ages, rest);
                        lemma_merged::<O>(Some(c), ages, rest);
                        assert forall|k: Seq<u8>| #[trigger] table::lookup(out, k) == match winner(
                            taken_value(current, k),
                            ages,
                            rests,
                            k,
                            rests.len(),
                        ) {
                            Some((_, v)) => Some(v),
                            None => None,
                        } by {
                            lemma_merged_step::<O>(current, ages, rests, i, k);
                        }
                    } else {
                        lemma_merged::<O>(Some(next), ages, rest);
                        lemma_merged_apart::<O>(c, ages, rests, i);
                    }
                },
            }
        },
    }
}

/// The step of a merge in which an entry comes out.
proof fn lemma_merged_apart<O: KeyOrder>(
    c: Dated,
    ages: Seq<Timestamp>,
    rests: Seq<Seq<(Seq<u8>, Seq<u8>)>>,
    i: int,
)
    requires
        tables_sorted::<O>(rests),
        ages.len() == rests.len(),
        comes_first::<O>(Some(c), rests),
        smallest::<O>(rests, rests.len()) == Some(i),
        rests[i][0].0 != c.key,
        ({
            let next = head(ages, rests, i);
            let rest = taken(rests, i);
            let tail = merged::<O>(Some(next), ages, rest);
            &&& key::ascending::<O>(tail)
            &&& key::keys_valid::<O>(tail)
            &&& tail.len() > 0
            &&& tail[0].0 == next.key
            &&& forall|k: Seq<u8>| #[trigger]
                table::lookup(tail, k) == match winner(
                    taken_value(Some(next), k),
                    ages,
                    rest,
                    k,
                    rest.len(),
                ) {
                    Some((_, v)) => Some(v),
                    None => None,
                }
        }),
    ensures
        ({
            let out = merged::<O>(Some(c), ages, rests);
            &&& key::ascending::<O>(out)
            &&& key::keys_valid::<O>(out)
            &&& out.len() > 0
            &&& out[0].0 == c.key
            &&& forall|k: Seq<u8>| #[trigger]
                table::lookup(out, k) == match winner(
                    taken_value(Some(c), k),
                    ages,
                    rests,
                    k,
                    rests.len(),
                ) {
                    Some((_, v)) => Some(v),
                    None => None,
                }
        }),
{
    let next = head(ages, rests, i);
    let rest = taken(rests, i);
    let tail = merged::<O>(Some(next), ages, rest);
    let out = merged::<O>(Some(c), ages, rests);
    lemma_smallest_is_least::<O>(rests, rests.len());
    lemma_taken_sorted::<O>(rests, i);
    assert(out == seq![(c.key, c.value)] + tail);
    O::total(next.key, c.key);
    assert(!O::lt(next.key, c.key));
    assert(O::lt(c.key, next.key));
    assert forall|a: int, b: int| 0 <= a < b < out.len() implies O::lt(
        #[trigger] out[a].0,
        #[trigger] out[b].0,
    ) by {
        assert(out[b] == tail[b - 1]);
        assert(O::valid(tail[b - 1].0));
        if a > 0 {
            assert(out[a] == tail[a - 1]);
        } else if b > 1 {
            assert(O::lt(tail[0].0, tail[b - 1].0));
            O::transitive(c.key, next.key, tail[b - 1].0);
        }
    }
    assert forall|a: int| 0 <= a < out.len() implies O::valid(#[trigger] out[a].0) by {
        if a > 0 {
            assert(out[a] == tail[a - 1]);
        }
    }
    assert forall|k: Seq<u8>| #[trigger] table::lookup(out, k) == match winner(
        taken_value(Some(c), k),
        ages,
        rests,
        k,
        rests.len(),
    ) {
        Some((_, v)) => Some(v),
        None => None,
    } by {
        assert(out.drop_first() =~= tail);
        if k == c.key {
            assert forall|j: int| 0 <= j < rests.len() implies table::lookup(
                #[trigger] rests[j],
                k,
            ) is None by {
                assert(key::ascending::<O>(rests[j]));
                if rests[j].len() > 0 {
                    assert(O::valid(rests[j][0].0));
                    let h = rests[j][0].0;
                    assert(!O::lt(h, next.key));
                    if h != next.key {
                        O::total(h, next.key);
                        O::transitive(c.key, next.key, h);
                    }
                }
                lemma_lookup_smaller::<O>(rests[j], k);
            }
            lemma_winner_none(taken_value(Some(c), k), ages, rests, k, rests.len());
        } else {
            assert(table::lookup(out, k) == table::lookup(tail, k));
            assert(taken_value(Some(c), k) is None);
            lemma_merged_step::<O>(None, ages, rests, i, k);
        }
    }
}

/// Merges tables: goes through the keys of several tables in ascending order, each key once.
///
/// Of several tables with the same key, the first one counts unless a later one is younger. Tables
/// without an age are never younger.
pub struct MergingIter<O, R> {
    iters: Vec<(Timestamp, OwningTableIterator<R>)>,
    /// The next entry of each table, where it was fetched already.
    current: Vec<Option<(Vec<u8>, Vec<u8>)>>,
    current_pair: Option<(Timestamp, Vec<u8>, Vec<u8>)>,
    done: bool,
    drained: Vec<bool>,
    order: PhantomData<O>,
}

/// The ages of the tables of a merge.
pub open spec fn ages_of<R: RandomAccess>(iters: Seq<(Timestamp, OwningTableIterator<R>)>) -> Seq<
    Timestamp,
> {
    iters.map_values(|p: (Timestamp, OwningTableIterator<R>)| p.0)
}

/// The entries of the tables of a merge.
pub open spec fn tables_of<R: RandomAccess>(iters: Seq<(Timestamp, OwningTableIterator<R>)>) -> Seq<
    Seq<(Seq<u8>, Seq<u8>)>,
> {
    iters.map_values(|p: (Timestamp, OwningTableIterator<R>)| p.1.entries())
}

spec fn pair_entries(p: Option<(Vec<u8>, Vec<u8>)>) -> Seq<(Seq<u8>, Seq<u8>)> {
    match p {
        Some((k, v)) => seq![(k@, v@)],
        None => Seq::empty(),
    }
}

spec fn dated(p: Option<(Timestamp, Vec<u8>, Vec<u8>)>) -> Option<Dated> {
    match p {
        Some((t, k, v)) => Some(Dated { timestamp: t, key: k@, value: v@ }),
        None => None,
    }
}

proof fn lemma_same_reliable<R: RandomAccess>(
    a: Seq<(Timestamp, OwningTableIterator<R>)>,
    b: Seq<(Timestamp, OwningTableIterator<R>)>,
    i: int,
)
    requires
        a.len() == b.len(),
        0 <= i < a.len(),
        forall|j: int| 0 <= j < a.len() && j != i ==> #[trigger] b[j] == a[j],
        b[i].1.reliable() == a[i].1.reliable(),
    ensures
        (forall|j: int| 0 <= j < a.len() ==> (#[trigger] a[j]).1.reliable()) == (forall|j: int|
            0 <= j < b.len() ==> (#[trigger] b[j]).1.reliable()),
{
    if forall|j: int| 0 <= j < a.len() ==> (#[trigger] a[j]).1.reliable() {
        assert forall|j: int| 0 <= j < b.len() implies (#[trigger] b[j]).1.reliable() by {
            assert(a[j].1.reliable());
        }
    }
    if forall|j: int| 0 <= j < b.len() ==> (#[trigger] b[j]).1.reliable() {
        assert forall|j: int| 0 <= j < a.len() implies (#[trigger] a[j]).1.reliable() by {
            assert(b[j].1.reliable());
        }
    }
}

impl<O: KeyOrder, R: RandomAccess> MergingIter<O, R> {
    /// What is left in each table.
    pub closed spec fn rests(self) -> Seq<Seq<(Seq<u8>, Seq<u8>)>> {
        Seq::new(
            self.iters@.len(),
            |i: int|
                if self.drained@[i] {
                    Seq::empty()
                } else {
                    pair_entries(self.current@[i]) + self.iters@[i].1.remaining()
                },
        )
    }

    /// The ages of the tables.
    pub closed spec fn ages(self) -> Seq<Timestamp> {
        ages_of(self.iters@)
    }

    /// The entry that was taken already.
    pub closed spec fn pending(self) -> Option<Dated> {
        dated(self.current_pair)
    }

    /// Whether the end was met, so that the tables are not looked at any more.
    pub closed spec fn at_end(self) -> bool {
        self.done
    }

    closed spec fn iters_ok(self) -> bool {
        &&& self.current@.len() == self.iters@.len()
        &&& self.drained@.len() == self.iters@.len()
        &&& forall|i: int| 0 <= i < self.iters@.len() ==> (#[trigger] self.iters@[i]).1.wf()
        &&& tables_sorted::<O>(self.rests())
    }

    pub fn new(iters: Vec<(Timestamp, OwningTableIterator<R>)>) -> (r: Self)
        requires
            forall|i: int|
                0 <= i < iters@.len() ==> {
                    let it = (#[trigger] iters@[i]).1;
                    &&& it.wf()
                    &&& it.remaining() == it.entries()
                    &&& key::ascending::<O>(it.entries())
                    &&& key::keys_valid::<O>(it.entries())
                },
        ensures
            r.wf(),
            r.ages() == ages_of(iters@),
            r.pending() is None,
            !r.at_end(),
            r.rests() == tables_of(iters@),
            r.remaining() == merged::<O>(None, ages_of(iters@), tables_of(iters@)),
            r.entries() == r.remaining(),
            r.reliable() == forall|i: int|
                0 <= i < iters@.len() ==> (#[trigger] iters@[i]).1.reliable(),
    {
        let num_iters: usize = iters.len();
        let ghost iters0 = iters@;
        let mut current: Vec<Option<(Vec<u8>, Vec<u8>)>> = Vec::new();
        let mut drained: Vec<bool> = Vec::new();
        let mut i: usize = 0;
        while i < num_iters
            invariant
                i <= num_iters,
                current@.len() == i,
                drained@.len() == i,
                forall|j: int| 0 <= j < i ==> (#[trigger] current@[j]) is None && !drained@[j],
            decreases num_iters - i,
        {
            current.push(None);
            drained.push(false);
            i = i + 1;
        }
        let r = Self { iters, current, current_pair: None, done: false, drained, order: PhantomData };
        proof {
            assert forall|j: int| 0 <= j < iters0.len() implies #[trigger] r.rests()[j]
                == tables_of(iters0)[j] by {
                assert(r.current@[j] is None && !r.drained@[j]);
                assert(pair_entries(r.current@[j]) + iters0[j].1.remaining()
                    =~= iters0[j].1.remaining());
            }
            assert(r.rests() =~= tables_of(iters0));
            assert forall|j: int| 0 <= j < r.rests().len() implies key::ascending::<O>(
                #[trigger] r.rests()[j],
            ) && key::keys_valid::<O>(r.rests()[j]) by {
                assert(r.rests()[j] == iters0[j].1.entries());
            }
        }
        r
    }

    /// Takes the smallest of the next entries of the tables.
    fn next_with_timestamp(&mut self) -> (r: Result<Option<(Timestamp, Vec<u8>, Vec<u8>)>, Error>)
        requires
            old(self).iters_ok(),
        ensures
            final(self).iters_ok(),
            final(self).ages() == old(self).ages(),
            final(self).entries() == old(self).entries(),
            final(self).reliable() == old(self).reliable(),
            final(self).current_pair == old(self).current_pair,
            final(self).done == old(self).done,
            match r {
                Ok(Some(p)) => {
                    let i = smallest::<O>(old(self).rests(), old(self).rests().len());
                    &&& i is Some
                    &&& dated(Some(p)) == Some(head(old(self).ages(), old(self).rests(), i->Some_0))
                    &&& final(self).rests() == taken(old(self).rests(), i->Some_0)
                },
                Ok(None) => {
                    &&& smallest::<O>(old(self).rests(), old(self).rests().len()) is None
                    &&& final(self).rests() == old(self).rests()
                },
                Err(_) => !old(self).reliable(),
            },
    {
        let ghost rests = self.rests();
        let size: usize = self.iters.len();
        let mut best: Option<usize> = None;
        let mut i: usize = 0;
        while i < size
            invariant
                i <= size,
                size == self.iters@.len(),
                rests == old(self).rests(),
                self.iters_ok(),
                self.rests() == rests,
                rests.len() == size,
                self.ages() == old(self).ages(),
                self.entries() == old(self).entries(),
                self.reliable() == old(self).reliable(),
                self.current_pair == old(self).current_pair,
                self.done == old(self).done,
                match best {
                    None => smallest::<O>(rests, i as nat) is None,
                    Some(b) => {
                        &&& smallest::<O>(rests, i as nat) == Some(b as int)
                        &&& b < i
                        &&& self.current@[b as int] is Some
                        &&& !self.drained@[b as int]
                    },
                },
            decreases size - i,
        {
            let ghost before = *self;
            if !self.drained[i] {
                assert(self.rests()[i as int] == pair_entries(self.current@[i as int])
                    + self.iters@[i as int].1.remaining());
                if self.current[i].is_none() {
                    let ghost was = self.iters@[i as int].1.remaining();
                    assert(self.iters@[i as int].1.wf());
                    let res = self.iters[i].1.next();
                    proof {
                        assert(self.ages() =~= before.ages());
                        assert(tables_of(self.iters@) =~= tables_of(before.iters@));
                        lemma_same_reliable(before.iters@, self.iters@, i as int);
                    }
                    match res {
                        Ok(Some(p)) => {
                            self.current.set(i, Some(p));
                            proof {
                                assert(pair_entries(self.current@[i as int])
                                    + self.iters@[i as int].1.remaining() =~= was);
                                assert(pair_entries(None) + was =~= was);
                                assert(self.rests() =~= rests);
                            }
                        },
                        Ok(None) => {
                            self.drained.set(i, true);
                            proof {
                                assert(pair_entries(None) + was =~= Seq::<
                                    (Seq<u8>, Seq<u8>),
                                >::empty());
                                assert(self.rests() =~= rests);
                            }
                        },
                        Err(e) => {
                            proof {
                                let left = self.iters@[i as int].1.remaining();
                                lemma_sorted_suffix::<O>(was, (was.len() - left.len()) as int);
                                assert(pair_entries(None) + was =~= was);
                                assert(pair_entries(None) + left =~= left);
                                assert(self.rests() =~= rests.update(i as int, left));
                                assert(key::ascending::<O>(rests[i as int]));
                                assert forall|j: int| 0 <= j < self.rests().len() implies key::ascending::<
                                    O,
                                >(#[trigger] self.rests()[j]) && key::keys_valid::<O>(
                                    self.rests()[j],
                                ) by {
                                    if j != i {
                                        assert(self.rests()[j] == rests[j]);
                                    }
                                }
                            }
                            return Err(e);
                        },
                    }
                }
                match &self.current[i] {
                    Some((key, _)) => {
                        proof {
                            assert(!self.drained@[i as int]);
                            assert(self.rests()[i as int][0] == (key@, self.current@[i as int]->Some_0.1@));
                            assert(key::keys_valid::<O>(self.rests()[i as int]));
                            assert(O::valid(self.rests()[i as int][0].0));
                        }
                        match best {
                            Some(b) => {
                                match &self.current[b] {
                                    Some((best_key, _)) => {
                                        proof {
                                            assert(self.rests()[b as int][0].0 == best_key@);
                                            assert(key::keys_valid::<O>(self.rests()[b as int]));
                                            assert(O::valid(self.rests()[b as int][0].0));
                                        }
                                        if O::less(key.as_slice(), best_key.as_slice()) {
                                            best = Some(i);
                                        }
                                    },
                                    None => {},
                                }
                            },
                            None => {
                                best = Some(i);
                            },
                        }
                    },
                    None => {
                        proof {
                            assert(self.rests()[i as int].len() == 0);
                        }
                    },
                }
            } else {
                assert(self.rests()[i as int].len() == 0);
            }
            i = i + 1;
        }
        match best {
            Some(b) => {
                let ghost before = *self;
                let mut pair: Option<(Vec<u8>, Vec<u8>)> = None;
                std::mem::swap(&mut pair, &mut self.current[b]);
                let ts = self.iters[b].0;
                proof {
                    lemma_taken_sorted::<O>(rests, b as int);
                    let rest = before.iters@[b as int].1.remaining();
                    assert(rests[b as int] == pair_entries(pair) + rest);
                    assert((pair_entries(pair) + rest).drop_first() =~= rest);
                    assert(pair_entries(None) + rest =~= rest);
                    assert(self.rests() =~= taken(rests, b as int));
                }
                match pair {
                    Some((k, v)) => Ok(Some((ts, k, v))),
                    None => Ok(None),
                }
            },
            None => Ok(None),
        }
    }
}

impl<O: KeyOrder, R: RandomAccess> TableIterator for MergingIter<O, R> {
    closed spec fn wf(&self) -> bool {
        &&& self.iters_ok()
        &&& comes_first::<O>(self.pending(), self.rests())
        &&& self.done ==> self.current_pair is None && smallest::<O>(
            self.rests(),
            self.rests().len(),
        ) is None
    }

    closed spec fn entries(&self) -> Seq<(Seq<u8>, Seq<u8>)> {
        merged::<O>(None, ages_of(self.iters@), tables_of(self.iters@))
    }

    closed spec fn remaining(&self) -> Seq<(Seq<u8>, Seq<u8>)> {
        merged::<O>(self.pending(), self.ages(), self.rests())
    }

    closed spec fn reliable(&self) -> bool {
        forall|i: int| 0 <= i < self.iters@.len() ==> (#[trigger] self.iters@[i]).1.reliable()
    }

    /// At the end it stays there.
    fn next(&mut self) -> (r: Result<Option<(Vec<u8>, Vec<u8>)>, Error>)
        ensures
            r matches Ok(None) ==> final(self).remaining().len() == 0,
            final(self).at_end() == (r matches Ok(None)),
            old(self).at_end() ==> (r matches Ok(None)) && *final(self) == *old(self),
    {
        if self.done {
            return Ok(None);
        }
        let ghost all = self.remaining();
        if self.current_pair.is_none() {
            let ghost before = *self;
            match self.next_with_timestamp() {
                Ok(p) => {
                    self.current_pair = p;
                    proof {
                        if p is Some {
                            let i = smallest::<O>(before.rests(), before.rests().len())->Some_0;
                            lemma_taken_sorted::<O>(before.rests(), i);
                        }
                        assert(self.remaining() == all);
                    }
                },
                Err(e) => {
                    return Err(e);
                },
            }
        }
        if self.current_pair.is_none() {
            self.done = true;
            return Ok(None);
        }
        loop
            invariant
                self.iters_ok(),
                comes_first::<O>(self.pending(), self.rests()),
                self.current_pair is Some,
                !self.done,
                !old(self).at_end(),
                self.remaining() == all,
                all == old(self).remaining(),
                self.entries() == old(self).entries(),
                self.reliable() == old(self).reliable(),
            decreases total(self.rests()),
        {
            let ghost before = *self;
            let mut last: Option<(Timestamp, Vec<u8>, Vec<u8>)> = None;
            std::mem::swap(&mut last, &mut self.current_pair);
            let ghost c = dated(last)->Some_0;
            let res = self.next_with_timestamp();
            proof {
                assert(before.rests() == before.rests());
                match smallest::<O>(before.rests(), before.rests().len()) {
                    Some(i) => {
                        lemma_taken_sorted::<O>(before.rests(), i);
                        lemma_total_taken(before.rests(), i);
                    },
                    None => {},
                }
            }
            match (last, res) {
                (Some((last_ts, last_key, last_value)), Ok(Some((ts, k, v)))) => {
                    if bytes_equal(k.as_slice(), last_key.as_slice()) {
                        // The older one of the two is dropped. Tables without an age come in the
                        // order in which they count.
                        if !ts.is_invalid() && last_ts < ts {
                            self.current_pair = Some((ts, k, v));
                        } else {
                            self.current_pair = Some((last_ts, last_key, last_value));
                        }
                    } else {
                        self.current_pair = Some((ts, k, v));
                        proof {
                            assert(all == seq![(c.key, c.value)] + self.remaining());
                            assert(all.drop_first() =~= self.remaining());
                        }
                        return Ok(Some((last_key, last_value)));
                    }
                },
                (Some((_, last_key, last_value)), Ok(None)) => {
                    proof {
                        assert(all.drop_first() =~= self.remaining());
                    }
                    return Ok(Some((last_key, last_value)));
                },
                (_, Err(e)) => {
                    return Err(e);
                },
                (None, _) => {
                    return Ok(None);
                },
            }
        }
    }

    /// Looks at the tables again, after the end was met too; they stay where they are.
    fn reset(&mut self)
        ensures
            !final(self).at_end(),
            final(self).ages() == old(self).ages(),
            final(self).pending() == old(self).pending(),
            final(self).rests() == old(self).rests(),
            final(self).remaining() == old(self).remaining(),
    {
        self.done = false;
    }

    /// Does nothing.
    fn seek(&mut self, _key: &[u8])
        ensures
            *final(self) == *old(self),
    {
    }
}

} // verus!

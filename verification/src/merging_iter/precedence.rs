//! Which of several values of a key comes out of a merge.
use crate::key::KeyOrder;
use crate::merging_iter;
use crate::table;
use crate::transaction;
use crate::transaction::Timestamp;
use vstd::prelude::*;

verus! {

/// Whether the value of a key in the `i`-th of several tables counts more than that in the `j`-th:
/// it is in the younger one, or the other one is behind it and not younger.
pub open spec fn counts_more(ages: Seq<Timestamp>, i: int, j: int) -> bool {
    ages[i].0 > ages[j].0 || (i < j && ages[i].0 == ages[j].0)
}

/// The value that counts is the one of the table that counts more than all others that have the
/// key.
proof fn lemma_winner_is(
    ages: Seq<Timestamp>,
    rests: Seq<Seq<(Seq<u8>, Seq<u8>)>>,
    k: Seq<u8>,
    i: int,
    n: int,
)
    requires
        ages.len() == rests.len(),
        0 <= n <= rests.len(),
        0 <= i < rests.len(),
        forall|j: int| 0 <= j < ages.len() ==> (#[trigger] ages[j]).0 < 0x2000_0000_0000_0000,
        table::lookup(rests[i], k) is Some,
        forall|j: int|
            0 <= j < rests.len() && j != i && table::lookup(#[trigger] rests[j], k) is Some
                ==> counts_more(ages, i, j),
    ensures
        i < n ==> merging_iter::winner(None, ages, rests, k, n as nat) == Some(
            (ages[i], table::lookup(rests[i], k).unwrap()),
        ),
        i >= n ==> (merging_iter::winner(None, ages, rests, k, n as nat) matches Some((t, _)) ==> t.0
            < ages[i].0),
    decreases n,
{
    if n > 0 {
        lemma_winner_is(ages, rests, k, i, n - 1);
        let t = ages[n - 1];
        transaction::lemma_before_is_less(ages[i], t);
        if table::lookup(rests[n - 1], k) is Some && n - 1 != i {
            assert(counts_more(ages, i, n - 1));
        }
        match merging_iter::winner(None, ages, rests, k, (n - 1) as nat) {
            Some((old, _)) => {
                if i >= n - 1 {
                    assert(old.0 < ages[i].0);
                    transaction::lemma_before_is_less(old, t);
                }
            },
            None => {},
        }
    }
}

/// A merge gives a key the value of the youngest table that has it, and of several of one age that
/// of the first of them.
pub proof fn lemma_youngest_wins<O: KeyOrder>(
    ages: Seq<Timestamp>,
    rests: Seq<Seq<(Seq<u8>, Seq<u8>)>>,
    k: Seq<u8>,
    i: int,
    v: Seq<u8>,
)
    requires
        merging_iter::tables_sorted::<O>(rests),
        ages.len() == rests.len(),
        forall|j: int| 0 <= j < ages.len() ==> (#[trigger] ages[j]).0 < 0x2000_0000_0000_0000,
        0 <= i < rests.len(),
        table::lookup(rests[i], k) == Some(v),
        forall|j: int|
            0 <= j < rests.len() && j != i && table::lookup(#[trigger] rests[j], k) is Some
                ==> counts_more(ages, i, j),
    ensures
        table::lookup(merging_iter::merged::<O>(None, ages, rests), k) == Some(v),
{
    merging_iter::lemma_merged::<O>(None, ages, rests);
    lemma_winner_is(ages, rests, k, i, rests.len() as int);
}

/// A key that no table has does not come out of a merge.
pub proof fn lemma_no_key_is_made_up<O: KeyOrder>(
    ages: Seq<Timestamp>,
    rests: Seq<Seq<(Seq<u8>, Seq<u8>)>>,
    k: Seq<u8>,
)
    requires
        merging_iter::tables_sorted::<O>(rests),
        ages.len() == rests.len(),
        forall|j: int|
            0 <= j < rests.len() ==> table::lookup(#[trigger] rests[j], k) is None,
    ensures
        table::lookup(merging_iter::merged::<O>(None, ages, rests), k) is None,
{
    merging_iter::lemma_merged::<O>(None, ages, rests);
    lemma_no_winner(ages, rests, k, rests.len() as int);
}

proof fn lemma_no_winner(
    ages: Seq<Timestamp>,
    rests: Seq<Seq<(Seq<u8>, Seq<u8>)>>,
    k: Seq<u8>,
    n: int,
)
    requires
        0 <= n <= rests.len(),
        forall|j: int|
            0 <= j < rests.len() ==> table::lookup(#[trigger] rests[j], k) is None,
    ensures
        merging_iter::winner(None, ages, rests, k, n as nat) is None,
    decreases n,
{
    if n > 0 {
        lemma_no_winner(ages, rests, k, n - 1);
        assert(table::lookup(rests[n - 1], k) is None);
    }
}

} // verus!

//! How the fields of a record are written and told apart.
use crate::workload;
use vstd::prelude::*;

verus! {

/// Strings with a byte between each two of them.
pub open spec fn joined(parts: Seq<Seq<u8>>, separator: u8) -> Seq<u8>
    decreases parts.len(),
{
    if parts.len() == 0 {
        Seq::empty()
    } else if parts.len() == 1 {
        parts[0]
    } else {
        joined(parts.drop_last(), separator).push(separator) + parts.last()
    }
}

/// A string is split at every separator and nowhere else: no piece has one, and the pieces with
/// one between each two of them are the string.
pub proof fn lemma_pieces(s: Seq<u8>, separator: u8)
    ensures
        workload::pieces(s, separator).len() >= 1,
        forall|i: int|
            0 <= i < workload::pieces(s, separator).len() ==> !(#[trigger] workload::pieces(
                s,
                separator,
            )[i]).contains(separator),
        joined(workload::pieces(s, separator), separator) == s,
    decreases s.len(),
{
    let all = workload::pieces(s, separator);
    if s.len() == 0 {
        assert(joined(all, separator) =~= s);
    } else {
        let init = s.drop_last();
        let before = workload::pieces(init, separator);
        lemma_pieces(init, separator);
        assert(init.push(s.last()) =~= s);
        if s.last() == separator {
            assert(all.drop_last() =~= before);
            assert(joined(all, separator) =~= s);
        } else {
            let last = before.last();
            assert(!before[before.len() - 1].contains(separator));
            assert forall|i: int| 0 <= i < all.len() implies !(#[trigger] all[i]).contains(
                separator,
            ) by {
                if i < all.len() - 1 {
                    assert(all[i] == before[i]);
                } else {
                    if all[i].contains(separator) {
                        let j = choose|j: int| 0 <= j < all[i].len() && all[i][j] == separator;
                        assert(last[j] == separator);
                        assert(last.contains(separator));
                    }
                }
            }
            assert(all.drop_last() =~= before.drop_last());
            assert(joined(all, separator) =~= joined(before, separator).push(s.last()));
        }
    }
}

/// A record is its fields with a comma between each two of them, each a name, an equals sign and a
/// value.
pub proof fn lemma_record(fields: Seq<(Seq<u8>, Seq<u8>)>)
    ensures
        workload::record_bytes(fields) == joined(
            Seq::new(fields.len(), |i: int| fields[i].0 + seq![0x3du8] + fields[i].1),
            0x2c,
        ),
    decreases fields.len(),
{
    let parts = Seq::new(fields.len(), |i: int| fields[i].0 + seq![0x3du8] + fields[i].1);
    if fields.len() == 1 {
        assert(workload::field_bytes(fields[0]) =~= parts[0]);
    } else if fields.len() > 1 {
        let init = fields.drop_last();
        lemma_record(init);
        assert(parts.drop_last() =~= Seq::new(
            init.len(),
            |i: int| init[i].0 + seq![0x3du8] + init[i].1,
        ));
        assert(workload::field_bytes(fields.last()) =~= parts.last());
    }
}

/// The value of a name is that of the last field that has it.
pub proof fn lemma_last_field_counts(fields: Seq<(Seq<u8>, Seq<u8>)>, name: Seq<u8>, i: int)
    requires
        -1 <= i < fields.len(),
        i >= 0 ==> fields[i].0 == name,
        forall|j: int| i < j < fields.len() ==> (#[trigger] fields[j]).0 != name,
    ensures
        workload::by_name(fields).contains_key(name) <==> i >= 0,
        i >= 0 ==> workload::by_name(fields)[name] == fields[i].1,
    decreases fields.len(),
{
    if fields.len() > 0 {
        let n = fields.len() - 1;
        if i < n {
            let init = fields.drop_last();
            assert(fields[n].0 != name);
            assert forall|j: int| i < j < init.len() implies (#[trigger] init[j]).0 != name by {
                assert(init[j] == fields[j]);
            }
            lemma_last_field_counts(init, name, i);
        }
    }
}

/// The sizes of batches sum up to what they are made of.
pub proof fn lemma_total(sizes: Seq<usize>)
    ensures
        workload::total(sizes) == sizes.fold_left(0int, |sum: int, n: usize| sum + n),
    decreases sizes.len(),
{
    if sizes.len() > 0 {
        lemma_total(sizes.drop_last());
    }
}

} // verus!

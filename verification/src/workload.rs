//! What a benchmark of the store computes: the fields of a record as one value, the batches of a
//! load, and what follows an attempt at a transaction.
pub mod records;

use crate::error::Error;
use crate::key::bytes_equal;
use vstd::prelude::*;
use vstd::slice::slice_to_vec;

verus! {

/// Separates the fields of a record.
pub const FIELD_SEPARATOR: u8 = 44;

/// Separates the name of a field from its value.
pub const NAME_SEPARATOR: u8 = 61;

/// The fields of a record: names and values.
pub open spec fn fields_view(fields: Seq<(Vec<u8>, Vec<u8>)>) -> Seq<(Seq<u8>, Seq<u8>)> {
    fields.map_values(|f: (Vec<u8>, Vec<u8>)| (f.0@, f.1@))
}

/// The bytes of a field.
pub open spec fn field_bytes(field: (Seq<u8>, Seq<u8>)) -> Seq<u8> {
    field.0.push(NAME_SEPARATOR) + field.1
}

/// The bytes of a record.
pub open spec fn record_bytes(fields: Seq<(Seq<u8>, Seq<u8>)>) -> Seq<u8>
    decreases fields.len(),
{
    if fields.len() == 0 {
        Seq::empty()
    } else if fields.len() == 1 {
        field_bytes(fields[0])
    } else {
        record_bytes(fields.drop_last()).push(FIELD_SEPARATOR) + field_bytes(fields.last())
    }
}

/// The pieces of a string between separators. There is one more of them than there are separators.
pub open spec fn pieces(s: Seq<u8>, separator: u8) -> Seq<Seq<u8>>
    decreases s.len(),
{
    if s.len() == 0 {
        seq![Seq::empty()]
    } else {
        let before = pieces(s.drop_last(), separator);
        if s.last() == separator {
            before.push(Seq::empty())
        } else {
            before.drop_last().push(before.last().push(s.last()))
        }
    }
}

/// Whether every field of a record has a name separator.
pub open spec fn is_record(s: Seq<u8>) -> bool {
    forall|i: int|
        0 <= i < pieces(s, FIELD_SEPARATOR).len() ==> pieces(
            #[trigger] pieces(s, FIELD_SEPARATOR)[i],
            NAME_SEPARATOR,
        ).len() >= 2
}

/// The name and the value in the bytes of a field. What stands behind another name separator
/// belongs to neither.
pub open spec fn field_of(s: Seq<u8>) -> (Seq<u8>, Seq<u8>) {
    (pieces(s, NAME_SEPARATOR)[0], pieces(s, NAME_SEPARATOR)[1])
}

/// The fields in the bytes of a record.
pub open spec fn record_fields(s: Seq<u8>) -> Seq<(Seq<u8>, Seq<u8>)> {
    pieces(s, FIELD_SEPARATOR).map_values(|p: Seq<u8>| field_of(p))
}

/// The values of fields by their names. Of fields with one name the last one counts.
pub open spec fn by_name(fields: Seq<(Seq<u8>, Seq<u8>)>) -> Map<Seq<u8>, Seq<u8>>
    decreases fields.len(),
{
    if fields.len() == 0 {
        Map::empty()
    } else {
        by_name(fields.drop_last()).insert(fields.last().0, fields.last().1)
    }
}

/// Whether no name occurs twice.
pub open spec fn names_differ(fields: Seq<(Seq<u8>, Seq<u8>)>) -> bool {
    forall|i: int, j: int|
        0 <= i < j < fields.len() ==> (#[trigger] fields[i]).0 != (#[trigger] fields[j]).0
}

/// Whether neither of the separators occurs.
pub open spec fn is_plain(s: Seq<u8>) -> bool {
    !s.contains(FIELD_SEPARATOR) && !s.contains(NAME_SEPARATOR)
}

/// A string without separators is one piece.
proof fn lemma_one_piece(s: Seq<u8>, separator: u8)
    requires
        !s.contains(separator),
    ensures
        pieces(s, separator) == seq![s],
    decreases s.len(),
{
    if s.len() == 0 {
        assert(s =~= Seq::empty());
    } else {
        let init = s.drop_last();
        assert(s.contains(s.last()));
        assert forall|x: u8| init.contains(x) implies s.contains(x) by {
            let i = choose|i: int| 0 <= i < init.len() && init[i] == x;
            assert(s[i] == x);
        }
        lemma_one_piece(init, separator);
        assert(init.push(s.last()) =~= s);
        assert(pieces(s, separator) =~= seq![s]);
    }
}

/// A separator and a string without separators add one piece.
proof fn lemma_piece_added(a: Seq<u8>, b: Seq<u8>, separator: u8)
    requires
        !b.contains(separator),
    ensures
        pieces(a.push(separator) + b, separator) == pieces(a, separator).push(b),
    decreases b.len(),
{
    let s = a.push(separator) + b;
    if b.len() == 0 {
        assert(s.drop_last() =~= a);
        assert(s.last() == separator);
        assert(b =~= Seq::empty());
    } else {
        let init = b.drop_last();
        assert(b.contains(b.last()));
        assert forall|x: u8| init.contains(x) implies b.contains(x) by {
            let i = choose|i: int| 0 <= i < init.len() && init[i] == x;
            assert(b[i] == x);
        }
        lemma_piece_added(a, init, separator);
        assert(s.drop_last() =~= a.push(separator) + init);
        assert(s.last() == b.last());
        assert(init.push(b.last()) =~= b);
        assert(pieces(s, separator) =~= pieces(a, separator).push(b));
    }
}

/// What is read from the bytes of a record is what was written, where no name and no value has a
/// separator in it.
pub proof fn lemma_record_read_back(fields: Seq<(Seq<u8>, Seq<u8>)>)
    requires
        fields.len() > 0,
        forall|i: int|
            0 <= i < fields.len() ==> is_plain((#[trigger] fields[i]).0) && is_plain(fields[i].1),
    ensures
        is_record(record_bytes(fields)),
        record_fields(record_bytes(fields)) == fields,
{
    lemma_record_pieces(fields);
    let s = record_bytes(fields);
    assert forall|i: int| 0 <= i < fields.len() implies ({
        let p = #[trigger] pieces(s, FIELD_SEPARATOR)[i];
        pieces(p, NAME_SEPARATOR) == seq![fields[i].0, fields[i].1]
    }) by {
        lemma_one_piece(fields[i].0, NAME_SEPARATOR);
        lemma_piece_added(fields[i].0, fields[i].1, NAME_SEPARATOR);
        assert(seq![fields[i].0].push(fields[i].1) =~= seq![fields[i].0, fields[i].1]);
    }
    assert(record_fields(s) =~= fields);
}

proof fn lemma_record_pieces(fields: Seq<(Seq<u8>, Seq<u8>)>)
    requires
        fields.len() > 0,
        forall|i: int|
            0 <= i < fields.len() ==> is_plain((#[trigger] fields[i]).0) && is_plain(fields[i].1),
    ensures
        pieces(record_bytes(fields), FIELD_SEPARATOR) == fields.map_values(
            |f: (Seq<u8>, Seq<u8>)| field_bytes(f),
        ),
    decreases fields.len(),
{
    let last = field_bytes(fields.last());
    assert(fields[fields.len() - 1] == fields.last());
    assert(!last.contains(FIELD_SEPARATOR)) by {
        if last.contains(FIELD_SEPARATOR) {
            let i = choose|i: int| 0 <= i < last.len() && last[i] == FIELD_SEPARATOR;
            let name = fields.last().0;
            if i < name.len() {
                assert(name[i] == FIELD_SEPARATOR);
            } else if i > name.len() {
                assert(fields.last().1[i - name.len() - 1] == FIELD_SEPARATOR);
            }
        }
    }
    let all = fields.map_values(|f: (Seq<u8>, Seq<u8>)| field_bytes(f));
    if fields.len() == 1 {
        lemma_one_piece(last, FIELD_SEPARATOR);
        assert(all =~= seq![last]);
    } else {
        let init = fields.drop_last();
        assert forall|i: int| 0 <= i < init.len() implies is_plain((#[trigger] init[i]).0)
            && is_plain(init[i].1) by {
            assert(init[i] == fields[i]);
        }
        lemma_record_pieces(init);
        lemma_piece_added(record_bytes(init), last, FIELD_SEPARATOR);
        assert(all =~= init.map_values(|f: (Seq<u8>, Seq<u8>)| field_bytes(f)).push(last));
    }
}

/// The bytes of a record.
pub fn serialize_values(values: &Vec<(Vec<u8>, Vec<u8>)>) -> (r: Vec<u8>)
    ensures
        r@ == record_bytes(fields_view(values@)),
{
    let ghost fields = fields_view(values@);
    let mut bytes: Vec<u8> = Vec::new();
    let size: usize = values.len();
    let mut i: usize = 0;
    proof {
        assert(fields.take(0) =~= Seq::empty());
    }
    while i < size
        invariant
            i <= size,
            size == values@.len(),
            fields == fields_view(values@),
            bytes@ == record_bytes(fields.take(i as int)),
        decreases size - i,
    {
        if i > 0 {
            bytes.push(FIELD_SEPARATOR);
        }
        bytes.extend_from_slice(values[i].0.as_slice());
        bytes.push(NAME_SEPARATOR);
        bytes.extend_from_slice(values[i].1.as_slice());
        proof {
            let now = fields.take(i + 1);
            assert(now.drop_last() =~= fields.take(i as int));
            assert(now.last() == fields[i as int]);
            assert(bytes@ =~= record_bytes(now));
        }
        i = i + 1;
    }
    proof {
        assert(fields.take(size as int) =~= fields);
    }
    bytes
}

/// The pieces of a string between separators.
fn split(s: &[u8], separator: u8) -> (r: Vec<Vec<u8>>)
    ensures
        r@.map_values(|p: Vec<u8>| p@) == pieces(s@, separator),
{
    let mut done: Vec<Vec<u8>> = Vec::new();
    let mut piece: Vec<u8> = Vec::new();
    let size: usize = s.len();
    let mut i: usize = 0;
    proof {
        assert(s@.take(0) =~= Seq::empty());
        assert(done@.map_values(|p: Vec<u8>| p@).push(piece@) =~= pieces(s@.take(0), separator));
    }
    while i < size
        invariant
            i <= size,
            size == s@.len(),
            done@.map_values(|p: Vec<u8>| p@).push(piece@) == pieces(s@.take(i as int), separator),
        decreases size - i,
    {
        let ghost before = done@.map_values(|p: Vec<u8>| p@);
        let ghost old_piece = piece@;
        proof {
            assert(s@.take(i + 1).drop_last() =~= s@.take(i as int));
        }
        if s[i] == separator {
            done.push(piece);
            piece = Vec::new();
            proof {
                assert(done@.map_values(|p: Vec<u8>| p@) =~= before.push(old_piece));
            }
        } else {
            piece.push(s[i]);
            proof {
                assert(before.push(old_piece).drop_last() =~= before);
            }
        }
        i = i + 1;
    }
    let ghost before = done@.map_values(|p: Vec<u8>| p@);
    let ghost last = piece@;
    done.push(piece);
    proof {
        assert(s@.take(size as int) =~= s@);
        assert(done@.map_values(|p: Vec<u8>| p@) =~= before.push(last));
    }
    done
}

/// Giving the field with a name another value.
proof fn lemma_by_name_set(fields: Seq<(Seq<u8>, Seq<u8>)>, at: int, value: Seq<u8>)
    requires
        names_differ(fields),
        0 <= at < fields.len(),
    ensures
        names_differ(fields.update(at, (fields[at].0, value))),
        by_name(fields.update(at, (fields[at].0, value))) == by_name(fields).insert(
            fields[at].0,
            value,
        ),
    decreases fields.len(),
{
    let name = fields[at].0;
    let now = fields.update(at, (name, value));
    let init = fields.drop_last();
    assert forall|i: int, j: int| 0 <= i < j < now.len() implies (#[trigger] now[i]).0 != (
    #[trigger] now[j]).0 by {
        assert(now[i].0 == fields[i].0 && now[j].0 == fields[j].0);
    }
    if at == fields.len() - 1 {
        assert(now.drop_last() =~= init);
        assert(by_name(now) =~= by_name(fields).insert(name, value));
    } else {
        assert(names_differ(init)) by {
            assert forall|i: int, j: int| 0 <= i < j < init.len() implies (#[trigger] init[i]).0
                != (#[trigger] init[j]).0 by {
                assert(init[i] == fields[i] && init[j] == fields[j]);
            }
        }
        lemma_by_name_set(init, at, value);
        assert(now.drop_last() =~= init.update(at, (name, value)));
        assert(now.last() == fields.last());
        assert(fields[at].0 != fields[fields.len() - 1].0);
        assert(by_name(now) =~= by_name(fields).insert(name, value));
    }
}

/// Gives a field a value, and adds it where there is none of its name.
fn set_field(fields: &mut Vec<(Vec<u8>, Vec<u8>)>, name: &Vec<u8>, value: &Vec<u8>)
    requires
        names_differ(fields_view(old(fields)@)),
    ensures
        names_differ(fields_view(final(fields)@)),
        by_name(fields_view(final(fields)@)) == by_name(fields_view(old(fields)@)).insert(
            name@,
            value@,
        ),
{
    let ghost all = fields_view(fields@);
    let size: usize = fields.len();
    let mut i: usize = 0;
    while i < size
        invariant
            i <= size,
            size == fields@.len(),
            *fields == *old(fields),
            all == fields_view(fields@),
            names_differ(all),
            forall|j: int| 0 <= j < i ==> (#[trigger] all[j]).0 != name@,
        decreases size - i,
    {
        assert(all[i as int].0 == fields@[i as int].0@);
        if bytes_equal(fields[i].0.as_slice(), name.as_slice()) {
            fields.set(i, (slice_to_vec(name.as_slice()), slice_to_vec(value.as_slice())));
            proof {
                lemma_by_name_set(all, i as int, value@);
                assert(fields_view(fields@) =~= all.update(i as int, (name@, value@)));
            }
            return;
        }
        i = i + 1;
    }
    fields.push((slice_to_vec(name.as_slice()), slice_to_vec(value.as_slice())));
    proof {
        let now = fields_view(fields@);
        assert(now =~= all.push((name@, value@)));
        assert(now.drop_last() =~= all);
        assert forall|i: int, j: int| 0 <= i < j < now.len() implies (#[trigger] now[i]).0 != (
        #[trigger] now[j]).0 by {
            assert(now[i] == all[i]);
            if j < all.len() {
                assert(now[j] == all[j]);
            }
        }
    }
}

/// The fields in the bytes of a record, each name once.
pub fn deserialize_values(value: &[u8]) -> (r: Vec<(Vec<u8>, Vec<u8>)>)
    requires
        is_record(value@),
    ensures
        names_differ(fields_view(r@)),
        by_name(fields_view(r@)) == by_name(record_fields(value@)),
{
    let ghost all = record_fields(value@);
    let parts = split(value, FIELD_SEPARATOR);
    let mut fields: Vec<(Vec<u8>, Vec<u8>)> = Vec::new();
    let size: usize = parts.len();
    let mut i: usize = 0;
    proof {
        assert(all.take(0) =~= Seq::empty());
        assert(fields_view(fields@) =~= Seq::empty());
        assert(parts@.map_values(|p: Vec<u8>| p@).len() == size);
    }
    while i < size
        invariant
            i <= size,
            size == parts@.len(),
            is_record(value@),
            parts@.map_values(|p: Vec<u8>| p@) == pieces(value@, FIELD_SEPARATOR),
            all == record_fields(value@),
            all.len() == size,
            names_differ(fields_view(fields@)),
            by_name(fields_view(fields@)) == by_name(all.take(i as int)),
        decreases size - i,
    {
        let pair = split(parts[i].as_slice(), NAME_SEPARATOR);
        proof {
            assert(parts@.map_values(|p: Vec<u8>| p@)[i as int] == parts@[i as int]@);
            let shown = pair@.map_values(|p: Vec<u8>| p@);
            assert(shown.len() >= 2);
            assert(shown[0] == pair@[0]@ && shown[1] == pair@[1]@);
            assert(all[i as int] == (pair@[0]@, pair@[1]@));
            assert(all.take(i + 1).drop_last() =~= all.take(i as int));
        }
        set_field(&mut fields, &pair[0], &pair[1]);
        i = i + 1;
    }
    proof {
        assert(all.take(size as int) =~= all);
    }
    fields
}

/// The bytes of a record after some of its fields were given new values.
pub fn update_values(current: &[u8], new_values: &Vec<(Vec<u8>, Vec<u8>)>) -> (r: Vec<u8>)
    requires
        is_record(current@),
    ensures
        exists|fields: Seq<(Seq<u8>, Seq<u8>)>| #[trigger]
            record_bytes(fields) == r@ && names_differ(fields) && by_name(fields) == by_name(
                record_fields(current@),
            ).union_prefer_right(by_name(fields_view(new_values@))),
{
    let ghost new_fields = fields_view(new_values@);
    let mut fields = deserialize_values(current);
    let ghost before = by_name(fields_view(fields@));
    let size: usize = new_values.len();
    let mut i: usize = 0;
    proof {
        assert(new_fields.take(0) =~= Seq::empty());
        assert(before.union_prefer_right(by_name(new_fields.take(0))) =~= before);
    }
    while i < size
        invariant
            i <= size,
            size == new_values@.len(),
            new_fields == fields_view(new_values@),
            names_differ(fields_view(fields@)),
            by_name(fields_view(fields@)) == before.union_prefer_right(
                by_name(new_fields.take(i as int)),
            ),
        decreases size - i,
    {
        let ghost now = by_name(fields_view(fields@));
        set_field(&mut fields, &new_values[i].0, &new_values[i].1);
        proof {
            let done = new_fields.take(i + 1);
            assert(done.drop_last() =~= new_fields.take(i as int));
            assert(done.last() == (new_values@[i as int].0@, new_values@[i as int].1@));
            assert(by_name(fields_view(fields@)) =~= before.union_prefer_right(by_name(done)));
        }
        i = i + 1;
    }
    proof {
        assert(new_fields.take(size as int) =~= new_fields);
    }
    serialize_values(&fields)
}

/// The sum of sizes.
pub open spec fn total(sizes: Seq<usize>) -> int
    decreases sizes.len(),
{
    if sizes.len() == 0 {
        0
    } else {
        total(sizes.drop_last()) + sizes.last()
    }
}

/// The sizes of the batches of a load: all of them are full but the last one, which holds the rest.
pub fn batch_sizes(num_ops: usize, batch_size: usize) -> (r: Vec<usize>)
    requires
        batch_size > 0,
    ensures
        total(r@) == num_ops,
        forall|i: int| 0 <= i < r@.len() - 1 ==> #[trigger] r@[i] == batch_size,
        r@.len() > 0 ==> 0 < r@.last() <= batch_size,
{
    let mut sizes: Vec<usize> = Vec::new();
    let mut left: usize = num_ops;
    while left > 0
        invariant
            batch_size > 0,
            total(sizes@) == num_ops - left,
            forall|i: int| 0 <= i < sizes@.len() - 1 ==> #[trigger] sizes@[i] == batch_size,
            sizes@.len() > 0 ==> 0 < sizes@.last() <= batch_size,
            sizes@.len() > 0 && left > 0 ==> sizes@.last() == batch_size,
        decreases left,
    {
        let count: usize = if left < batch_size {
            left
        } else {
            batch_size
        };
        let ghost before = sizes@;
        sizes.push(count);
        proof {
            assert(sizes@.drop_last() =~= before);
            assert forall|i: int| 0 <= i < sizes@.len() - 1 implies #[trigger] sizes@[i]
                == batch_size by {
                assert(sizes@[i] == before[i]);
                if i == before.len() - 1 {
                    assert(before.last() == before[i]);
                }
            }
        }
        left = left - count;
    }
    sizes
}

/// What follows an attempt at a transaction.
#[derive(Clone, Copy, Debug, PartialEq, Eq, Structural)]
pub enum Attempt {
    /// The transaction is committed.
    Commit,
    /// The transaction is aborted and tried again.
    Retry,
    /// The transaction is aborted, and the error ends the run.
    Fail,
}

/// What follows an attempt: work that was done is committed, a transaction that had to abort is
/// tried again, and another error ends the run.
pub fn after_attempt<R>(work: &Result<R, Error>) -> (r: Attempt)
    ensures
        r == match *work {
            Ok(_) => Attempt::Commit,
            Err(Error::TransactionAborted(_)) => Attempt::Retry,
            Err(_) => Attempt::Fail,
        },
{
    match work {
        Ok(_) => Attempt::Commit,
        Err(Error::TransactionAborted(_)) => Attempt::Retry,
        Err(_) => Attempt::Fail,
    }
}

/// The operations of a workload.
#[derive(Clone, Copy, Debug, PartialEq, Eq, Structural)]
pub enum Operation {
    Read,
    Update,
    Insert,
    Scan,
    ReadModifyWrite,
}

impl Operation {
    /// The place of the operation among the measurements, which are of reads, updates and inserts.
    pub fn measurement(&self) -> (r: usize)
        ensures
            r == match *self {
                Operation::Read | Operation::Scan => 0int,
                Operation::Update | Operation::ReadModifyWrite => 1,
                Operation::Insert => 2,
            },
    {
        match self {
            Operation::Read => 0,
            Operation::Update => 1,
            Operation::Insert => 2,
            Operation::Scan => 0,
            Operation::ReadModifyWrite => 1,
        }
    }
}

} // verus!

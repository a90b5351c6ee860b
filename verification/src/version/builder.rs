//! Makes a version from another one and an edit.
use crate::key::KeyOrder;
use crate::table;
use crate::table::{FileMeta, TableFileMeta, TableFileRef};
use crate::transaction;
use crate::transaction::TimestampType;
use crate::version::{EditView, Version, VersionEdit};
use vstd::prelude::*;

verus! {

/// An order of table files.
#[derive(Clone, Copy, PartialEq, Eq, Structural)]
pub enum FileOrder {
    /// The file with the latest transaction first.
    Newest,
    /// The file with the earliest transaction first.
    Oldest,
    /// The file with the smallest keys first.
    Smallest,
    /// The largest file first.
    Largest,
}

impl FileOrder {
    /// The order in which a level keeps its files: level 0 by age, the others by their keys.
    pub open spec fn of_level(level: nat) -> FileOrder {
        if level == 0 {
            FileOrder::Newest
        } else {
            FileOrder::Smallest
        }
    }
}

/// Whether a file comes before another one.
pub open spec fn file_less<O: KeyOrder>(order: FileOrder, a: FileMeta, b: FileMeta) -> bool {
    match order {
        FileOrder::Newest => b.min_xip.before(a.min_xip),
        FileOrder::Oldest => a.min_xip.before(b.min_xip),
        FileOrder::Smallest => O::lt(a.infimum, b.infimum),
        FileOrder::Largest => a.size > b.size,
    }
}

/// Whether the bounds of a file are valid keys.
pub open spec fn bounds_valid<O: KeyOrder>(f: FileMeta) -> bool {
    O::valid(f.infimum) && O::valid(f.supremum)
}

/// Whether the bounds of all files are valid keys.
pub open spec fn all_valid<O: KeyOrder>(files: Seq<FileMeta>) -> bool {
    forall|i: int| 0 <= i < files.len() ==> bounds_valid::<O>(#[trigger] files[i])
}

/// Compares two files.
pub fn less_files<O: KeyOrder>(order: FileOrder, a: &TableFileMeta, b: &TableFileMeta) -> (r: bool)
    requires
        bounds_valid::<O>(a@),
        bounds_valid::<O>(b@),
    ensures
        r == file_less::<O>(order, a@, b@),
{
    match order {
        FileOrder::Newest => b.min_xip < a.min_xip,
        FileOrder::Oldest => a.min_xip < b.min_xip,
        FileOrder::Smallest => O::less(a.infimum.as_slice(), b.infimum.as_slice()),
        FileOrder::Largest => a.size > b.size,
    }
}

/// Files in order with one more put in its place, after those that do not come after it.
pub open spec fn placed<O: KeyOrder>(order: FileOrder, files: Seq<FileMeta>, f: FileMeta) -> Seq<
    FileMeta,
>
    decreases files.len(),
{
    if files.len() == 0 || file_less::<O>(order, f, files[0]) {
        seq![f] + files
    } else {
        seq![files[0]] + placed::<O>(order, files.drop_first(), f)
    }
}

/// Files put in order; those that compare equal stay as they are.
pub open spec fn in_order<O: KeyOrder>(order: FileOrder, files: Seq<FileMeta>) -> Seq<FileMeta>
    decreases files.len(),
{
    if files.len() == 0 {
        files
    } else {
        placed::<O>(order, in_order::<O>(order, files.drop_last()), files.last())
    }
}

proof fn lemma_placed_at<O: KeyOrder>(order: FileOrder, files: Seq<FileMeta>, f: FileMeta, n: int)
    requires
        0 <= n <= files.len(),
        forall|i: int| 0 <= i < n ==> !file_less::<O>(order, f, #[trigger] files[i]),
        n < files.len() ==> file_less::<O>(order, f, files[n]),
    ensures
        placed::<O>(order, files, f) == files.insert(n, f),
    decreases n,
{
    if n == 0 {
        assert(files.insert(0, f) =~= seq![f] + files);
    } else {
        assert(!file_less::<O>(order, f, files[0]));
        let rest = files.drop_first();
        assert forall|i: int| 0 <= i < n - 1 implies !file_less::<O>(
            order,
            f,
            #[trigger] rest[i],
        ) by {
            assert(rest[i] == files[i + 1]);
        }
        lemma_placed_at::<O>(order, rest, f, n - 1);
        assert(files.insert(n, f) =~= seq![files[0]] + rest.insert(n - 1, f));
    }
}

/// The files of `a` and `b`, both in order, in one order. Of two that compare equal, the one of
/// `b` comes first.
pub open spec fn merge_files<O: KeyOrder>(
    order: FileOrder,
    a: Seq<FileMeta>,
    b: Seq<FileMeta>,
) -> Seq<FileMeta>
    decreases a.len() + b.len(),
{
    if a.len() == 0 {
        b
    } else if b.len() == 0 {
        a
    } else if file_less::<O>(order, a[0], b[0]) {
        seq![a[0]] + merge_files::<O>(order, a.drop_first(), b)
    } else {
        seq![b[0]] + merge_files::<O>(order, a, b.drop_first())
    }
}

/// The files of a level that an edit adds.
pub open spec fn added_at(added: Seq<(usize, FileMeta)>, level: nat) -> Seq<FileMeta>
    decreases added.len(),
{
    if added.len() == 0 {
        Seq::empty()
    } else {
        let init = added_at(added.drop_last(), level);
        if added.last().0 == level {
            init.push(added.last().1)
        } else {
            init
        }
    }
}

/// The files that are not deleted from a level.
pub open spec fn kept(files: Seq<FileMeta>, level: nat, deleted: Set<(usize, TableFileRef)>) -> Seq<
    FileMeta,
>
    decreases files.len(),
{
    if files.len() == 0 {
        files
    } else {
        let init = kept(files.drop_last(), level, deleted);
        if deleted.contains((level as usize, files.last().file_ref)) {
            init
        } else {
            init.push(files.last())
        }
    }
}

/// A file, marked if it is in a set.
pub open spec fn marked_file(
    f: FileMeta,
    level: nat,
    marked: Set<(usize, TableFileRef)>,
) -> FileMeta {
    if marked.contains((level as usize, f.file_ref)) {
        FileMeta { being_compacted: true, ..f }
    } else {
        f
    }
}

/// The files of a level, with those marked that are in a set.
pub open spec fn marked_files(
    files: Seq<FileMeta>,
    level: nat,
    marked: Set<(usize, TableFileRef)>,
) -> Seq<FileMeta> {
    files.map_values(|f: FileMeta| marked_file(f, level, marked))
}

/// The files of a level with others added and some deleted, in the order of the level.
pub open spec fn left_level<O: KeyOrder>(
    base: Seq<FileMeta>,
    added: Seq<FileMeta>,
    level: nat,
    deleted: Set<(usize, TableFileRef)>,
) -> Seq<FileMeta> {
    let order = FileOrder::of_level(level);
    kept(merge_files::<O>(order, in_order::<O>(order, added), base), level, deleted)
}

/// The files of a level with others added, some deleted and some marked.
pub open spec fn saved_level<O: KeyOrder>(
    base: Seq<FileMeta>,
    added: Seq<FileMeta>,
    level: nat,
    deleted: Set<(usize, TableFileRef)>,
    marked: Set<(usize, TableFileRef)>,
) -> Seq<FileMeta> {
    marked_files(left_level::<O>(base, added, level, deleted), level, marked)
}

/// The files of a level after an edit.
pub open spec fn edited_level<O: KeyOrder>(
    base: Seq<FileMeta>,
    level: nat,
    edit: EditView,
) -> Seq<FileMeta> {
    saved_level::<O>(base, added_at(edit.added, level), level, edit.deleted, edit.marked)
}

/// The files of each level after an edit.
pub open spec fn edited<O: KeyOrder>(base: Seq<Seq<FileMeta>>, edit: EditView) -> Seq<
    Seq<FileMeta>,
> {
    Seq::new(base.len(), |level: int| edited_level::<O>(base[level], level as nat, edit))
}

/// Whether every file that is added is for one of the levels and has valid bounds.
pub open spec fn edit_fits<O: KeyOrder>(edit: EditView, levels: nat) -> bool {
    forall|i: int|
        0 <= i < edit.added.len() ==> (#[trigger] edit.added[i]).0 < levels && bounds_valid::<O>(
            edit.added[i].1,
        )
}

/// Copies files.
pub fn clone_files(files: &Vec<TableFileMeta>) -> (r: Vec<TableFileMeta>)
    ensures
        table::level_view(r@) == table::level_view(files@),
{
    let size: usize = files.len();
    let mut out: Vec<TableFileMeta> = Vec::new();
    let mut i: usize = 0;
    while i < size
        invariant
            i <= size,
            size == files@.len(),
            out@.len() == i,
            forall|j: int| 0 <= j < i ==> (#[trigger] out@[j])@ == files@[j]@,
        decreases size - i,
    {
        out.push(files[i].clone());
        i = i + 1;
    }
    proof {
        assert(table::level_view(out@) =~= table::level_view(files@));
    }
    out
}

/// Copies the files of each level.
pub fn clone_levels(levels: &Vec<Vec<TableFileMeta>>) -> (r: Vec<Vec<TableFileMeta>>)
    ensures
        table::file_set_view(r@) == table::file_set_view(levels@),
{
    let size: usize = levels.len();
    let mut out: Vec<Vec<TableFileMeta>> = Vec::new();
    let mut i: usize = 0;
    while i < size
        invariant
            i <= size,
            size == levels@.len(),
            out@.len() == i,
            forall|j: int|
                0 <= j < i ==> table::level_view((#[trigger] out@[j])@) == table::level_view(
                    levels@[j]@,
                ),
        decreases size - i,
    {
        out.push(clone_files(&levels[i]));
        i = i + 1;
    }
    proof {
        assert(table::file_set_view(out@) =~= table::file_set_view(levels@));
    }
    out
}

/// Puts files in order.
pub fn sort_files<O: KeyOrder>(order: FileOrder, files: &Vec<TableFileMeta>) -> (r: Vec<
    TableFileMeta,
>)
    requires
        all_valid::<O>(table::level_view(files@)),
    ensures
        table::level_view(r@) == in_order::<O>(order, table::level_view(files@)),
        all_valid::<O>(table::level_view(r@)),
{
    let ghost all = table::level_view(files@);
    let size: usize = files.len();
    let mut out: Vec<TableFileMeta> = Vec::new();
    let mut i: usize = 0;
    proof {
        assert(all.take(0) =~= Seq::<FileMeta>::empty());
        assert(table::level_view(out@) =~= Seq::<FileMeta>::empty());
    }
    while i < size
        invariant
            i <= size,
            size == files@.len(),
            all == table::level_view(files@),
            all_valid::<O>(all),
            out@.len() == i,
            table::level_view(out@) == in_order::<O>(order, all.take(i as int)),
            all_valid::<O>(table::level_view(out@)),
        decreases size - i,
    {
        let ghost sorted = table::level_view(out@);
        let ghost f = files@[i as int]@;
        assert(all[i as int] == f);
        let mut n: usize = 0;
        proof {
            assert forall|j: int| 0 <= j < i implies bounds_valid::<O>((#[trigger] out@[j])@) by {
                assert(sorted[j] == out@[j]@);
            }
        }
        while n < i && !less_files::<O>(order, &files[i], &out[n])
            invariant
                n <= i,
                i < size,
                size == files@.len(),
                out@.len() == i,
                sorted == table::level_view(out@),
                f == files@[i as int]@,
                bounds_valid::<O>(f),
                all_valid::<O>(sorted),
                forall|j: int| 0 <= j < i ==> bounds_valid::<O>((#[trigger] out@[j])@),
                forall|j: int| 0 <= j < n ==> !file_less::<O>(order, f, #[trigger] sorted[j]),
            decreases i - n,
        {
            assert(sorted[n as int] == out@[n as int]@);
            n = n + 1;
        }
        proof {
            if n < i {
                assert(sorted[n as int] == out@[n as int]@);
            }
            lemma_placed_at::<O>(order, sorted, f, n as int);
            assert(all.take(i + 1).drop_last() =~= all.take(i as int));
            assert(all.take(i + 1).last() == f);
        }
        out.insert(n, files[i].clone());
        proof {
            assert(table::level_view(out@) =~= sorted.insert(n as int, f));
            assert forall|j: int| 0 <= j < table::level_view(out@).len() implies bounds_valid::<O>(
                #[trigger] table::level_view(out@)[j],
            ) by {
                if j < n {
                    assert(table::level_view(out@)[j] == sorted[j]);
                } else if j > n {
                    assert(table::level_view(out@)[j] == sorted[j - 1]);
                }
            }
        }
        i = i + 1;
    }
    proof {
        assert(all.take(size as int) =~= all);
    }
    out
}

/// Merges files that are in order.
pub fn merge_iters<O: KeyOrder>(
    order: FileOrder,
    a: &Vec<TableFileMeta>,
    b: &Vec<TableFileMeta>,
) -> (r: Vec<TableFileMeta>)
    requires
        all_valid::<O>(table::level_view(a@)),
        all_valid::<O>(table::level_view(b@)),
    ensures
        table::level_view(r@) == merge_files::<O>(
            order,
            table::level_view(a@),
            table::level_view(b@),
        ),
{
    let ghost va = table::level_view(a@);
    let ghost vb = table::level_view(b@);
    let mut out: Vec<TableFileMeta> = Vec::new();
    let mut i: usize = 0;
    let mut j: usize = 0;
    let a_len: usize = a.len();
    let b_len: usize = b.len();
    proof {
        assert(va.skip(0) =~= va);
        assert(vb.skip(0) =~= vb);
        assert(table::level_view(out@) + merge_files::<O>(order, va, vb) =~= merge_files::<O>(
            order,
            va,
            vb,
        ));
    }
    while i < a_len || j < b_len
        invariant
            i <= a_len,
            j <= b_len,
            a_len == a@.len(),
            b_len == b@.len(),
            va == table::level_view(a@),
            vb == table::level_view(b@),
            all_valid::<O>(va),
            all_valid::<O>(vb),
            table::level_view(out@) + merge_files::<O>(order, va.skip(i as int), vb.skip(j as int))
                == merge_files::<O>(order, va, vb),
        decreases (a_len - i) + (b_len - j),
    {
        let ghost before = table::level_view(out@);
        let ghost ra = va.skip(i as int);
        let ghost rb = vb.skip(j as int);
        proof {
            if i < a_len {
                assert(ra[0] == a@[i as int]@);
                assert(bounds_valid::<O>(va[i as int]));
                assert(ra.drop_first() =~= va.skip(i + 1));
            }
            if j < b_len {
                assert(rb[0] == b@[j as int]@);
                assert(bounds_valid::<O>(vb[j as int]));
                assert(rb.drop_first() =~= vb.skip(j + 1));
            }
        }
        if i < a_len && (j >= b_len || less_files::<O>(order, &a[i], &b[j])) {
            out.push(a[i].clone());
            proof {
                if j >= b_len {
                    assert(rb.len() == 0);
                    assert(merge_files::<O>(order, va.skip(i + 1), rb) =~= va.skip(i + 1));
                    assert(ra =~= seq![ra[0]] + va.skip(i + 1));
                }
                assert(merge_files::<O>(order, ra, rb) == seq![ra[0]] + merge_files::<O>(
                    order,
                    va.skip(i + 1),
                    rb,
                ));
                assert(table::level_view(out@) =~= before + seq![ra[0]]);
                assert(before + (seq![ra[0]] + merge_files::<O>(order, va.skip(i + 1), rb)) =~= (
                before + seq![ra[0]]) + merge_files::<O>(order, va.skip(i + 1), rb));
            }
            i = i + 1;
        } else {
            out.push(b[j].clone());
            proof {
                if i >= a_len {
                    assert(ra.len() == 0);
                    assert(rb =~= seq![rb[0]] + vb.skip(j + 1));
                }
                assert(merge_files::<O>(order, ra, rb) == seq![rb[0]] + merge_files::<O>(
                    order,
                    ra,
                    vb.skip(j + 1),
                ));
                assert(table::level_view(out@) =~= before + seq![rb[0]]);
                assert(before + (seq![rb[0]] + merge_files::<O>(order, ra, vb.skip(j + 1))) =~= (
                before + seq![rb[0]]) + merge_files::<O>(order, ra, vb.skip(j + 1)));
            }
            j = j + 1;
        }
    }
    proof {
        assert(va.skip(i as int) =~= Seq::<FileMeta>::empty());
        assert(vb.skip(j as int) =~= Seq::<FileMeta>::empty());
        assert(table::level_view(out@) + Seq::<FileMeta>::empty() =~= table::level_view(out@));
    }
    out
}

/// What of a list is in it.
pub open spec fn listed(refs: Seq<(usize, TableFileRef)>) -> Set<(usize, TableFileRef)> {
    Set::new(|r: (usize, TableFileRef)| refs.contains(r))
}

/// Whether a list holds a file of a level.
pub fn contains_ref(refs: &Vec<(usize, TableFileRef)>, level: usize, file_ref: TableFileRef) -> (r:
    bool)
    ensures
        r == listed(refs@).contains((level, file_ref)),
{
    let size: usize = refs.len();
    let mut i: usize = 0;
    while i < size
        invariant
            i <= size,
            size == refs@.len(),
            forall|j: int| 0 <= j < i ==> #[trigger] refs@[j] != (level, file_ref),
        decreases size - i,
    {
        if refs[i].0 == level && refs[i].1 == file_ref {
            assert(refs@[i as int] == (level, file_ref));
            return true;
        }
        i = i + 1;
    }
    false
}

/// Collects what edits change and applies it to a version.
pub struct VersionBuilder {
    added: Vec<Vec<TableFileMeta>>,
    deleted: Vec<(usize, TableFileRef)>,
    mark_compacted: Vec<(usize, TableFileRef)>,
}

impl VersionBuilder {
    /// The files to add to each level.
    pub closed spec fn to_add(self) -> Seq<Seq<FileMeta>> {
        table::file_set_view(self.added@)
    }

    /// The files to delete.
    pub closed spec fn to_delete(self) -> Set<(usize, TableFileRef)> {
        listed(self.deleted@)
    }

    /// The files to mark.
    pub closed spec fn to_mark(self) -> Set<(usize, TableFileRef)> {
        listed(self.mark_compacted@)
    }

    pub fn new(num_levels: usize) -> (r: Self)
        ensures
            r.to_add() == Seq::new(num_levels as nat, |i: int| Seq::<FileMeta>::empty()),
            r.to_delete() == Set::<(usize, TableFileRef)>::empty(),
            r.to_mark() == Set::<(usize, TableFileRef)>::empty(),
    {
        let mut added: Vec<Vec<TableFileMeta>> = Vec::new();
        let mut i: usize = 0;
        while i < num_levels
            invariant
                i <= num_levels,
                added@.len() == i,
                forall|j: int| 0 <= j < i ==> (#[trigger] added@[j])@.len() == 0,
            decreases num_levels - i,
        {
            added.push(Vec::new());
            i = i + 1;
        }
        let r = VersionBuilder { added, deleted: Vec::new(), mark_compacted: Vec::new() };
        proof {
            assert(listed(r.deleted@) =~= Set::<(usize, TableFileRef)>::empty());
            assert forall|j: int| 0 <= j < num_levels implies #[trigger] r.to_add()[j] == Seq::<
                FileMeta,
            >::empty() by {
                assert(r.to_add()[j] =~= Seq::<FileMeta>::empty());
            }
            assert(r.to_add() =~= Seq::new(num_levels as nat, |i: int| Seq::<FileMeta>::empty()));
        }
        r
    }

    /// Takes the changes of an edit.
    pub fn apply(&mut self, edit: &VersionEdit)
        requires
            forall|i: int|
                0 <= i < edit@.added.len() ==> (#[trigger] edit@.added[i]).0 < old(self).to_add().len(),
            forall|r: (usize, TableFileRef)| #[trigger]
                edit@.marked.contains(r) ==> r.0 < old(self).to_add().len(),
        ensures
            final(self).to_add() == Seq::new(
                old(self).to_add().len(),
                |level: int| old(self).to_add()[level] + added_at(edit@.added, level as nat),
            ),
            final(self).to_mark() == old(self).to_mark().union(edit@.marked),
            final(self).to_delete() == edit@.deleted,
    {
        let ghost all = edit@.added;
        let ghost add0 = self.to_add();
        let size: usize = edit.add_files.len();
        let mut i: usize = 0;
        proof {
            assert forall|l: int| 0 <= l < add0.len() implies #[trigger] self.to_add()[l] == add0[l]
                + added_at(all.take(0), l as nat) by {
                assert(all.take(0).len() == 0);
                assert(add0[l] + Seq::<FileMeta>::empty() =~= add0[l]);
            }
        }
        while i < size
            invariant
                i <= size,
                size == edit.add_files@.len(),
                all == edit@.added,
                self.deleted@ == old(self).deleted@,
                self.mark_compacted@ == old(self).mark_compacted@,
                self.to_add().len() == add0.len(),
                self.added@.len() == add0.len(),
                forall|j: int| 0 <= j < all.len() ==> (#[trigger] all[j]).0 < add0.len(),
                forall|l: int|
                    0 <= l < add0.len() ==> #[trigger] self.to_add()[l] == add0[l] + added_at(
                        all.take(i as int),
                        l as nat,
                    ),
            decreases size - i,
        {
            let ghost before = self.to_add();
            let level: usize = edit.add_files[i].0;
            assert(all[i as int] == (level, edit.add_files@[i as int].1@));
            self.added[level].push(edit.add_files[i].1.clone());
            proof {
                let part = all.take(i + 1);
                assert(part.drop_last() =~= all.take(i as int));
                assert(part.last() == all[i as int]);
                assert forall|l: int| 0 <= l < add0.len() implies #[trigger] self.to_add()[l]
                    == add0[l] + added_at(part, l as nat) by {
                    if l == level {
                        assert(self.to_add()[l] =~= before[l].push(all[i as int].1));
                        assert(self.to_add()[l] =~= add0[l] + added_at(part, l as nat));
                    } else {
                        assert(self.to_add()[l] == before[l]);
                    }
                }
            }
            i = i + 1;
        }
        let size: usize = edit.mark_compacted.len();
        let ghost marks0 = self.mark_compacted@;
        let ghost marks = edit.mark_compacted@;
        let mut i: usize = 0;
        proof {
            assert(self.mark_compacted@ =~= marks0 + marks.take(0));
        }
        let ghost added = self.added@;
        while i < size
            invariant
                i <= size,
                size == marks.len(),
                marks == edit.mark_compacted@,
                self.added@ == added,
                self.mark_compacted@ == marks0 + marks.take(i as int),
            decreases size - i,
        {
            self.mark_compacted.push(edit.mark_compacted[i]);
            proof {
                assert(marks.take(i + 1) =~= marks.take(i as int).push(marks[i as int]));
                assert(self.mark_compacted@ =~= marks0 + marks.take(i + 1));
            }
            i = i + 1;
        }
        proof {
            assert(marks.take(size as int) =~= marks);
            lemma_listed_union(marks0, marks);
            assert(all.take(all.len() as int) =~= all);
            assert(self.to_add() =~= Seq::new(
                add0.len(),
                |level: int| add0[level] + added_at(all, level as nat),
            ));
        }
        self.deleted = clone_refs(&edit.deleted);
    }

    /// Makes a version of another one and the changes. The deletions are used up, and the files to
    /// add are left in order.
    pub fn save_to<O: KeyOrder>(&mut self, base: &Version, v: &mut Version)
        requires
            base.files().len() == old(self).to_add().len(),
            old(v).files().len() == old(self).to_add().len(),
            forall|l: int|
                0 <= l < base.files().len() ==> all_valid::<O>(#[trigger] base.files()[l]),
            forall|l: int|
                0 <= l < old(self).to_add().len() ==> all_valid::<O>(
                    #[trigger] old(self).to_add()[l],
                ),
        ensures
            final(v).files() == Seq::new(
                base.files().len(),
                |level: int|
                    saved_level::<O>(
                        base.files()[level],
                        old(self).to_add()[level],
                        level as nat,
                        old(self).to_delete(),
                        old(self).to_mark(),
                    ),
            ),
            final(v).scores() == old(v).scores(),
            final(self).to_add() == Seq::new(
                old(self).to_add().len(),
                |level: int|
                    in_order::<O>(FileOrder::of_level(level as nat), old(self).to_add()[level]),
            ),
            final(self).to_delete() == Set::<(usize, TableFileRef)>::empty(),
            final(self).to_mark() == old(self).to_mark(),
    {
        let ghost add0 = self.to_add();
        let mut deleted: Vec<(usize, TableFileRef)> = Vec::new();
        std::mem::swap(&mut deleted, &mut self.deleted);
        let size: usize = self.added.len();
        let mut level: usize = 0;
        proof {
            assert(self.to_delete() =~= Set::<(usize, TableFileRef)>::empty());
        }
        while level < size
            invariant
                level <= size,
                size == self.added@.len(),
                size == self.to_add().len(),
                size == add0.len(),
                size == base.files().len(),
                size == base.files@.len(),
                size == v.files().len(),
                size == v.files@.len(),
                v.scores() == old(v).scores(),
                add0 == old(self).to_add(),
                listed(deleted@) == old(self).to_delete(),
                self.to_delete() == Set::<(usize, TableFileRef)>::empty(),
                self.to_mark() == old(self).to_mark(),
                forall|l: int|
                    0 <= l < base.files().len() ==> all_valid::<O>(#[trigger] base.files()[l]),
                forall|l: int| 0 <= l < add0.len() ==> all_valid::<O>(#[trigger] add0[l]),
                forall|l: int| level <= l < size ==> #[trigger] self.to_add()[l] == add0[l],
                forall|l: int|
                    0 <= l < level ==> #[trigger] self.to_add()[l] == in_order::<O>(
                        FileOrder::of_level(l as nat),
                        add0[l],
                    ),
                forall|l: int|
                    0 <= l < level ==> #[trigger] v.files()[l] == saved_level::<O>(
                        base.files()[l],
                        add0[l],
                        l as nat,
                        old(self).to_delete(),
                        old(self).to_mark(),
                    ),
            decreases size - level,
        {
            let order = if level == 0 {
                FileOrder::Newest
            } else {
                FileOrder::Smallest
            };
            let ghost before = v.files();
            let ghost adding = self.to_add();
            assert(adding[level as int] == table::level_view(self.added@[level as int]@));
            assert(base.files()[level as int] == table::level_view(base.files@[level as int]@));
            let added = sort_files::<O>(order, &self.added[level]);
            let merged = merge_iters::<O>(order, &added, &base.files[level]);
            let files = Self::finish_level(level, &merged, &deleted, &self.mark_compacted);
            v.files.set(level, files);
            self.added.set(level, added);
            proof {
                assert(v.files()[level as int] == table::level_view(files@));
                assert(self.to_add()[level as int] == table::level_view(added@));
                assert forall|l: int| 0 <= l < size && l != level implies #[trigger] v.files()[l]
                    == before[l] by {}
                assert forall|l: int|
                    0 <= l < size && l != level implies #[trigger] self.to_add()[l]
                    == adding[l] by {}
            }
            level = level + 1;
        }
        proof {
            assert(v.files() =~= Seq::new(
                base.files().len(),
                |level: int|
                    saved_level::<O>(
                        base.files()[level],
                        old(self).to_add()[level],
                        level as nat,
                        old(self).to_delete(),
                        old(self).to_mark(),
                    ),
            ));
            assert(self.to_add() =~= Seq::new(
                add0.len(),
                |level: int| in_order::<O>(FileOrder::of_level(level as nat), add0[level]),
            ));
        }
    }

    /// Leaves out the files that are deleted and marks those that are to be marked.
    fn finish_level(
        level: usize,
        merged: &Vec<TableFileMeta>,
        deleted: &Vec<(usize, TableFileRef)>,
        marked: &Vec<(usize, TableFileRef)>,
    ) -> (r: Vec<TableFileMeta>)
        ensures
            table::level_view(r@) == marked_files(
                kept(table::level_view(merged@), level as nat, listed(deleted@)),
                level as nat,
                listed(marked@),
            ),
    {
        let ghost all = table::level_view(merged@);
        let ghost l = level as nat;
        let size: usize = merged.len();
        let mut out: Vec<TableFileMeta> = Vec::new();
        let mut i: usize = 0;
        proof {
            assert(all.take(0) =~= Seq::<FileMeta>::empty());
            assert(table::level_view(out@) =~= marked_files(
                kept(all.take(0), l, listed(deleted@)),
                l,
                listed(marked@),
            ));
        }
        while i < size
            invariant
                i <= size,
                size == merged@.len(),
                all == table::level_view(merged@),
                l == level,
                table::level_view(out@) == marked_files(
                    kept(all.take(i as int), l, listed(deleted@)),
                    l,
                    listed(marked@),
                ),
            decreases size - i,
        {
            let ghost before = table::level_view(out@);
            let ghost part = kept(all.take(i as int), l, listed(deleted@));
            proof {
                assert(all.take(i + 1).drop_last() =~= all.take(i as int));
                assert(all.take(i + 1).last() == merged@[i as int]@);
            }
            if !contains_ref(deleted, level, merged[i].file_ref) {
                let mut f = merged[i].clone();
                if contains_ref(marked, level, f.file_ref) {
                    f.being_compacted = true;
                }
                let ghost fv = f@;
                out.push(f);
                proof {
                    let m = merged@[i as int]@;
                    assert(fv == marked_file(m, l, listed(marked@)));
                    assert(table::level_view(out@) =~= before.push(fv));
                    assert(marked_files(part.push(m), l, listed(marked@)) =~= marked_files(
                        part,
                        l,
                        listed(marked@),
                    ).push(fv));
                }
            }
            i = i + 1;
        }
        proof {
            assert(all.take(size as int) =~= all);
        }
        out
    }
}

proof fn lemma_listed_union(a: Seq<(usize, TableFileRef)>, b: Seq<(usize, TableFileRef)>)
    ensures
        listed(a + b) == listed(a).union(listed(b)),
{
    assert forall|r: (usize, TableFileRef)| #[trigger]
        listed(a + b).contains(r) <==> listed(a).union(listed(b)).contains(r) by {
        if (a + b).contains(r) {
            let i = choose|i: int| 0 <= i < (a + b).len() && (a + b)[i] == r;
            if i < a.len() {
                assert(a[i] == r);
            } else {
                assert(b[i - a.len()] == r);
            }
        }
        if a.contains(r) {
            let i = choose|i: int| 0 <= i < a.len() && a[i] == r;
            assert((a + b)[i] == r);
        }
        if b.contains(r) {
            let i = choose|i: int| 0 <= i < b.len() && b[i] == r;
            assert((a + b)[a.len() + i] == r);
        }
    }
    assert(listed(a + b) =~= listed(a).union(listed(b)));
}

fn clone_refs(refs: &Vec<(usize, TableFileRef)>) -> (r: Vec<(usize, TableFileRef)>)
    ensures
        r@ == refs@,
{
    let size: usize = refs.len();
    let mut out: Vec<(usize, TableFileRef)> = Vec::new();
    let mut i: usize = 0;
    while i < size
        invariant
            i <= size,
            size == refs@.len(),
            out@ == refs@.take(i as int),
        decreases size - i,
    {
        out.push(refs[i]);
        proof {
            assert(refs@.take(i + 1) =~= refs@.take(i as int).push(refs@[i as int]));
        }
        i = i + 1;
    }
    proof {
        assert(refs@.take(size as int) =~= refs@);
    }
    out
}

/// Whether a file can be compared: its bounds are valid keys, in order, and the number of its
/// transaction is in the first half of the range.
pub open spec fn comparable<O: KeyOrder>(f: FileMeta) -> bool {
    &&& bounds_valid::<O>(f)
    &&& !O::lt(f.supremum, f.infimum)
    &&& f.min_xip.0 < 0x2000_0000_0000_0000
}

/// Whether all files can be compared.
pub open spec fn all_comparable<O: KeyOrder>(files: Seq<FileMeta>) -> bool {
    forall|i: int| 0 <= i < files.len() ==> comparable::<O>(#[trigger] files[i])
}

/// Whether no file comes before one that stands in front of it.
pub open spec fn ordered<O: KeyOrder>(order: FileOrder, files: Seq<FileMeta>) -> bool {
    forall|i: int, j: int|
        0 <= i < j < files.len() ==> !file_less::<O>(
            order,
            #[trigger] files[j],
            #[trigger] files[i],
        )
}

proof fn lemma_comparable_not_less<O: KeyOrder>(order: FileOrder, a: FileMeta, b: FileMeta, c: FileMeta)
    requires
        comparable::<O>(a),
        comparable::<O>(b),
        comparable::<O>(c),
        !file_less::<O>(order, b, a),
        !file_less::<O>(order, c, b),
    ensures
        !file_less::<O>(order, c, a),
{
    crate::transaction::lemma_before_is_less(a.min_xip, b.min_xip);
    crate::transaction::lemma_before_is_less(b.min_xip, a.min_xip);
    crate::transaction::lemma_before_is_less(b.min_xip, c.min_xip);
    crate::transaction::lemma_before_is_less(c.min_xip, b.min_xip);
    crate::transaction::lemma_before_is_less(a.min_xip, c.min_xip);
    crate::transaction::lemma_before_is_less(c.min_xip, a.min_xip);
    if order == FileOrder::Smallest && O::lt(c.infimum, a.infimum) {
        if a.infimum == b.infimum {
        } else {
            O::total(a.infimum, b.infimum);
            O::transitive(c.infimum, a.infimum, b.infimum);
        }
    }
}

proof fn lemma_comparable_asymmetric<O: KeyOrder>(order: FileOrder, a: FileMeta, b: FileMeta)
    requires
        comparable::<O>(a),
        comparable::<O>(b),
        file_less::<O>(order, a, b),
    ensures
        !file_less::<O>(order, b, a),
{
    crate::transaction::lemma_before_is_less(a.min_xip, b.min_xip);
    crate::transaction::lemma_before_is_less(b.min_xip, a.min_xip);
    if order == FileOrder::Smallest && O::lt(b.infimum, a.infimum) {
        O::transitive(a.infimum, b.infimum, a.infimum);
        O::irreflexive(a.infimum);
    }
}

/// Whether an order can put files in order: it goes one way only, and where of three files none
/// comes before the one in front of it, the last does not come before the first.
#[verifier::opaque]
pub open spec fn sortable<O: KeyOrder>(order: FileOrder, known: Set<FileMeta>) -> bool {
    &&& forall|a: FileMeta, b: FileMeta|
        known.contains(a) && known.contains(b) && #[trigger] file_less::<O>(order, a, b)
            ==> !file_less::<O>(order, b, a)
    &&& forall|a: FileMeta, b: FileMeta, c: FileMeta|
        #![trigger file_less::<O>(order, b, a), file_less::<O>(order, c, b)]
        known.contains(a) && known.contains(b) && known.contains(c) && !file_less::<O>(
            order,
            b,
            a,
        ) && !file_less::<O>(order, c, b) ==> !file_less::<O>(order, c, a)
}

/// Whether all files are among the known ones.
pub open spec fn within(files: Seq<FileMeta>, known: Set<FileMeta>) -> bool {
    forall|i: int| 0 <= i < files.len() ==> known.contains(#[trigger] files[i])
}

/// The files that can be compared.
pub open spec fn comparable_files<O: KeyOrder>() -> Set<FileMeta> {
    Set::new(|f: FileMeta| comparable::<O>(f))
}

/// Files that can be compared can be put in every order.
pub proof fn lemma_sortable<O: KeyOrder>(order: FileOrder)
    ensures
        sortable::<O>(order, comparable_files::<O>()),
{
    reveal(sortable);
    let known = comparable_files::<O>();
    assert forall|a: FileMeta, b: FileMeta|
        known.contains(a) && known.contains(b) && #[trigger] file_less::<O>(
            order,
            a,
            b,
        ) implies !file_less::<O>(order, b, a) by {
        lemma_comparable_asymmetric::<O>(order, a, b);
    }
    assert forall|a: FileMeta, b: FileMeta, c: FileMeta|
        #![trigger file_less::<O>(order, b, a), file_less::<O>(order, c, b)]
        known.contains(a) && known.contains(b) && known.contains(c) && !file_less::<O>(
            order,
            b,
            a,
        ) && !file_less::<O>(order, c, b) implies !file_less::<O>(order, c, a) by {
        lemma_comparable_not_less::<O>(order, a, b, c);
    }
}

/// Files whose smallest keys are valid can be put in the order of these.
pub proof fn lemma_sortable_by_key<O: KeyOrder>(known: Set<FileMeta>)
    requires
        forall|f: FileMeta| #[trigger] known.contains(f) ==> O::valid(f.infimum),
    ensures
        sortable::<O>(FileOrder::Smallest, known),
{
    reveal(sortable);
    let order = FileOrder::Smallest;
    assert forall|a: FileMeta, b: FileMeta|
        known.contains(a) && known.contains(b) && #[trigger] file_less::<O>(
            order,
            a,
            b,
        ) implies !file_less::<O>(order, b, a) by {
        if O::lt(b.infimum, a.infimum) {
            O::transitive(a.infimum, b.infimum, a.infimum);
            O::irreflexive(a.infimum);
        }
    }
    assert forall|a: FileMeta, b: FileMeta, c: FileMeta|
        #![trigger file_less::<O>(order, b, a), file_less::<O>(order, c, b)]
        known.contains(a) && known.contains(b) && known.contains(c) && !file_less::<O>(
            order,
            b,
            a,
        ) && !file_less::<O>(order, c, b) implies !file_less::<O>(order, c, a) by {
        if O::lt(c.infimum, a.infimum) && a.infimum != b.infimum {
            O::total(a.infimum, b.infimum);
            O::transitive(c.infimum, a.infimum, b.infimum);
        }
    }
}

/// Files whose transactions have numbers of one type that lie within half a round from some number
/// on can be put in the order of their age.
pub proof fn lemma_sortable_by_age<O: KeyOrder>(
    known: Set<FileMeta>,
    typ: TimestampType,
    first: nat,
)
    requires
        forall|f: FileMeta| #[trigger]
            known.contains(f) ==> !f.min_xip.invalid() && f.min_xip.typ() == typ && (
            f.min_xip.raw() - first) % transaction::timestamp_range() < 0x2000_0000_0000_0000,
    ensures
        sortable::<O>(FileOrder::Newest, known),
        sortable::<O>(FileOrder::Oldest, known),
{
    reveal(sortable);
    assert forall|a: FileMeta, b: FileMeta|
        known.contains(a) && known.contains(b) implies #[trigger] a.min_xip.before(b.min_xip) == ((
    a.min_xip.raw() - first) % transaction::timestamp_range() < (b.min_xip.raw() - first)
        % transaction::timestamp_range()) by {
        let r = transaction::timestamp_range();
        let x = a.min_xip.raw() - first;
        let y = b.min_xip.raw() - first;
        assert(a.min_xip.raw() - b.min_xip.raw() == x - y);
        assert((x - y) % r == (x % r - y % r) % r) by {
            vstd::arithmetic::div_mod::lemma_sub_mod_noop(x, y, r);
        }
    }
}

proof fn lemma_not_less<O: KeyOrder>(
    order: FileOrder,
    known: Set<FileMeta>,
    a: FileMeta,
    b: FileMeta,
    c: FileMeta,
)
    requires
        sortable::<O>(order, known),
        known.contains(a),
        known.contains(b),
        known.contains(c),
        !file_less::<O>(order, b, a),
        !file_less::<O>(order, c, b),
    ensures
        !file_less::<O>(order, c, a),
{
    reveal(sortable);
}

proof fn lemma_less_is_asymmetric<O: KeyOrder>(
    order: FileOrder,
    known: Set<FileMeta>,
    a: FileMeta,
    b: FileMeta,
)
    requires
        sortable::<O>(order, known),
        known.contains(a),
        known.contains(b),
        file_less::<O>(order, a, b),
    ensures
        !file_less::<O>(order, b, a),
{
    reveal(sortable);
}

proof fn lemma_ordered_cons<O: KeyOrder>(order: FileOrder, known: Set<FileMeta>, f: FileMeta, files: Seq<FileMeta>)
    requires
        known.contains(f),
        within(files, known),
        ordered::<O>(order, files),
        forall|i: int| 0 <= i < files.len() ==> !file_less::<O>(order, #[trigger] files[i], f),
    ensures
        within(seq![f] + files, known),
        ordered::<O>(order, seq![f] + files),
{
    let all = seq![f] + files;
    assert forall|i: int| 0 <= i < all.len() implies known.contains(#[trigger] all[i]) by {
        if i > 0 {
            assert(all[i] == files[i - 1]);
        }
    }
    assert forall|i: int, j: int| 0 <= i < j < all.len() implies !file_less::<O>(
        order,
        #[trigger] all[j],
        #[trigger] all[i],
    ) by {
        assert(all[j] == files[j - 1]);
        if i > 0 {
            assert(all[i] == files[i - 1]);
        }
    }
}

proof fn lemma_ordered_rest<O: KeyOrder>(order: FileOrder, known: Set<FileMeta>, files: Seq<FileMeta>)
    requires
        files.len() > 0,
        within(files, known),
        ordered::<O>(order, files),
    ensures
        within(files.drop_first(), known),
        ordered::<O>(order, files.drop_first()),
{
    let rest = files.drop_first();
    assert forall|i: int| 0 <= i < rest.len() implies known.contains(#[trigger] rest[i]) by {
        assert(rest[i] == files[i + 1]);
    }
    assert forall|i: int, j: int| 0 <= i < j < rest.len() implies !file_less::<O>(
        order,
        #[trigger] rest[j],
        #[trigger] rest[i],
    ) by {
        assert(rest[i] == files[i + 1] && rest[j] == files[j + 1]);
    }
}

/// Merging files that are in order gives files in order.
proof fn lemma_merge_sorted<O: KeyOrder>(
    order: FileOrder,
    known: Set<FileMeta>,
    a: Seq<FileMeta>,
    b: Seq<FileMeta>,
)
    requires
        sortable::<O>(order, known),
        within(a, known),
        within(b, known),
        ordered::<O>(order, a),
        ordered::<O>(order, b),
    ensures
        within(merge_files::<O>(order, a, b), known),
        ordered::<O>(order, merge_files::<O>(order, a, b)),
        forall|f: FileMeta| #[trigger]
            merge_files::<O>(order, a, b).contains(f) ==> a.contains(f) || b.contains(f),
    decreases a.len() + b.len(),
{
    if a.len() > 0 && b.len() > 0 {
        let out = merge_files::<O>(order, a, b);
        let from_a = file_less::<O>(order, a[0], b[0]);
        let (f, ra, rb) = if from_a {
            (a[0], a.drop_first(), b)
        } else {
            (b[0], a, b.drop_first())
        };
        assert(known.contains(a[0]) && known.contains(b[0]));
        if from_a {
            lemma_ordered_rest::<O>(order, known, a);
            lemma_less_is_asymmetric::<O>(order, known, a[0], b[0]);
        } else {
            lemma_ordered_rest::<O>(order, known, b);
        }
        lemma_merge_sorted::<O>(order, known, ra, rb);
        let rest = merge_files::<O>(order, ra, rb);
        assert forall|i: int| 0 <= i < rest.len() implies !file_less::<O>(
            order,
            #[trigger] rest[i],
            f,
        ) by {
            assert(rest.contains(rest[i]));
            assert(known.contains(rest[i]));
            let x = rest[i];
            if ra.contains(x) {
                let j = choose|j: int| 0 <= j < ra.len() && ra[j] == x;
                let k = if from_a {
                    j + 1
                } else {
                    j
                };
                assert(a[k] == x);
                if k > 0 {
                    assert(!file_less::<O>(order, a[k], a[0]));
                } else {
                    assert(x == a[0]);
                }
                if !from_a {
                    if k > 0 {
                        lemma_not_less::<O>(order, known, b[0], a[0], x);
                    }
                }
            } else {
                assert(rb.contains(x));
                let j = choose|j: int| 0 <= j < rb.len() && rb[j] == x;
                let k = if from_a {
                    j
                } else {
                    j + 1
                };
                assert(b[k] == x);
                if k > 0 {
                    assert(!file_less::<O>(order, b[k], b[0]));
                }
                if from_a && k > 0 {
                    lemma_not_less::<O>(order, known, a[0], b[0], x);
                }
            }
        }
        lemma_ordered_cons::<O>(order, known, f, rest);
        assert(out =~= seq![f] + rest);
        assert forall|x: FileMeta| #[trigger] out.contains(x) implies a.contains(x) || b.contains(
            x,
        ) by {
            let i = choose|i: int| 0 <= i < out.len() && out[i] == x;
            if i == 0 {
                if from_a {
                    assert(a[0] == x);
                } else {
                    assert(b[0] == x);
                }
            } else {
                assert(rest[i - 1] == x);
                assert(rest.contains(x));
                if ra.contains(x) {
                    let j = choose|j: int| 0 <= j < ra.len() && ra[j] == x;
                    if from_a {
                        assert(a[j + 1] == x);
                    }
                } else {
                    let j = choose|j: int| 0 <= j < rb.len() && rb[j] == x;
                    if !from_a {
                        assert(b[j + 1] == x);
                    }
                }
            }
        }
    }
}

proof fn lemma_placed_ordered<O: KeyOrder>(order: FileOrder, known: Set<FileMeta>, files: Seq<FileMeta>, f: FileMeta)
    requires
        sortable::<O>(order, known),
        within(files, known),
        ordered::<O>(order, files),
        known.contains(f),
    ensures
        within(placed::<O>(order, files, f), known),
        ordered::<O>(order, placed::<O>(order, files, f)),
        forall|x: FileMeta| #[trigger]
            placed::<O>(order, files, f).contains(x) ==> files.contains(x) || x == f,
    decreases files.len(),
{
    let out = placed::<O>(order, files, f);
    if files.len() == 0 || file_less::<O>(order, f, files[0]) {
        assert forall|i: int| 0 <= i < files.len() implies !file_less::<O>(
            order,
            #[trigger] files[i],
            f,
        ) by {
            lemma_less_is_asymmetric::<O>(order, known, f, files[0]);
            if i > 0 {
                lemma_not_less::<O>(order, known, f, files[0], files[i]);
            }
        }
        lemma_ordered_cons::<O>(order, known, f, files);
        assert forall|x: FileMeta| #[trigger] out.contains(x) implies files.contains(x) || x
            == f by {
            let i = choose|i: int| 0 <= i < out.len() && out[i] == x;
            if i > 0 {
                assert(files[i - 1] == x);
            }
        }
    } else {
        lemma_ordered_rest::<O>(order, known, files);
        let rest = files.drop_first();
        lemma_placed_ordered::<O>(order, known, rest, f);
        let tail = placed::<O>(order, rest, f);
        assert forall|i: int| 0 <= i < tail.len() implies !file_less::<O>(
            order,
            #[trigger] tail[i],
            files[0],
        ) by {
            assert(tail.contains(tail[i]));
            if rest.contains(tail[i]) {
                let j = choose|j: int| 0 <= j < rest.len() && rest[j] == tail[i];
                assert(files[j + 1] == tail[i]);
            }
        }
        lemma_ordered_cons::<O>(order, known, files[0], tail);
        assert forall|x: FileMeta| #[trigger] out.contains(x) implies files.contains(x) || x
            == f by {
            let i = choose|i: int| 0 <= i < out.len() && out[i] == x;
            if i > 0 {
                assert(tail[i - 1] == x);
                assert(tail.contains(x));
                if rest.contains(x) {
                    let j = choose|j: int| 0 <= j < rest.len() && rest[j] == x;
                    assert(files[j + 1] == x);
                }
            } else {
                assert(files[0] == x);
            }
        }
    }
}

/// Sorting puts files in order.
proof fn lemma_sorted<O: KeyOrder>(order: FileOrder, known: Set<FileMeta>, files: Seq<FileMeta>)
    requires
        sortable::<O>(order, known),
        within(files, known),
    ensures
        within(in_order::<O>(order, files), known),
        ordered::<O>(order, in_order::<O>(order, files)),
        forall|x: FileMeta| #[trigger]
            in_order::<O>(order, files).contains(x) ==> files.contains(x),
    decreases files.len(),
{
    if files.len() > 0 {
        let init = files.drop_last();
        assert forall|i: int| 0 <= i < init.len() implies known.contains(#[trigger] init[i]) by {
            assert(init[i] == files[i]);
        }
        lemma_sorted::<O>(order, known, init);
        let sorted = in_order::<O>(order, init);
        assert(known.contains(files[files.len() - 1]));
        lemma_placed_ordered::<O>(order, known, sorted, files.last());
        let out = in_order::<O>(order, files);
        assert forall|f: FileMeta| #[trigger] out.contains(f) implies files.contains(f) by {
            if sorted.contains(f) {
                assert(init.contains(f));
                let j = choose|j: int| 0 <= j < init.len() && init[j] == f;
                assert(files[j] == f);
            } else {
                assert(files[files.len() - 1] == f);
            }
        }
    }
}

proof fn lemma_kept_sorted<O: KeyOrder>(
    order: FileOrder,
    known: Set<FileMeta>,
    files: Seq<FileMeta>,
    level: nat,
    deleted: Set<(usize, TableFileRef)>,
)
    requires
        within(files, known),
        ordered::<O>(order, files),
    ensures
        within(kept(files, level, deleted), known),
        ordered::<O>(order, kept(files, level, deleted)),
        forall|f: FileMeta| #[trigger]
            kept(files, level, deleted).contains(f) ==> files.contains(f),
    decreases files.len(),
{
    if files.len() > 0 {
        let init = files.drop_last();
        assert forall|i: int| 0 <= i < init.len() implies known.contains(#[trigger] init[i]) by {
            assert(init[i] == files[i]);
        }
        assert forall|i: int, j: int| 0 <= i < j < init.len() implies !file_less::<O>(
            order,
            #[trigger] init[j],
            #[trigger] init[i],
        ) by {
            assert(init[i] == files[i] && init[j] == files[j]);
        }
        lemma_kept_sorted::<O>(order, known, init, level, deleted);
        let part = kept(init, level, deleted);
        let out = kept(files, level, deleted);
        let last = files[files.len() - 1];
        assert(known.contains(last));
        assert forall|i: int| 0 <= i < part.len() implies !file_less::<O>(
            order,
            last,
            #[trigger] part[i],
        ) by {
            assert(part.contains(part[i]));
            let j = choose|j: int| 0 <= j < init.len() && init[j] == part[i];
            assert(files[j] == part[i]);
            assert(!file_less::<O>(order, files[files.len() - 1], files[j]));
        }
        assert forall|f: FileMeta| #[trigger] out.contains(f) implies files.contains(f) by {
            let i = choose|i: int| 0 <= i < out.len() && out[i] == f;
            if i < part.len() {
                assert(part[i] == f);
                assert(part.contains(f));
                let j = choose|j: int| 0 <= j < init.len() && init[j] == f;
                assert(files[j] == f);
            } else {
                assert(files[files.len() - 1] == f);
            }
        }
    }
}

/// Merging files that are in order gives files in order.
pub proof fn lemma_merge_ordered<O: KeyOrder>(
    order: FileOrder,
    a: Seq<FileMeta>,
    b: Seq<FileMeta>,
)
    requires
        all_comparable::<O>(a),
        all_comparable::<O>(b),
        ordered::<O>(order, a),
        ordered::<O>(order, b),
    ensures
        all_comparable::<O>(merge_files::<O>(order, a, b)),
        ordered::<O>(order, merge_files::<O>(order, a, b)),
        forall|f: FileMeta| #[trigger]
            merge_files::<O>(order, a, b).contains(f) ==> a.contains(f) || b.contains(f),
{
    let known = comparable_files::<O>();
    lemma_sortable::<O>(order);
    lemma_merge_sorted::<O>(order, known, a, b);
    let out = merge_files::<O>(order, a, b);
    assert forall|i: int| 0 <= i < out.len() implies comparable::<O>(#[trigger] out[i]) by {
        assert(known.contains(out[i]));
    }
}

/// Sorting puts files in order.
pub proof fn lemma_in_order<O: KeyOrder>(order: FileOrder, files: Seq<FileMeta>)
    requires
        all_comparable::<O>(files),
    ensures
        all_comparable::<O>(in_order::<O>(order, files)),
        ordered::<O>(order, in_order::<O>(order, files)),
        forall|x: FileMeta| #[trigger]
            in_order::<O>(order, files).contains(x) ==> files.contains(x),
{
    let known = comparable_files::<O>();
    lemma_sortable::<O>(order);
    lemma_sorted::<O>(order, known, files);
    let out = in_order::<O>(order, files);
    assert forall|i: int| 0 <= i < out.len() implies comparable::<O>(#[trigger] out[i]) by {
        assert(known.contains(out[i]));
    }
}

/// A level that is saved is in its order, level 0 by age, the others by their smallest keys, if it
/// was before and the order can put its files and those that were added in order.
pub proof fn lemma_save_keeps_order<O: KeyOrder>(
    base: Seq<FileMeta>,
    added: Seq<FileMeta>,
    level: nat,
    deleted: Set<(usize, TableFileRef)>,
    marked: Set<(usize, TableFileRef)>,
    known: Set<FileMeta>,
)
    requires
        sortable::<O>(FileOrder::of_level(level), known),
        within(base, known),
        within(added, known),
        ordered::<O>(FileOrder::of_level(level), base),
    ensures
        ordered::<O>(
            FileOrder::of_level(level),
            saved_level::<O>(base, added, level, deleted, marked),
        ),
        within(left_level::<O>(base, added, level, deleted), known),
{
    let order = FileOrder::of_level(level);
    let sorted = in_order::<O>(order, added);
    let merged = merge_files::<O>(order, sorted, base);
    lemma_sorted::<O>(order, known, added);
    lemma_merge_sorted::<O>(order, known, sorted, base);
    lemma_kept_sorted::<O>(order, known, merged, level, deleted);
    let left = left_level::<O>(base, added, level, deleted);
    let saved = saved_level::<O>(base, added, level, deleted, marked);
    assert forall|i: int, j: int| 0 <= i < j < saved.len() implies !file_less::<O>(
        order,
        #[trigger] saved[j],
        #[trigger] saved[i],
    ) by {
        assert(!file_less::<O>(order, left[j], left[i]));
    }
}

/// Whether the files of every level can be compared and are in the order of their level.
pub open spec fn levels_ordered<O: KeyOrder>(levels: Seq<Seq<FileMeta>>) -> bool {
    forall|l: int|
        0 <= l < levels.len() ==> all_comparable::<O>(#[trigger] levels[l]) && ordered::<O>(
            FileOrder::of_level(l as nat),
            levels[l],
        )
}

proof fn lemma_added_comparable<O: KeyOrder>(added: Seq<(usize, FileMeta)>, level: nat)
    requires
        forall|i: int| 0 <= i < added.len() ==> comparable::<O>((#[trigger] added[i]).1),
    ensures
        all_comparable::<O>(added_at(added, level)),
    decreases added.len(),
{
    if added.len() > 0 {
        let init = added.drop_last();
        assert forall|i: int| 0 <= i < init.len() implies comparable::<O>(
            (#[trigger] init[i]).1,
        ) by {
            assert(init[i] == added[i]);
        }
        lemma_added_comparable::<O>(init, level);
        assert(comparable::<O>(added[added.len() - 1].1));
    }
}

/// An edit keeps the files of every level in order: level 0 by age, the others by their smallest
/// keys.
pub proof fn lemma_edit_keeps_order<O: KeyOrder>(levels: Seq<Seq<FileMeta>>, edit: EditView)
    requires
        levels_ordered::<O>(levels),
        forall|i: int|
            0 <= i < edit.added.len() ==> comparable::<O>((#[trigger] edit.added[i]).1),
    ensures
        levels_ordered::<O>(edited::<O>(levels, edit)),
{
    let after = edited::<O>(levels, edit);
    let known = comparable_files::<O>();
    assert forall|l: int| 0 <= l < after.len() implies all_comparable::<O>(#[trigger] after[l])
        && ordered::<O>(FileOrder::of_level(l as nat), after[l]) by {
        let order = FileOrder::of_level(l as nat);
        let added = added_at(edit.added, l as nat);
        lemma_added_comparable::<O>(edit.added, l as nat);
        lemma_sortable::<O>(order);
        assert(all_comparable::<O>(levels[l]));
        lemma_save_keeps_order::<O>(
            levels[l],
            added,
            l as nat,
            edit.deleted,
            edit.marked,
            known,
        );
        let left = left_level::<O>(levels[l], added, l as nat, edit.deleted);
        assert forall|i: int| 0 <= i < after[l].len() implies comparable::<O>(
            #[trigger] after[l][i],
        ) by {
            assert(known.contains(left[i]));
        }
    }
}

proof fn lemma_cons_multiset(f: FileMeta, files: Seq<FileMeta>)
    ensures
        (seq![f] + files).to_multiset() == files.to_multiset().insert(f),
{
    let one = Seq::<FileMeta>::empty().push(f);
    assert(seq![f] =~= one);
    vstd::seq_lib::lemma_multiset_commutative(one, files);
    Seq::<FileMeta>::empty().to_multiset_ensures();
    assert(one.to_multiset() =~= Seq::<FileMeta>::empty().to_multiset().insert(f));
    assert(Seq::<FileMeta>::empty().to_multiset().len() == 0);
    assert((seq![f] + files).to_multiset() =~= files.to_multiset().insert(f));
}

proof fn lemma_placed_multiset<O: KeyOrder>(order: FileOrder, files: Seq<FileMeta>, f: FileMeta)
    ensures
        placed::<O>(order, files, f).to_multiset() == files.to_multiset().insert(f),
    decreases files.len(),
{
    if files.len() == 0 || file_less::<O>(order, f, files[0]) {
        lemma_cons_multiset(f, files);
    } else {
        let rest = files.drop_first();
        lemma_placed_multiset::<O>(order, rest, f);
        lemma_cons_multiset(files[0], placed::<O>(order, rest, f));
        lemma_cons_multiset(files[0], rest);
        assert(files =~= seq![files[0]] + rest);
        assert(placed::<O>(order, files, f).to_multiset() =~= files.to_multiset().insert(f));
    }
}

proof fn lemma_in_order_multiset<O: KeyOrder>(order: FileOrder, files: Seq<FileMeta>)
    ensures
        in_order::<O>(order, files).to_multiset() == files.to_multiset(),
    decreases files.len(),
{
    if files.len() > 0 {
        let init = files.drop_last();
        lemma_in_order_multiset::<O>(order, init);
        lemma_placed_multiset::<O>(order, in_order::<O>(order, init), files.last());
        init.to_multiset_ensures();
        assert(files =~= init.push(files.last()));
    }
}

proof fn lemma_merge_multiset<O: KeyOrder>(order: FileOrder, a: Seq<FileMeta>, b: Seq<FileMeta>)
    ensures
        merge_files::<O>(order, a, b).to_multiset() == a.to_multiset().add(b.to_multiset()),
    decreases a.len() + b.len(),
{
    a.to_multiset_ensures();
    b.to_multiset_ensures();
    if a.len() == 0 || b.len() == 0 {
        assert(merge_files::<O>(order, a, b).to_multiset() =~= a.to_multiset().add(
            b.to_multiset(),
        ));
    } else if file_less::<O>(order, a[0], b[0]) {
        let rest = a.drop_first();
        lemma_merge_multiset::<O>(order, rest, b);
        lemma_cons_multiset(a[0], merge_files::<O>(order, rest, b));
        lemma_cons_multiset(a[0], rest);
        assert(a =~= seq![a[0]] + rest);
        assert(merge_files::<O>(order, a, b).to_multiset() =~= a.to_multiset().add(
            b.to_multiset(),
        ));
    } else {
        let rest = b.drop_first();
        lemma_merge_multiset::<O>(order, a, rest);
        lemma_cons_multiset(b[0], merge_files::<O>(order, a, rest));
        lemma_cons_multiset(b[0], rest);
        assert(b =~= seq![b[0]] + rest);
        assert(merge_files::<O>(order, a, b).to_multiset() =~= a.to_multiset().add(
            b.to_multiset(),
        ));
    }
}

proof fn lemma_kept_multiset(
    files: Seq<FileMeta>,
    level: nat,
    deleted: Set<(usize, TableFileRef)>,
    f: FileMeta,
)
    ensures
        kept(files, level, deleted).to_multiset().count(f) == if deleted.contains(
            (level as usize, f.file_ref),
        ) {
            0
        } else {
            files.to_multiset().count(f)
        },
    decreases files.len(),
{
    files.to_multiset_ensures();
    if files.len() > 0 {
        let init = files.drop_last();
        lemma_kept_multiset(init, level, deleted, f);
        init.to_multiset_ensures();
        kept(init, level, deleted).to_multiset_ensures();
        assert(files =~= init.push(files.last()));
    }
}

/// A level that is saved holds, as often as they were there, the files that it had and those that
/// were added, but for the deleted ones, and nothing else. Only the marks differ: a file is being
/// compacted if it was before or was marked.
pub proof fn lemma_saved_level<O: KeyOrder>(
    base: Seq<FileMeta>,
    added: Seq<FileMeta>,
    level: nat,
    deleted: Set<(usize, TableFileRef)>,
    marked: Set<(usize, TableFileRef)>,
)
    ensures
        ({
            let left = left_level::<O>(base, added, level, deleted);
            let saved = saved_level::<O>(base, added, level, deleted, marked);
            &&& forall|f: FileMeta|
                #![trigger left.to_multiset().count(f)]
                left.to_multiset().count(f) == if deleted.contains((level as usize, f.file_ref)) {
                    0
                } else {
                    base.to_multiset().count(f) + added.to_multiset().count(f)
                }
            &&& saved.len() == left.len()
            &&& forall|i: int|
                0 <= i < left.len() ==> #[trigger] saved[i] == (FileMeta {
                    being_compacted: left[i].being_compacted || marked.contains(
                        (level as usize, left[i].file_ref),
                    ),
                    ..left[i]
                })
        }),
{
    let order = FileOrder::of_level(level);
    let sorted = in_order::<O>(order, added);
    let merged = merge_files::<O>(order, sorted, base);
    let left = left_level::<O>(base, added, level, deleted);
    lemma_in_order_multiset::<O>(order, added);
    lemma_merge_multiset::<O>(order, sorted, base);
    assert forall|f: FileMeta|
        #![trigger left.to_multiset().count(f)]
        left.to_multiset().count(f) == if deleted.contains((level as usize, f.file_ref)) {
            0
        } else {
            base.to_multiset().count(f) + added.to_multiset().count(f)
        } by {
        lemma_kept_multiset(merged, level, deleted, f);
    }
}

/// Whether a file was in a level or was added to it, and was not deleted.
pub open spec fn stays(
    base: Seq<FileMeta>,
    added: Seq<FileMeta>,
    level: nat,
    deleted: Set<(usize, TableFileRef)>,
    f: FileMeta,
) -> bool {
    (base.contains(f) || added.contains(f)) && !deleted.contains((level as usize, f.file_ref))
}

/// Every file that a level had or that was added to it, and that was not deleted, is in the saved
/// level, and every file of the saved level is one of these.
pub proof fn lemma_saved_files<O: KeyOrder>(
    base: Seq<FileMeta>,
    added: Seq<FileMeta>,
    level: nat,
    deleted: Set<(usize, TableFileRef)>,
    marked: Set<(usize, TableFileRef)>,
    g: FileMeta,
)
    ensures
        saved_level::<O>(base, added, level, deleted, marked).contains(g) <==> exists|f: FileMeta| #[trigger]
            stays(base, added, level, deleted, f) && g == marked_file(f, level, marked),
{
    let left = left_level::<O>(base, added, level, deleted);
    let saved = saved_level::<O>(base, added, level, deleted, marked);
    lemma_saved_level::<O>(base, added, level, deleted, marked);
    base.to_multiset_ensures();
    added.to_multiset_ensures();
    left.to_multiset_ensures();
    if saved.contains(g) {
        let i = choose|i: int| 0 <= i < saved.len() && saved[i] == g;
        let f = left[i];
        assert(left.contains(f));
        assert(left.to_multiset().count(f) > 0);
        assert(stays(base, added, level, deleted, f));
    }
    if exists|f: FileMeta| #[trigger]
        stays(base, added, level, deleted, f) && g == marked_file(f, level, marked) {
        let f = choose|f: FileMeta| #[trigger]
            stays(base, added, level, deleted, f) && g == marked_file(f, level, marked);
        assert(left.to_multiset().count(f) > 0);
        let i = choose|i: int| 0 <= i < left.len() && left[i] == f;
        assert(saved[i] == g);
    }
}

} // verus!

//! Which files a version has after an edit.
use crate::key::KeyOrder;
use crate::table::{FileMeta, TableFileRef};
use crate::transaction::Timestamp;
use crate::version;
use crate::version::builder;
use crate::version::contents;
use crate::version::EditView;
use vstd::prelude::*;

verus! {

/// Whether a file was in a level or is added to it by an edit, and is not deleted by it.
pub open spec fn is_left(
    levels: Seq<Seq<FileMeta>>,
    edit: EditView,
    l: usize,
    f: FileMeta,
) -> bool {
    &&& levels[l as int].contains(f) || edit.added.contains((l, f))
    &&& !edit.deleted.contains((l, f.file_ref))
}

/// The files that an edit adds to a level are those that it has for that level.
proof fn lemma_added_at(added: Seq<(usize, FileMeta)>, l: usize, f: FileMeta)
    ensures
        builder::added_at(added, l as nat).contains(f) <==> added.contains((l, f)),
    decreases added.len(),
{
    if added.len() > 0 {
        let init = added.drop_last();
        lemma_added_at(init, l, f);
        let part = builder::added_at(init, l as nat);
        let all = builder::added_at(added, l as nat);
        if all.contains(f) {
            let i = choose|i: int| 0 <= i < all.len() && all[i] == f;
            if i < part.len() {
                assert(part[i] == f);
                assert(init.contains((l, f)));
                let j = choose|j: int| 0 <= j < init.len() && init[j] == (l, f);
                assert(added[j] == (l, f));
            } else {
                assert(added[added.len() - 1] == (l, f));
            }
        }
        if added.contains((l, f)) {
            let j = choose|j: int| 0 <= j < added.len() && added[j] == (l, f);
            if j < init.len() {
                assert(init[j] == (l, f));
                assert(part.contains(f));
                let i = choose|i: int| 0 <= i < part.len() && part[i] == f;
                assert(all[i] == f);
            } else {
                assert(all[all.len() - 1] == f);
            }
        }
    }
}

/// After an edit a level has the files that it had and those that were added to it, but for the
/// deleted ones, and no other. A file is being compacted if it was before or is marked, and else
/// is as it was.
pub proof fn lemma_edited<O: KeyOrder>(
    levels: Seq<Seq<FileMeta>>,
    edit: EditView,
    l: usize,
    g: FileMeta,
)
    requires
        l < levels.len(),
    ensures
        builder::edited::<O>(levels, edit).len() == levels.len(),
        builder::edited::<O>(levels, edit)[l as int].contains(g) <==> exists|f: FileMeta| #[trigger]
            is_left(levels, edit, l, f) && g == (FileMeta {
                being_compacted: f.being_compacted || edit.marked.contains((l, f.file_ref)),
                ..f
            }),
{
    let base = levels[l as int];
    let added = builder::added_at(edit.added, l as nat);
    builder::lemma_saved_files::<O>(base, added, l as nat, edit.deleted, edit.marked, g);
    assert forall|f: FileMeta| #[trigger]
        builder::stays(base, added, l as nat, edit.deleted, f) == is_left(levels, edit, l, f) by {
        lemma_added_at(edit.added, l, f);
    }
    let now = builder::edited::<O>(levels, edit)[l as int];
    if now.contains(g) {
        let f = choose|f: FileMeta| #[trigger]
            builder::stays(base, added, l as nat, edit.deleted, f) && g == builder::marked_file(
                f,
                l as nat,
                edit.marked,
            );
        assert(is_left(levels, edit, l, f));
    }
    if exists|f: FileMeta| #[trigger]
        is_left(levels, edit, l, f) && g == (FileMeta {
            being_compacted: f.being_compacted || edit.marked.contains((l, f.file_ref)),
            ..f
        }) {
        let f = choose|f: FileMeta| #[trigger]
            is_left(levels, edit, l, f) && g == (FileMeta {
                being_compacted: f.being_compacted || edit.marked.contains((l, f.file_ref)),
                ..f
            });
        assert(builder::stays(base, added, l as nat, edit.deleted, f));
    }
}

/// Whether files have one with a name.
pub open spec fn has_ref(files: Seq<FileMeta>, r: TableFileRef) -> bool {
    exists|i: int| 0 <= i < files.len() && (#[trigger] files[i]).file_ref == r
}

/// Marking the files of a compaction marks those of its level and those of the next one, and does
/// nothing else.
pub proof fn lemma_marking_edit(
    l: usize,
    start: Seq<FileMeta>,
    output: Seq<FileMeta>,
    m: usize,
    r: TableFileRef,
)
    requires
        l < usize::MAX,
    ensures
        version::marking(l, start, output).marked.contains((m, r)) <==> (m == l && has_ref(
            start,
            r,
        )) || (m == l + 1 && has_ref(output, r)),
        version::marking(l, start, output).added.len() == 0,
        !version::marking(l, start, output).deleted.contains((m, r)),
        version::marking(l, start, output).min_xip is None,
{
}

/// What a compaction changes: it deletes the files that it read from its level and from the next
/// one, adds those that it wrote to the next one, and does nothing else.
pub proof fn lemma_compaction_edit(
    levels: Seq<Seq<FileMeta>>,
    l: int,
    s: int,
    e: int,
    p: int,
    q: int,
    outs: Seq<FileMeta>,
    m: usize,
    f: FileMeta,
)
    requires
        0 <= l < usize::MAX,
    ensures
        ({
            let edit = contents::compaction_edit(levels, l, s, e, p, q, outs);
            &&& edit.deleted.contains((m, f.file_ref)) <==> (m == l && has_ref(
                levels[l].subrange(s, e),
                f.file_ref,
            )) || (m == l + 1 && has_ref(levels[l + 1].subrange(p, q), f.file_ref))
            &&& edit.added.contains((m, f)) <==> m == l + 1 && outs.contains(f)
            &&& !edit.marked.contains((m, f.file_ref))
            &&& edit.min_xip is None
        }),
{
    let edit = contents::compaction_edit(levels, l, s, e, p, q, outs);
    if edit.added.contains((m, f)) {
        let i = choose|i: int| 0 <= i < edit.added.len() && edit.added[i] == (m, f);
        assert(outs[i] == f);
    }
    if m == l + 1 && outs.contains(f) {
        let i = choose|i: int| 0 <= i < outs.len() && outs[i] == f;
        assert(edit.added[i] == (m, f));
    }
}

/// What a flush changes: it adds its file to the first level, and tells the oldest transaction
/// that was in progress.
pub proof fn lemma_flush_edit(min_xip: Timestamp, f: FileMeta, m: usize, g: FileMeta)
    ensures
        ({
            let edit = contents::flush_edit(min_xip, f);
            &&& edit.added.contains((m, g)) <==> m == 0 && g == f
            &&& !edit.deleted.contains((m, g.file_ref))
            &&& !edit.marked.contains((m, g.file_ref))
            &&& edit.min_xip == Some(min_xip)
        }),
{
    let edit = contents::flush_edit(min_xip, f);
    assert(edit.added[0] == (0usize, f));
}

} // verus!

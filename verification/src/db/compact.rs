//! Compactions of the table files.
use crate::db::{Db, DbView};
use crate::error::Error;
use crate::key::KeyOrder;
use crate::merging_iter;
use crate::table;
use crate::table::{FileMeta, TableFileMeta, TableFileRef, TableIterator, TableStore};
use crate::version;
use crate::version::bounds::TableBounds;
use crate::version::builder;
use crate::version::compaction;
use crate::version::contents;
use crate::version::outputs;
use crate::version::outputs::write_outputs;
use crate::version::selection;
use crate::version::{Compaction, EditView};
use crate::wal::checkpoint;
use crate::wal::checkpoint::ManifestTime;
use vstd::prelude::*;

verus! {

/// Whether the files of a compaction are files of two neighbouring levels that can be compacted
/// together, from `s` to before `e` and from `p` to before `q`.
pub open spec fn comes_from<O: KeyOrder>(
    levels: Seq<Seq<FileMeta>>,
    c: Compaction,
    s: int,
    e: int,
    p: int,
    q: int,
) -> bool {
    let l = c.from_level() as int;
    &&& contents::selected::<O>(levels, l, s, e, p, q)
    &&& selection::same_files(levels[l].subrange(s, e), c.start_files())
    &&& selection::same_files(levels[l + 1].subrange(p, q), c.output_files())
}

/// The merged entries of the files of a compaction.
pub open spec fn merged_entries<O: KeyOrder>(
    files: Map<TableFileRef, Seq<u8>>,
    c: Compaction,
) -> Seq<(Seq<u8>, Seq<u8>)> {
    merging_iter::merged::<O>(
        None,
        version::input_ages(c.from_level(), c.start_files()) + version::input_ages(
            1,
            c.output_files(),
        ),
        version::input_tables(files, c.start_files()) + version::input_tables(
            files,
            c.output_files(),
        ),
    )
}

impl<S: TableStore> DbView<S> {
    /// Whether a compaction can be done: it has changed nothing yet, and its files can be compacted
    /// together.
    pub open spec fn can_compact<O: KeyOrder>(self, c: Compaction) -> bool {
        &&& c.changes() == (EditView {
            min_xip: None,
            added: Seq::empty(),
            deleted: Set::empty(),
            marked: Set::empty(),
        })
        &&& exists|s: int, e: int, p: int, q: int| #[trigger]
            comes_from::<O>(self.vset.files(), c, s, e, p, q)
    }

    /// Whether the files of a compaction have been written: `before` are the files that there were,
    /// and `outs` those that were added.
    pub open spec fn compacted_to<O: KeyOrder>(
        self,
        c: Compaction,
        before: Map<TableFileRef, Seq<u8>>,
        s: int,
        e: int,
        p: int,
        q: int,
        outs: Seq<FileMeta>,
        first: nat,
    ) -> bool {
        let l = c.from_level() as int;
        let levels = self.vset.files();
        &&& contents::version_sound::<O>(before, levels)
        &&& contents::selected::<O>(levels, l, s, e, p, q)
        &&& contents::compacted::<O>(
            before,
            self.store.files(),
            levels,
            l,
            s,
            e,
            p,
            q,
            outs,
            first,
        )
        &&& c.changes() == contents::compaction_edit(levels, l, s, e, p, q, outs)
    }

    /// Whether a compaction can be finished: its files have been written.
    pub open spec fn can_finish<O: KeyOrder>(self, c: Compaction) -> bool {
        exists|
            before: Map<TableFileRef, Seq<u8>>,
            s: int,
            e: int,
            p: int,
            q: int,
            outs: Seq<FileMeta>,
            first: nat,
        | #[trigger]
            self.compacted_to::<O>(c, before, s, e, p, q, outs, first)
    }
}

/// What the merged entries of a compaction are.
proof fn lemma_merged_entries<O: KeyOrder>(
    files: Map<TableFileRef, Seq<u8>>,
    levels: Seq<Seq<FileMeta>>,
    c: Compaction,
    s: int,
    e: int,
    p: int,
    q: int,
)
    requires
        contents::version_sound::<O>(files, levels),
        comes_from::<O>(levels, c, s, e, p, q),
    ensures
        merged_entries::<O>(files, c) == contents::merged_inputs::<O>(
            files,
            levels,
            c.from_level() as int,
            s,
            e,
            p,
            q,
        ),
        version::inputs_sound::<O>(files, c.start_files()),
        version::inputs_sound::<O>(files, c.output_files()),
        version::files_exist(files, c.start_files()),
        version::files_exist(files, c.output_files()),
        version::refs_at(c.from_level(), c.start_files()) == version::refs_at(
            c.from_level(),
            levels[c.from_level() as int].subrange(s, e),
        ),
        version::refs_at((c.from_level() + 1) as usize, c.output_files()) == version::refs_at(
            (c.from_level() + 1) as usize,
            levels[c.from_level() as int + 1].subrange(p, q),
        ),
{
    let l = c.from_level() as int;
    let x = levels[l].subrange(s, e);
    let y = levels[l + 1].subrange(p, q);
    let a = c.start_files();
    let b = c.output_files();
    lemma_same_inputs::<O>(files, levels, l, s, e, a);
    lemma_same_inputs::<O>(files, levels, l + 1, p, q, b);
    assert(version::input_tables(files, contents::inputs_of(levels, l, s, e, p, q))
        =~= version::input_tables(files, a) + version::input_tables(files, b));
    assert(version::input_ages(l as usize, x) =~= version::input_ages(l as usize, a));
    assert(version::input_ages(1, y) =~= version::input_ages(1, b));
    assert(x.subrange(0, x.len() as int) =~= x);
    assert(a.subrange(0, a.len() as int) =~= a);
    assert(y.subrange(0, y.len() as int) =~= y);
    assert(b.subrange(0, b.len() as int) =~= b);
    selection::lemma_marks_keep_refs(c.from_level(), x, a, 0, x.len() as int);
    selection::lemma_marks_keep_refs((c.from_level() + 1) as usize, y, b, 0, y.len() as int);
}

proof fn lemma_same_inputs<O: KeyOrder>(
    files: Map<TableFileRef, Seq<u8>>,
    levels: Seq<Seq<FileMeta>>,
    l: int,
    s: int,
    e: int,
    a: Seq<FileMeta>,
)
    requires
        contents::version_sound::<O>(files, levels),
        0 <= l < levels.len(),
        0 <= s <= e <= levels[l].len(),
        selection::same_files(levels[l].subrange(s, e), a),
    ensures
        version::inputs_sound::<O>(files, a),
        version::files_exist(files, a),
{
    let x = levels[l].subrange(s, e);
    assert(contents::files_sound::<O>(files, levels[l]));
    assert forall|i: int| 0 <= i < a.len() implies files.contains_key(
        (#[trigger] a[i]).file_ref,
    ) && table::sound_table::<O>(files[a[i].file_ref]) by {
        assert(contents::file_sound::<O>(files, levels[l][s + i]));
        assert(x[i] == levels[l][s + i]);
        assert(a[i].file_ref == x[i].file_ref);
    }
}

impl<O: KeyOrder, S: TableStore> Db<O, S> {
    /// Picks the files of the next compaction and marks them. Where there is none to do, the job is
    /// over.
    pub fn pick_compaction(&mut self) -> (r: Result<Option<Compaction>, Error>)
        requires
            old(self).wf(),
            old(self)@.running_compactions > 0,
        ensures
            final(self).wf(),
            final(self).tables_opened() == old(self).tables_opened(),
            final(self)@.vset.opened_with() == old(self)@.vset.opened_with(),
            final(self)@.vset.next_file() == old(self)@.vset.next_file(),
            final(self)@.vset.flushed_xip() == old(self)@.vset.flushed_xip(),
            final(self)@.vset.recovery_point() == old(self)@.vset.recovery_point(),
            forall|k: Seq<u8>| #[trigger]
                O::valid(k) ==> final(self)@.stored::<O>(k) == old(self)@.stored::<O>(k),
            ({
                let picked = version::pick_from::<O>(
                    old(self)@.vset.files(),
                    old(self)@.vset.version().scores(),
                    old(self)@.vset.level0_busy(),
                    0,
                );
                match r {
                    Ok(Some(c)) => {
                        &&& picked == Some(
                            (c.from_level() as nat, c.start_files(), c.output_files()),
                        )
                        &&& final(self)@ == (DbView { vset: final(self)@.vset, ..old(self)@ })
                        &&& final(self)@.vset.files() == builder::edited::<O>(
                            old(self)@.vset.files(),
                            version::marking(c.from_level(), c.start_files(), c.output_files()),
                        )
                        &&& final(self)@.vset.level0_busy() == (old(self)@.vset.level0_busy()
                            || c.from_level() == 0)
                        &&& final(self)@.can_compact::<O>(c)
                    },
                    Ok(None) => {
                        &&& picked is None
                        &&& final(self)@ == (DbView {
                            running_compactions: (old(self)@.running_compactions - 1) as nat,
                            ..old(self)@
                        })
                    },
                    Err(_) => false,
                }
            }),
    {
        let ghost before = self@;
        let ghost levels = self@.vset.files();
        let ghost files = self@.store.files();
        proof {
            contents::lemma_version_sound::<O>(files, levels);
        }
        match self.vset.pick_compaction::<O>() {
            Ok(Some(c)) => {
                proof {
                    let l = c.from_level() as int;
                    let after = self@.vset.files();
                    selection::lemma_pick_from::<O>(
                        levels,
                        before.vset.version().scores(),
                        before.vset.level0_busy(),
                        0,
                    );
                    let (s, e, p, q) = selection::lemma_picked::<O>(files, levels, l);
                    selection::lemma_marking::<O>(
                        levels,
                        c.from_level(),
                        c.start_files(),
                        c.output_files(),
                    );
                    selection::lemma_marks_keep_sound::<O>(files, levels, after);
                    selection::lemma_marks_keep_compaction::<O>(
                        files,
                        levels,
                        after,
                        l,
                        s,
                        e,
                        p,
                        q,
                        Seq::empty(),
                    );
                    lemma_marked_back(levels[l], after[l], s, e);
                    lemma_marked_back(levels[l + 1], after[l + 1], p, q);
                    assert(comes_from::<O>(after, c, s, e, p, q));
                    assert forall|k: Seq<u8>| #[trigger] O::valid(k) implies self@.stored::<O>(k)
                        == before.stored::<O>(k) by {
                        selection::lemma_marks_keep_values::<O>(files, levels, after, k);
                    }
                    version::lemma_marking_fits::<O>(
                        levels,
                        c.from_level(),
                        c.start_files(),
                        c.output_files(),
                        before.options,
                    );
                    assert(self@.vset.version().scores()[after.len() - 1]
                        == compaction::level_score(after, before.options, after.len() - 1));
                }
                Ok(Some(c))
            },
            Ok(None) => {
                self.running_compactions = self.running_compactions - 1;
                Ok(None)
            },
            Err(e) => Err(e),
        }
    }
}

/// Adds files to what a compaction changes.
fn add_outputs(c: &mut Compaction, level: usize, files: &Vec<TableFileMeta>)
    ensures
        final(c).from_level() == old(c).from_level(),
        final(c).start_files() == old(c).start_files(),
        final(c).output_files() == old(c).output_files(),
        final(c).changes() == (EditView {
            added: old(c).changes().added + table::level_view(files@).map_values(
                |f: FileMeta| (level, f),
            ),
            ..old(c).changes()
        }),
{
    let ghost all = table::level_view(files@).map_values(|f: FileMeta| (level, f));
    let ghost added = c.changes().added;
    let size: usize = files.len();
    let mut i: usize = 0;
    proof {
        assert(added + all.take(0) =~= added);
    }
    while i < size
        invariant
            i <= size,
            size == files@.len(),
            all == table::level_view(files@).map_values(|f: FileMeta| (level, f)),
            c.from_level() == old(c).from_level(),
            c.start_files() == old(c).start_files(),
            c.output_files() == old(c).output_files(),
            c.changes() == (EditView {
                added: added + all.take(i as int),
                ..old(c).changes()
            }),
        decreases size - i,
    {
        let ghost before = c.changes();
        c.edit().add_file(level, files[i].clone());
        proof {
            assert(all[i as int] == (level, files@[i as int]@));
            assert(added + all.take(i + 1) =~= (added + all.take(i as int)).push(all[i as int]));
        }
        i = i + 1;
    }
    proof {
        assert(all.take(size as int) =~= all);
    }
}

impl<O: KeyOrder, S: TableStore> Db<O, S> {
    /// Merges the files of a compaction into new files.
    fn merge_inputs(&mut self, c: &Compaction) -> (r: Result<Vec<TableFileMeta>, Error>)
        requires
            old(self).wf(),
            old(self)@.can_compact::<O>(*c),
            old(self).tables_opened() + c.start_files().len() + c.output_files().len() < u32::MAX,
            old(self)@.options.level_fits((c.from_level() + 1) as nat),
            outputs::files_buildable(
                old(self)@.options.table_factory,
                merged_entries::<O>(old(self)@.store.files(), *c),
                old(self)@.options.max_file_size((c.from_level() + 1) as nat),
            ),
            old(self)@.vset.next_file() + merged_entries::<O>(old(self)@.store.files(), *c).len()
                < usize::MAX,
        ensures
            final(self).wf(),
            final(self).tables_opened() <= old(self).tables_opened() + c.start_files().len()
                + c.output_files().len(),
            final(self)@ == (DbView {
                vset: final(self)@.vset,
                store: final(self)@.store,
                ..old(self)@
            }),
            final(self)@.vset.same_but_next_file(old(self)@.vset),
            final(self)@.vset.next_file() <= usize::MAX,
            final(self)@.store.reliable() == old(self)@.store.reliable(),
            outputs::only_added(
                old(self)@.store.files(),
                final(self)@.store.files(),
                old(self)@.vset.next_file(),
                final(self)@.vset.next_file(),
            ),
            forall|k: Seq<u8>| #[trigger]
                O::valid(k) ==> final(self)@.stored::<O>(k) == old(self)@.stored::<O>(k),
            match r {
                Ok(outs) => {
                    let files = table::level_view(outs@);
                    &&& final(self)@.vset.next_file() == old(self)@.vset.next_file() + files.len()
                    &&& outputs::written_files(
                        final(self)@.store.files(),
                        files,
                        old(self)@.vset.next_file(),
                    )
                    &&& outputs::run_entries(final(self)@.store.files(), files)
                        == merged_entries::<O>(old(self)@.store.files(), *c)
                    &&& outputs::split_at(
                        old(self)@.options.table_factory,
                        final(self)@.store.files(),
                        files,
                        old(self)@.options.max_file_size((c.from_level() + 1) as nat),
                    )
                },
                Err(_) => !old(self)@.store.reliable(),
            },
    {
        let ghost before = self@;
        let ghost levels = self@.vset.files();
        let ghost files0 = self@.store.files();
        proof {
            let (s, e, p, q) = choose|s: int, e: int, p: int, q: int| #[trigger]
                comes_from::<O>(levels, *c, s, e, p, q);
            assert(levels.len() == self.options.num_levels);
            lemma_merged_entries::<O>(files0, levels, *c, s, e, p, q);
        }
        let output_level = c.output_level();
        let limit = self.options.max_file_size_for_level(output_level);
        let opened = self.vset.make_input_iterator::<O, S>(&mut self.tables, &self.store, c);
        let mut citer = match opened {
            Ok(citer) => citer,
            Err(e) => {
                return Err(e);
            },
        };
        let written = write_outputs::<O, S>(
            self.options.table_factory,
            &mut self.store,
            &mut self.vset,
            &mut citer,
            limit,
        );
        proof {
            lemma_outputs_added::<O, S>(before, self@);
            self.tables.lemma_more_files(files0, self@.store.files(), self.store.reliable());
            self.vset.lemma_next_file();
        }
        written
    }

    /// Whether one table can hold what the files of a compaction come to.
    pub fn can_merge(&mut self, c: &Compaction) -> (r: Result<bool, Error>)
        requires
            old(self).wf(),
            old(self)@.can_compact::<O>(*c),
            old(self).tables_opened() + c.start_files().len() + c.output_files().len() < u32::MAX,
        ensures
            final(self).wf(),
            final(self)@ == old(self)@,
            final(self).tables_opened() <= old(self).tables_opened() + c.start_files().len()
                + c.output_files().len(),
            match r {
                Ok(b) => b == outputs::buildable(
                    old(self)@.options.table_factory,
                    merged_entries::<O>(old(self)@.store.files(), *c),
                ),
                Err(_) => !old(self)@.store.reliable(),
            },
    {
        let ghost levels = self@.vset.files();
        let ghost files0 = self@.store.files();
        let ghost all = merged_entries::<O>(files0, *c);
        proof {
            let (s, e, p, q) = choose|s: int, e: int, p: int, q: int| #[trigger]
                comes_from::<O>(levels, *c, s, e, p, q);
            lemma_merged_entries::<O>(files0, levels, *c, s, e, p, q);
        }
        let opened = self.vset.make_input_iterator::<O, S>(&mut self.tables, &self.store, c);
        let mut citer = match opened {
            Ok(citer) => citer,
            Err(e) => {
                return Err(e);
            },
        };
        let mut bounds = TableBounds::new(self.options.table_factory);
        let ghost mut n: int = 0;
        let mut at_end = false;
        proof {
            assert(all.skip(0) =~= all);
            assert(all.take(0) =~= Seq::<(Seq<u8>, Seq<u8>)>::empty());
        }
        while !at_end
            invariant
                0 <= n <= all.len(),
                citer.wf(),
                self@.store.reliable() ==> citer.reliable(),
                self.wf(),
                self@ == old(self)@,
                self.tables_opened() <= old(self).tables_opened() + c.start_files().len()
                    + c.output_files().len(),
                !at_end ==> citer.remaining() == all.skip(n),
                at_end ==> n == all.len(),
                bounds.wf(),
                bounds.made_for() == old(self)@.options.table_factory,
                bounds.entries() == all.take(n),
            decreases all.len() - n + if at_end {
                0int
            } else {
                1int
            },
        {
            match citer.next() {
                Ok(Some((key, value))) => {
                    bounds.add(key.as_slice(), value.as_slice());
                    proof {
                        assert(all.skip(n)[0] == all[n]);
                        assert(all.skip(n).drop_first() =~= all.skip(n + 1));
                        assert(all.take(n + 1) =~= all.take(n).push(all[n]));
                        n = n + 1;
                    }
                },
                Ok(None) => {
                    at_end = true;
                },
                Err(e) => {
                    return Err(e);
                },
            }
        }
        proof {
            assert(all.take(n) =~= all);
        }
        Ok(bounds.fits())
    }

    /// Merges the files of a compaction into new files, and notes what changes.
    pub fn start_compaction(&mut self, c: &mut Compaction) -> (r: Result<(), Error>)
        requires
            old(self).wf(),
            old(self)@.can_compact::<O>(*old(c)),
            old(self).tables_opened() + old(c).start_files().len() + old(c).output_files().len()
                < u32::MAX,
            old(self)@.options.level_fits((old(c).from_level() + 1) as nat),
            outputs::files_buildable(
                old(self)@.options.table_factory,
                merged_entries::<O>(old(self)@.store.files(), *old(c)),
                old(self)@.options.max_file_size((old(c).from_level() + 1) as nat),
            ),
            old(self)@.vset.next_file() + merged_entries::<O>(
                old(self)@.store.files(),
                *old(c),
            ).len() < usize::MAX,
        ensures
            final(self).wf(),
            final(self).tables_opened() <= old(self).tables_opened() + old(c).start_files().len()
                + old(c).output_files().len(),
            final(self)@ == (DbView {
                vset: final(self)@.vset,
                store: final(self)@.store,
                ..old(self)@
            }),
            final(self)@.vset.same_but_next_file(old(self)@.vset),
            final(self)@.store.reliable() == old(self)@.store.reliable(),
            outputs::only_added(
                old(self)@.store.files(),
                final(self)@.store.files(),
                old(self)@.vset.next_file(),
                final(self)@.vset.next_file(),
            ),
            forall|k: Seq<u8>| #[trigger]
                O::valid(k) ==> final(self)@.stored::<O>(k) == old(self)@.stored::<O>(k),
            final(c).from_level() == old(c).from_level(),
            final(c).start_files() == old(c).start_files(),
            final(c).output_files() == old(c).output_files(),
            match r {
                Ok(_) => {
                    let added = final(c).changes().added;
                    &&& final(self)@.can_finish::<O>(*final(c))
                    &&& final(self)@.vset.next_file() == old(self)@.vset.next_file()
                        + added.len()
                    &&& outputs::split_at(
                        old(self)@.options.table_factory,
                        final(self)@.store.files(),
                        added.map_values(|e: (usize, FileMeta)| e.1),
                        old(self)@.options.max_file_size((old(c).from_level() + 1) as nat),
                    )
                },
                Err(_) => !old(self)@.store.reliable(),
            },
    {
        let ghost before = self@;
        let ghost c0 = *c;
        proof {
            lemma_output_level::<O, S>(before, c0);
        }
        let output_level = c.output_level();
        let outputs = match self.merge_inputs(c) {
            Ok(outputs) => outputs,
            Err(e) => {
                return Err(e);
            },
        };
        add_outputs(c, output_level, &outputs);
        c.delete_inputs();
        proof {
            lemma_compaction_done::<O, S>(before, self@, c0, *c, table::level_view(outputs@));
        }
        Ok(())
    }

    /// Puts the files that a compaction wrote in place of those that it read, and schedules the
    /// next compaction. Hands back the bytes of the new manifest.
    pub fn finish_compaction(&mut self, c: &Compaction, now: ManifestTime) -> (r: Result<
        Vec<u8>,
        Error,
    >)
        requires
            old(self).wf(),
            old(self)@.running_compactions > 0,
            old(self)@.can_finish::<O>(*c),
            old(self)@.can_apply::<O>(c.changes(), old(self)@.vset.recovery_point()),
        ensures
            final(self).wf(),
            final(self).tables_opened() == old(self).tables_opened(),
            r matches Ok(bytes) && bytes@ == checkpoint::manifest_bytes(final(self)@.manifest),
            ({
                let after = final(self)@;
                let scheduled = (DbView {
                    vset: after.vset,
                    wal: after.wal,
                    manifest: after.manifest,
                    ..old(self)@
                }).compaction_scheduled();
                &&& after == (DbView {
                    running_compactions: (scheduled.running_compactions - 1) as nat,
                    ..scheduled
                })
                &&& after.applied_from::<O>(
                    old(self)@,
                    c.changes(),
                    old(self)@.vset.recovery_point(),
                    now,
                )
                &&& after.vset.level0_busy() == (old(self)@.vset.level0_busy() && c.from_level()
                    != 0)
                // No value changes.
                &&& forall|k: Seq<u8>| #[trigger]
                    O::valid(k) ==> after.stored::<O>(k) == old(self)@.stored::<O>(k)
            }),
    {
        let ghost before = self@;
        let ghost levels = self@.vset.files();
        let ghost (files0, s, e, p, q, outs, first) = choose|
            files0: Map<TableFileRef, Seq<u8>>,
            s: int,
            e: int,
            p: int,
            q: int,
            outs: Seq<FileMeta>,
            first: nat,
        | #[trigger]
            self@.compacted_to::<O>(*c, files0, s, e, p, q, outs, first);
        let ghost l = c.from_level() as int;
        let ghost files = self@.store.files();
        proof {
            lemma_finish_valid::<O, S>(before, *c);
            crate::transaction::lemma_before_is_asymmetric(
                before.vset.flushed_xip(),
                before.vset.flushed_xip(),
            );
        }
        let res = self.vset.finalize_compaction::<O>(&mut self.wal, &mut self.ckptmgr, now, c);
        let manifest = match res {
            Ok(manifest) => manifest,
            Err(e) => {
                return Err(e);
            },
        };
        proof {
            let after = self@.vset.files();
            contents::lemma_compaction_sound::<O>(
                files0,
                files,
                levels,
                l,
                s,
                e,
                p,
                q,
                outs,
                first,
            );
            assert forall|k: Seq<u8>| #[trigger] O::valid(k) implies self@.stored::<O>(k)
                == before.stored::<O>(k) by {
                contents::lemma_compaction_keeps_values::<O>(
                    files0,
                    files,
                    levels,
                    l,
                    s,
                    e,
                    p,
                    q,
                    outs,
                    first,
                    k,
                );
                lemma_added_values::<O>(files0, files, levels, first, outs.len(), k);
            }
            assert(self@.vset.version().scores()[after.len() - 1] == compaction::level_score(
                after,
                before.options,
                after.len() - 1,
            ));
        }
        self.schedule_compaction();
        self.running_compactions = self.running_compactions - 1;
        Ok(manifest)
    }
}

proof fn lemma_output_level<O: KeyOrder, S: TableStore>(db: DbView<S>, c: Compaction)
    requires
        db.version_ok::<O>(),
        db.can_compact::<O>(c),
    ensures
        c.from_level() < usize::MAX,
{
    let levels = db.vset.files();
    let (s, e, p, q) = choose|s: int, e: int, p: int, q: int| #[trigger]
        comes_from::<O>(levels, c, s, e, p, q);
}

/// What a compaction changes when its files have been written.
proof fn lemma_changes(
    levels: Seq<Seq<FileMeta>>,
    c0: Compaction,
    c: Compaction,
    s: int,
    e: int,
    p: int,
    q: int,
    outs: Seq<FileMeta>,
)
    requires
        c0.changes() == (EditView {
            min_xip: None,
            added: Seq::empty(),
            deleted: Set::empty(),
            marked: Set::empty(),
        }),
        c.changes() == (EditView {
            min_xip: None,
            added: c0.changes().added + outs.map_values(
                |f: FileMeta| ((c0.from_level() + 1) as usize, f),
            ),
            deleted: c0.changes().deleted.union(
                version::refs_at(c0.from_level(), c0.start_files()),
            ).union(version::refs_at((c0.from_level() + 1) as usize, c0.output_files())),
            marked: Set::empty(),
        }),
        version::refs_at(c0.from_level(), c0.start_files()) == version::refs_at(
            c0.from_level(),
            levels[c0.from_level() as int].subrange(s, e),
        ),
        version::refs_at((c0.from_level() + 1) as usize, c0.output_files()) == version::refs_at(
            (c0.from_level() + 1) as usize,
            levels[c0.from_level() as int + 1].subrange(p, q),
        ),
    ensures
        c.changes() == contents::compaction_edit(
            levels,
            c0.from_level() as int,
            s,
            e,
            p,
            q,
            outs,
        ),
        c.changes().added.len() == outs.len(),
        forall|i: int|
            0 <= i < outs.len() ==> (#[trigger] c.changes().added[i]).1 == outs[i],
{
    let edit = contents::compaction_edit(levels, c0.from_level() as int, s, e, p, q, outs);
    assert(c.changes().added =~= edit.added);
    assert(c.changes().deleted =~= edit.deleted);
    assert(c.changes().marked =~= edit.marked);
}

/// What the files of a compaction are when they have been written.
proof fn lemma_compaction_done<O: KeyOrder, S: TableStore>(
    before: DbView<S>,
    after: DbView<S>,
    c0: Compaction,
    c: Compaction,
    outs: Seq<FileMeta>,
)
    requires
        contents::version_sound::<O>(before.store.files(), before.vset.files()),
        outputs::numbers_free(before.store.files(), before.vset.next_file()),
        before.can_compact::<O>(c0),
        after.vset.files() == before.vset.files(),
        after.vset.next_file() == before.vset.next_file() + outs.len(),
        after.vset.next_file() <= usize::MAX,
        outputs::only_added(
            before.store.files(),
            after.store.files(),
            before.vset.next_file(),
            after.vset.next_file(),
        ),
        outputs::written_files(after.store.files(), outs, before.vset.next_file()),
        outputs::run_entries(after.store.files(), outs) == merged_entries::<O>(
            before.store.files(),
            c0,
        ),
        c.from_level() == c0.from_level(),
        c.changes() == (EditView {
            min_xip: None,
            added: c0.changes().added + outs.map_values(
                |f: FileMeta| ((c0.from_level() + 1) as usize, f),
            ),
            deleted: c0.changes().deleted.union(
                version::refs_at(c0.from_level(), c0.start_files()),
            ).union(version::refs_at((c0.from_level() + 1) as usize, c0.output_files())),
            marked: Set::empty(),
        }),
    ensures
        after.can_finish::<O>(c),
        c.changes().added.len() == outs.len(),
        forall|i: int|
            0 <= i < outs.len() ==> (#[trigger] c.changes().added[i]).1 == outs[i],
{
    let levels = before.vset.files();
    let files0 = before.store.files();
    let (s, e, p, q) = choose|s: int, e: int, p: int, q: int| #[trigger]
        comes_from::<O>(levels, c0, s, e, p, q);
    lemma_merged_entries::<O>(files0, levels, c0, s, e, p, q);
    lemma_changes(levels, c0, c, s, e, p, q, outs);
    assert(contents::compacted::<O>(
        files0,
        after.store.files(),
        levels,
        c0.from_level() as int,
        s,
        e,
        p,
        q,
        outs,
        before.vset.next_file(),
    ));
    assert(after.compacted_to::<O>(c, files0, s, e, p, q, outs, before.vset.next_file()));
}

/// Adding files with numbers that were free keeps what there was.
proof fn lemma_free_numbers(
    before: Map<TableFileRef, Seq<u8>>,
    after: Map<TableFileRef, Seq<u8>>,
    first: nat,
    end: nat,
)
    requires
        outputs::numbers_unused(before, first, end),
        outputs::only_added(before, after, first, end),
    ensures
        contents::holds_all(before, after),
{
    assert forall|f: TableFileRef| #[trigger] before.contains_key(f) implies after.contains_key(f)
        && after[f] == before[f] by {
        assert(after.contains_key(f) == before.contains_key(f));
    }
}

proof fn lemma_added_values<O: KeyOrder>(
    before: Map<TableFileRef, Seq<u8>>,
    after: Map<TableFileRef, Seq<u8>>,
    levels: Seq<Seq<FileMeta>>,
    first: nat,
    n: nat,
    k: Seq<u8>,
)
    requires
        contents::version_sound::<O>(before, levels),
        outputs::numbers_unused(before, first, first + n),
        outputs::only_added(before, after, first, first + n),
        O::valid(k),
    ensures
        version::value_from_level::<O>(after, levels, 0, k) == version::value_from_level::<O>(
            before,
            levels,
            0,
            k,
        ),
{
    lemma_free_numbers(before, after, first, first + n);
    contents::lemma_more_values::<O>(before, after, levels, 0, k);
}

/// Writing the files of a compaction leaves the current version as it is.
proof fn lemma_outputs_added<O: KeyOrder, S: TableStore>(before: DbView<S>, after: DbView<S>)
    requires
        before.version_ok::<O>(),
        after.options == before.options,
        after.flushing == before.flushing,
        after.vset.same_but_next_file(before.vset),
        outputs::only_added(
            before.store.files(),
            after.store.files(),
            before.vset.next_file(),
            after.vset.next_file(),
        ),
        outputs::numbers_free(after.store.files(), after.vset.next_file()),
    ensures
        after.version_ok::<O>(),
        contents::holds_all(before.store.files(), after.store.files()),
        forall|k: Seq<u8>| #[trigger]
            O::valid(k) ==> after.stored::<O>(k) == before.stored::<O>(k),
{
    let levels = before.vset.files();
    lemma_free_numbers(
        before.store.files(),
        after.store.files(),
        before.vset.next_file(),
        after.vset.next_file(),
    );
    contents::lemma_more_sound::<O>(before.store.files(), after.store.files(), levels);
    assert forall|k: Seq<u8>| #[trigger] O::valid(k) implies after.stored::<O>(k)
        == before.stored::<O>(k) by {
        contents::lemma_more_values::<O>(before.store.files(), after.store.files(), levels, 0, k);
    }
}

/// What a compaction changes fits.
pub(crate) proof fn lemma_finish_valid<O: KeyOrder, S: TableStore>(db: DbView<S>, c: Compaction)
    requires
        db.version_ok::<O>(),
        db.can_finish::<O>(c),
    ensures
        db.vset.edit_valid::<O>(c.changes()),
{
    let (files0, s, e, p, q, outs, first) = choose|
        files0: Map<TableFileRef, Seq<u8>>,
        s: int,
        e: int,
        p: int,
        q: int,
        outs: Seq<FileMeta>,
        first: nat,
    | #[trigger]
        db.compacted_to::<O>(c, files0, s, e, p, q, outs, first);
    let levels = db.vset.files();
    let l = c.from_level() as int;
    let files = db.store.files();
    contents::lemma_version_sound::<O>(files, levels);
    contents::lemma_compacted_outputs::<O>(files0, files, levels, l, s, e, p, q, outs, first);
    let added = c.changes().added;
    assert forall|i: int| 0 <= i < added.len() implies (#[trigger] added[i]).0 < levels.len()
        && builder::bounds_valid::<O>(added[i].1) by {
        assert(added[i].1 == outs[i]);
        assert(builder::comparable::<O>(outs[i]));
    }
}

proof fn lemma_marked_back(a: Seq<FileMeta>, b: Seq<FileMeta>, s: int, e: int)
    requires
        selection::same_files(a, b),
        0 <= s <= e <= a.len(),
    ensures
        selection::same_files(b.subrange(s, e), a.subrange(s, e)),
{
    let x = b.subrange(s, e);
    let y = a.subrange(s, e);
    assert forall|i: int| 0 <= i < x.len() implies #[trigger] y[i] == (FileMeta {
        being_compacted: y[i].being_compacted,
        ..x[i]
    }) by {
        assert(x[i] == b[s + i] && y[i] == a[s + i]);
    }
}

} // verus!
